use testless::classify::{
    classify, is_config_file, ChangeMode, NewSource, OldSource, Sources,
};
use testless::gitio::{ChangedFile, FileStatus};
use testless::graph::{FileNode, Graph};
use testless::language::{Extraction, Language, Registry, RepoFacts};
use testless::plugins::AnyLanguage;
use testless::syntax::{Grammar, SyntaxNode};

struct Fake;

impl Language for Fake {
    fn id(&self) -> String {
        "fake".to_string()
    }

    fn extensions(&self) -> Vec<String> {
        vec!["fk".to_string()]
    }

    fn grammar(&self, _path: &str) -> Grammar {
        Grammar::Go
    }

    fn extract(&self, _tree: &SyntaxNode) -> Extraction {
        Extraction {
            defs: vec![],
            imports: vec![],
            calls: vec![],
            reads: vec![],
        }
    }

    fn import_probes(&self, _from_file: &str, _raw: &str) -> Vec<String> {
        vec![]
    }

    fn resolve_import(&self, _from_file: &str, _raw: &str, _repo: &RepoFacts) -> Option<String> {
        None
    }

    fn package_key(&self, _file: &str) -> Option<String> {
        None
    }
}

#[test]
fn registry_matches_extension() {
    let r = Registry::new(vec![Fake]);
    assert_eq!(r.for_path("x/y.fk").unwrap().id(), "fake");
    assert_eq!(r.for_path("x/y.FK").unwrap().id(), "fake");
    assert!(r.for_path("x/y.rs").is_none());
}

#[test]
fn is_config_file_table() {
    let positives = [
        "package.json",
        "package-lock.json",
        "pnpm-lock.yaml",
        "yarn.lock",
        "tsconfig.json",
        "tsconfig.build.json",
        "go.mod",
        "go.sum",
        "Cargo.toml",
        "Cargo.lock",
        ".env",
        ".env.local",
        "nested/dir/package.json",
        "a/b/c/tsconfig.build.json",
        "a/b/.env.production",
    ];
    for p in positives {
        assert!(is_config_file(p), "{p} should be a config file");
    }

    let negatives = [
        "main.rs",
        "package.json5",
        "src/index.ts",
        "envfile",
        "tsconfig.txt",
        "README.md",
    ];
    for p in negatives {
        assert!(!is_config_file(p), "{p} should not be a config file");
    }
}

fn change(path: &str, status: FileStatus) -> ChangedFile {
    ChangedFile {
        path: path.to_string(),
        status,
    }
}

fn nothing_read() -> Sources {
    Sources {
        old: OldSource::Missing,
        new: NewSource::Unreadable(String::new()),
    }
}

#[test]
fn config_file_precedence_beats_other_rules() {
    // First entry alone (a Deleted, unrecognized-by-this-registry file)
    // would classify as a zero-seed Selection; the second entry being a
    // config file must still force RunAll regardless of position or
    // what the other rules would have produced.
    let graph = Graph::default();
    let none: Registry<AnyLanguage> = Registry::new(vec![]);
    let changed = vec![
        change("src/other.ts", FileStatus::Deleted),
        change("package.json", FileStatus::Modified),
    ];
    let mode = classify(
        &graph,
        &none,
        &changed,
        &vec![],
        &vec![nothing_read(), nothing_read()],
    );
    assert!(
        matches!(mode, Some(ChangeMode::RunAll { .. })),
        "expected RunAll, got {mode:?}"
    );
}

#[test]
fn old_src_error_triggers_run_all_mentioning_the_file() {
    let mut graph = Graph::default();
    graph.add_file(FileNode {
        path: "foo.fk".to_string(),
        hash: [0; 32],
        lang: "fake".to_string(),
    });
    let fakes = Registry::new(vec![Fake]);
    let changed = vec![change("foo.fk", FileStatus::Modified)];
    let sources = vec![Sources {
        old: OldSource::Unreadable("boom".to_string()),
        new: NewSource::Text(String::new()),
    }];
    match classify(&graph, &fakes, &changed, &vec![], &sources) {
        Some(ChangeMode::RunAll { reason }) => assert!(
            reason.contains("foo.fk"),
            "reason should mention the file: {reason}"
        ),
        other => panic!("expected RunAll, got {other:?}"),
    }
}
