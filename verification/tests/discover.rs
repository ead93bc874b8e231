use testless::config::{Config, ConfigError};
use testless::discover::{discover, is_noise_dir};
use testless::language::{Extraction, Language, Registry, RepoFacts};
use testless::syntax::{Grammar, SyntaxNode};

struct Fake;

impl Language for Fake {
    fn id(&self) -> String {
        "fake".to_string()
    }

    fn extensions(&self) -> Vec<String> {
        vec!["fk".to_string()]
    }

    fn grammar(&self, _path: &str) -> Grammar {
        Grammar::Go
    }

    fn extract(&self, _tree: &SyntaxNode) -> Extraction {
        Extraction {
            defs: vec![],
            imports: vec![],
            calls: vec![],
            reads: vec![],
        }
    }

    fn import_probes(&self, _from_file: &str, _raw: &str) -> Vec<String> {
        vec![]
    }

    fn resolve_import(&self, _from_file: &str, _raw: &str, _repo: &RepoFacts) -> Option<String> {
        None
    }

    fn package_key(&self, _file: &str) -> Option<String> {
        None
    }
}

/// What a walk finds that enters no noise directory and lists no file that
/// the repository itself ignores.
fn found() -> Vec<String> {
    [
        "src/a.fk",
        "src/z.fk",
        "lib/b.fk",
        "src/skip.txt",
        "node_modules/dep/b.fk",
        ".gitignore",
    ]
    .iter()
    .filter(|p| !p.split('/').any(is_noise_dir))
    .map(|p| p.to_string())
    .collect()
}

#[test]
fn discovers_matching_files_respecting_gitignore() {
    let r = Registry::new(vec![Fake]);
    assert_eq!(
        discover(&r, &Config::default(), &found()).unwrap(),
        vec!["lib/b.fk", "src/a.fk", "src/z.fk"]
    );
}

#[test]
fn ignored_files_are_not_discovered() {
    let r = Registry::new(vec![Fake]);
    let config = Config {
        ignore: vec!["src/**".to_string()],
        ..Config::default()
    };
    assert_eq!(discover(&r, &config, &found()).unwrap(), vec!["lib/b.fk"]);
}

#[test]
fn a_pattern_that_is_no_glob_is_an_error() {
    let r = Registry::new(vec![Fake]);
    let config = Config {
        ignore: vec!["[".to_string()],
        ..Config::default()
    };
    match discover(&r, &config, &found()) {
        Err(ConfigError::Pattern { pattern, .. }) => assert_eq!(pattern, "["),
        other => panic!("expected an error, got {other:?}"),
    }
}
