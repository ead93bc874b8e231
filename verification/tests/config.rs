use testless::config::{always_run_matches, drop_ignored, Config, ConfigError};
use testless::gitio::{ChangedFile, FileStatus};
use testless::graph::{Def, DefId, DefKind, FileId, FileNode, Graph};

fn file(g: &mut Graph, path: &str) -> FileId {
    g.add_file(FileNode {
        path: path.into(),
        hash: [0; 32],
        lang: "ts".into(),
    })
}

fn def(g: &mut Graph, name: &str, kind: DefKind, file: FileId) -> DefId {
    g.add_def(Def {
        name: name.into(),
        kind,
        file,
        start_line: 1,
        end_line: 2,
        test_id: None,
        computed_name: false,
    })
}

#[test]
fn always_run_matches_selects_test_files_by_glob() {
    let mut g = Graph::default();
    let smoke_file = file(&mut g, "tests/smoke/login.test.ts");
    let other_file = file(&mut g, "src/math.test.ts");
    let smoke_test = def(&mut g, "logs in", DefKind::TestCase, smoke_file);
    let _other_test = def(&mut g, "adds", DefKind::TestCase, other_file);

    let config = Config {
        always_run: vec!["tests/smoke/**".to_string()],
        ..Config::default()
    };

    let matches = always_run_matches(&g, &config).unwrap();
    assert_eq!(matches, vec![(smoke_test, "tests/smoke/**".to_string())]);
}

#[test]
fn empty_always_run_matches_nothing() {
    let mut g = Graph::default();
    let f = file(&mut g, "src/math.test.ts");
    def(&mut g, "adds", DefKind::TestCase, f);

    let config = Config::default();
    assert_eq!(always_run_matches(&g, &config).unwrap(), Vec::new());
}

#[test]
fn the_first_pattern_that_matches_is_reported() {
    let mut g = Graph::default();
    let f = file(&mut g, "tests/a.test.ts");
    let t = def(&mut g, "a", DefKind::TestCase, f);
    def(&mut g, "helper", DefKind::Function, f);
    let config = Config {
        always_run: vec![
            "src/**".to_string(),
            "**/*.test.ts".to_string(),
            "tests/**".to_string(),
        ],
        ..Config::default()
    };
    assert_eq!(
        always_run_matches(&g, &config).unwrap(),
        vec![(t, "**/*.test.ts".to_string())]
    );
}

#[test]
fn a_bad_pattern_is_named() {
    let config = Config {
        always_run: vec!["ok/**".to_string(), "a{b".to_string()],
        ignore: vec!["[".to_string()],
        ..Config::default()
    };
    match always_run_matches(&Graph::default(), &config) {
        Err(ConfigError::Pattern { pattern, error }) => {
            assert_eq!(pattern, "a{b");
            assert!(!error.is_empty());
        }
        other => panic!("expected a bad pattern, got {other:?}"),
    }
    assert!(config.ignore_globset().is_err());
    assert!(config.always_run_globset().is_err());
    assert!(drop_ignored(&Vec::new(), &config).is_err());
}

#[test]
fn ignored_changes_are_dropped() {
    let config = Config {
        ignore: vec!["**/generated/**".to_string(), "*.pb.go".to_string()],
        ..Config::default()
    };
    let change = |path: &str| ChangedFile {
        path: path.to_string(),
        status: FileStatus::Modified,
    };
    let kept = drop_ignored(
        &vec![
            change("src/generated/a.ts"),
            change("src/a.ts"),
            change("x.pb.go"),
        ],
        &config,
    )
    .unwrap();
    assert_eq!(kept, vec![change("src/a.ts")]);
}

#[test]
fn a_file_renamed_out_of_the_index_counts_as_deleted() {
    let config = Config {
        ignore: vec!["**/generated/**".to_string()],
        ..Config::default()
    };
    let renamed = |old: &str, path: &str| ChangedFile {
        path: path.to_string(),
        status: FileStatus::Renamed {
            old: old.to_string(),
        },
    };
    let kept = drop_ignored(
        &vec![
            renamed("src/a.ts", "src/generated/a.ts"),
            renamed("src/generated/b.ts", "src/generated/c.ts"),
            renamed("src/generated/d.ts", "src/d.ts"),
        ],
        &config,
    )
    .unwrap();
    assert_eq!(
        kept,
        vec![
            ChangedFile {
                path: "src/a.ts".to_string(),
                status: FileStatus::Deleted,
            },
            renamed("src/generated/d.ts", "src/d.ts"),
        ]
    );
}

#[test]
fn the_default_configuration_is_empty() {
    let config = Config::default();
    assert!(config.always_run.is_empty());
    assert!(config.ignore.is_empty());
    assert!(config.java_runner.is_none());
    assert!(config.ignore_globset().is_ok());
}
