use testless::classify::{ChangeMode, Seed, SeedKind};
use testless::config::Config;
use testless::graph::{CallTarget, Def, DefId, DefKind, Edge, FileId, FileNode, Graph};
use testless::language::RepoFacts;
use testless::report::{
    changes_lines, count_edges, count_tests, exit_code, footer_line, hop_kind_label, hop_kind_tag,
    resolved_format, seed_kind_label, selected_test_defs, selected_tests, test_line,
    why_candidates, why_exit_code, why_matches, why_text_lines, Format, WhyCandidate,
};
use testless::walk::{Hop, HopKind};

fn file(g: &mut Graph, path: &str) -> FileId {
    g.add_file(FileNode {
        path: path.to_string(),
        hash: [0; 32],
        lang: "ts".into(),
    })
}

fn def(g: &mut Graph, name: &str, kind: DefKind, file: FileId) -> DefId {
    g.add_def(Def {
        name: name.into(),
        kind,
        file,
        start_line: 1,
        end_line: 2,
        test_id: None,
        computed_name: false,
    })
}

#[test]
fn why_text_lines_two_hop_path() {
    // changed add (src/math.ts) -> called by fmt (src/format.ts) ->
    // = test "formats a sum" (src/format.test.ts)
    let mut g = Graph::default();
    let math_file = file(&mut g, "src/math.ts");
    let format_file = file(&mut g, "src/format.ts");
    let test_file = file(&mut g, "src/format.test.ts");
    let add = def(&mut g, "add", DefKind::Function, math_file);
    let fmt = def(&mut g, "fmt", DefKind::Function, format_file);

    let candidate = WhyCandidate {
        file: String::from("src/format.test.ts"),
        name: vec!["formats a sum".to_string()],
        path: vec![
            Hop {
                from: add,
                edge: HopKind::Calls,
                to: fmt,
            },
            Hop {
                from: fmt,
                edge: HopKind::Reads,
                to: def(&mut g, "formats a sum", DefKind::TestCase, test_file),
            },
        ],
        match_str: "src/format.test.ts :: formats a sum".to_string(),
        always_run_glob: None,
    };

    let lines = why_text_lines(&g, &candidate);
    assert_eq!(
        lines,
        vec![
            "changed add (src/math.ts)".to_string(),
            "  called by fmt (src/format.ts)".to_string(),
            "  = test \"formats a sum\" (src/format.test.ts)".to_string(),
        ]
    );
}

#[test]
fn why_text_lines_empty_path_is_bare_test_line() {
    let mut g = Graph::default();
    let test_file = file(&mut g, "src/a.test.ts");
    def(&mut g, "t", DefKind::TestCase, test_file);

    let candidate = WhyCandidate {
        file: String::from("src/a.test.ts"),
        name: vec!["t".to_string()],
        path: vec![],
        match_str: "src/a.test.ts :: t".to_string(),
        always_run_glob: None,
    };

    let lines = why_text_lines(&g, &candidate);
    assert_eq!(lines, vec!["= test \"t\" (src/a.test.ts)".to_string()]);
}

#[test]
fn why_text_lines_always_run_glob_overrides_empty_path() {
    let mut g = Graph::default();
    let test_file = file(&mut g, "tests/smoke/login.test.ts");
    def(&mut g, "logs in", DefKind::TestCase, test_file);

    let candidate = WhyCandidate {
        file: String::from("tests/smoke/login.test.ts"),
        name: vec!["logs in".to_string()],
        path: vec![],
        match_str: "tests/smoke/login.test.ts :: logs in".to_string(),
        always_run_glob: Some("tests/smoke/**".to_string()),
    };

    let lines = why_text_lines(&g, &candidate);
    assert_eq!(
        lines,
        vec![
            "selected by always-run glob 'tests/smoke/**'".to_string(),
            "  = test \"logs in\" (tests/smoke/login.test.ts)".to_string(),
        ]
    );
}

#[test]
fn hop_kind_label_covers_every_variant() {
    assert_eq!(hop_kind_label(&HopKind::Calls), "called by");
    assert_eq!(hop_kind_label(&HopKind::Reads), "read by");
    assert_eq!(hop_kind_label(&HopKind::Contains), "contained in");
    assert_eq!(hop_kind_label(&HopKind::ImportCloses), "imported by");
    assert_eq!(
        hop_kind_label(&HopKind::UnknownName("add".to_string())),
        "possibly called by (unresolved name \"add\")"
    );
}

#[test]
fn hop_kind_json_labels() {
    assert_eq!(hop_kind_tag(&HopKind::Calls), ("calls".to_string(), None));
    assert_eq!(hop_kind_tag(&HopKind::Reads), ("reads".to_string(), None));
    assert_eq!(
        hop_kind_tag(&HopKind::Contains),
        ("contains".to_string(), None)
    );
    assert_eq!(
        hop_kind_tag(&HopKind::ImportCloses),
        ("import_closes".to_string(), None)
    );
    assert_eq!(
        hop_kind_tag(&HopKind::UnknownName("add".to_string())),
        ("unknown_name".to_string(), Some("add".to_string()))
    );
}

/// `add` is called by `t1`; `t2` calls something unresolved; `smoke` stands
/// in a file of its own.
fn small_graph() -> (Graph, DefId, DefId, DefId) {
    let mut g = Graph::default();
    let f = file(&mut g, "src/a.test.ts");
    let s = file(&mut g, "smoke/s.test.ts");
    let add = def(&mut g, "add", DefKind::Function, f);
    let t1 = def(&mut g, "t1", DefKind::TestCase, f);
    let t2 = def(&mut g, "t2", DefKind::TestCase, f);
    let smoke = def(&mut g, "smoke", DefKind::TestCase, s);
    g.add_edge(Edge::Calls {
        from: t1,
        to: CallTarget::Resolved(add),
    });
    g.add_edge(Edge::Calls {
        from: t2,
        to: CallTarget::Unknown("elsewhere".to_string()),
    });
    g.add_edge(Edge::Reads { from: t2, to: t1 });
    (g, add, t1, smoke)
}

fn smoke_config() -> Config {
    Config {
        always_run: vec!["smoke/**".to_string()],
        ..Config::default()
    }
}

fn body(def: DefId) -> Seed {
    Seed {
        def,
        kind: SeedKind::Body,
    }
}

#[test]
fn tests_and_edges_are_counted() {
    let (g, _, _, _) = small_graph();
    assert_eq!(count_tests(&g), 3);
    let counts = count_edges(&g);
    assert_eq!((counts.calls, counts.reads, counts.unresolved), (2, 1, 1));
}

#[test]
fn always_run_tests_join_the_impacted_ones() {
    let (g, add, t1, smoke) = small_graph();
    let ids = selected_test_defs(&g, &[body(add)], &smoke_config()).unwrap();
    assert_eq!(ids, vec![t1, DefId(2), smoke]);
    let none = selected_test_defs(&g, &[], &Config::default()).unwrap();
    assert!(none.is_empty());
    let only = selected_test_defs(&g, &[], &smoke_config()).unwrap();
    assert_eq!(only, vec![smoke]);
}

#[test]
fn a_bad_always_run_pattern_fails_the_selection() {
    let (g, add, _, _) = small_graph();
    let config = Config {
        always_run: vec!["{".to_string()],
        ..Config::default()
    };
    assert!(selected_test_defs(&g, &[body(add)], &config).is_err());
    assert!(why_candidates(&g, &[body(add)], &config).is_err());
}

#[test]
fn selected_tests_name_their_runner() {
    let (g, _, t1, _) = small_graph();
    let shown = selected_tests(&g, &vec![t1], &RepoFacts::new(None), &Config::default());
    assert_eq!(shown.len(), 1);
    assert_eq!(shown[0].file, "src/a.test.ts");
    assert_eq!(shown[0].name, vec!["t1"]);
    assert_eq!(shown[0].runner, "vitest");
    assert_eq!(shown[0].lang, "ts");
    assert!(!shown[0].computed);
    assert_eq!(
        test_line(&shown[0].file, &shown[0].name),
        "src/a.test.ts :: t1"
    );
}

#[test]
fn every_selected_test_is_explained() {
    let (g, add, t1, smoke) = small_graph();
    let found = why_candidates(&g, &[body(add)], &smoke_config()).unwrap();
    let ids: Vec<DefId> = found.iter().map(|(id, _)| *id).collect();
    assert_eq!(ids, vec![t1, DefId(2), smoke]);
    assert_eq!(found[0].1.path.len(), 1);
    assert_eq!(found[0].1.always_run_glob, None);
    assert!(found[2].1.path.is_empty());
    assert_eq!(found[2].1.always_run_glob.as_deref(), Some("smoke/**"));
    assert_eq!(found[2].1.match_str, "smoke/s.test.ts :: smoke");

    assert_eq!(why_matches(&found, "t1"), vec![0]);
    assert_eq!(why_matches(&found, "src/a.test.ts"), vec![0, 1]);
    assert!(why_matches(&found, "nothing like it").is_empty());
    assert_eq!(why_exit_code(1), 0);
    assert_eq!(why_exit_code(0), 1);
    assert_eq!(why_exit_code(2), 1);
    assert_eq!(
        why_text_lines(&g, &found[0].1),
        vec!["changed add (src/a.test.ts)", "  = test \"t1\" (src/a.test.ts)"]
    );
}

#[test]
fn a_walked_test_is_explained_by_its_path_even_if_it_always_runs() {
    let (g, _, _, smoke) = small_graph();
    let found = why_candidates(&g, &[body(smoke)], &smoke_config()).unwrap();
    assert_eq!(found.len(), 1);
    assert_eq!(found[0].1.always_run_glob, None);
}

#[test]
fn changes_are_listed_with_their_kind() {
    let (g, add, _, _) = small_graph();
    let selection = ChangeMode::Selection(vec![
        body(add),
        Seed {
            def: add,
            kind: SeedKind::Signature,
        },
    ]);
    assert_eq!(
        changes_lines(&g, &selection),
        vec![
            "src/a.test.ts :: add [body]",
            "src/a.test.ts :: add [signature]"
        ]
    );
    assert_eq!(exit_code(&selection), 0);
    let empty = ChangeMode::Selection(Vec::new());
    assert_eq!(changes_lines(&g, &empty), vec!["no impacted defs"]);
    assert_eq!(exit_code(&empty), 0);
    let all = ChangeMode::RunAll {
        reason: "config".to_string(),
    };
    assert_eq!(changes_lines(&g, &all), vec!["run all: config"]);
    assert_eq!(exit_code(&all), 2);
}

#[test]
fn seed_kinds_have_words() {
    assert_eq!(seed_kind_label(SeedKind::Body), "body");
    assert_eq!(seed_kind_label(SeedKind::Signature), "signature");
    assert_eq!(seed_kind_label(SeedKind::Added), "added");
    assert_eq!(seed_kind_label(SeedKind::ModuleInit), "module_init");
}

#[test]
fn the_footer_counts() {
    assert_eq!(
        footer_line(3, 120, 1, 10),
        "selected 3/120 tests (1 seeds, 10 changed files)"
    );
}

#[test]
fn the_format_follows_the_terminal_unless_asked_for() {
    assert_eq!(resolved_format(None, true), Format::Text);
    assert_eq!(resolved_format(None, false), Format::Json);
    assert_eq!(resolved_format(Some(Format::Args), true), Format::Args);
    assert_eq!(resolved_format(Some(Format::Json), true), Format::Json);
}
