use testless::classify::ChangeMode;
use testless::console::{
    checkout_failed, index_lines, listing_failed, run_all_lines, selection_lines, stats_lines,
    why_lines, Totals,
};
use testless::graph::{CallTarget, Def, DefId, DefKind, Edge, FileNode, Graph};
use testless::indexer::IndexStats;
use testless::render::SelectedTest;
use testless::report::{exit_code, Format, WhyCandidate};

fn reason_of(mode: &ChangeMode) -> &str {
    match mode {
        ChangeMode::RunAll { reason } => reason,
        other => panic!("expected RunAll, got {other:?}"),
    }
}

#[test]
fn bad_from_rev_degrades_to_run_all_exit_2() {
    let mode = listing_failed("git diff not-a-real-rev failed");
    assert_eq!(exit_code(&mode), 2);
    assert!(reason_of(&mode).contains("--from"));
    assert!(reason_of(&mode).contains("not-a-real-rev"));
}

#[test]
fn bad_to_rev_degrades_to_run_all_exit_2() {
    let mode = checkout_failed("git rev-parse --verify not-a-real-rev failed");
    assert_eq!(exit_code(&mode), 2);
    assert!(reason_of(&mode).contains("--to"));
    assert!(reason_of(&mode).contains("not-a-real-rev"));
}

/// A file with a function, a test that calls it, and a call of something else.
fn small_graph() -> Graph {
    let mut g = Graph::default();
    let file = g.add_file(FileNode {
        path: "src/math.test.ts".to_string(),
        hash: [0; 32],
        lang: "ts".to_string(),
    });
    let mut def = |name: &str, kind: DefKind| {
        g.add_def(Def {
            name: name.to_string(),
            kind,
            file,
            start_line: 1,
            end_line: 2,
            test_id: None,
            computed_name: false,
        })
    };
    let add = def("add", DefKind::Function);
    let test = def("adds", DefKind::TestCase);
    g.add_edge(Edge::Calls {
        from: test,
        to: CallTarget::Resolved(add),
    });
    g.add_edge(Edge::Calls {
        from: test,
        to: CallTarget::Unknown("log".to_string()),
    });
    g.add_edge(Edge::Reads {
        from: test,
        to: add,
    });
    g
}

#[test]
fn an_index_is_summed_up() {
    let stats = IndexStats {
        parsed: 1,
        reused: 0,
    };
    let printed = index_lines(&small_graph(), stats, 12);
    assert_eq!(
        printed.out,
        vec![
            "Indexed 1 files: 2 defs (1 tests)",
            "  parsed: 1  reused: 0  time: 12ms",
            "  calls: 2  reads: 1  unresolved: 1",
        ]
    );
    assert_eq!(printed.err, vec!["indexed 1 files (1 parsed, 0 reused) in 12ms"]);
}

#[test]
fn a_cache_is_summed_up() {
    assert_eq!(
        stats_lines(&small_graph(), "/repo/.testless", 640),
        vec![
            "Cache: /repo/.testless",
            "files: 1  defs: 2  tests: 1  edges: 3  size: 640 bytes",
            "calls: 2  reads: 1  unresolved: 1",
        ]
    );
}

#[test]
fn a_run_of_everything_prints_no_command() {
    let text = run_all_lines(Format::Text, "go.mod changed").unwrap();
    assert_eq!(text.out, vec!["run all: go.mod changed"]);
    assert!(text.err.is_empty());
    let args = run_all_lines(Format::Args, "go.mod changed").unwrap();
    assert!(args.out.is_empty());
    assert_eq!(args.err, vec!["run all: go.mod changed"]);
    assert_eq!(run_all_lines(Format::Json, "go.mod changed"), None);
}

#[test]
fn a_selection_prints_tests_or_commands() {
    let tests = vec![SelectedTest {
        file: "src/math.test.ts".to_string(),
        name: vec!["add".to_string(), "handles zero".to_string()],
        runner: "vitest".to_string(),
        lang: "ts".to_string(),
        computed: false,
    }];
    let totals = Totals {
        total_known: 5,
        seeds: 2,
        changed_files: 3,
    };
    let footer = vec!["selected 1/5 tests (2 seeds, 3 changed files)"];
    let text = selection_lines(Format::Text, &tests, totals).unwrap();
    assert_eq!(text.out, vec!["src/math.test.ts :: add > handles zero"]);
    assert_eq!(text.err, footer);
    let args = selection_lines(Format::Args, &tests, totals).unwrap();
    assert_eq!(
        args.out,
        vec!["vitest run src/math.test.ts -t 'add > handles zero'"]
    );
    assert_eq!(args.err, footer);
    assert!(selection_lines(Format::Json, &tests, totals).is_none());
}

#[test]
fn a_query_is_answered() {
    let candidate = |name: &str| {
        (
            DefId(1),
            WhyCandidate {
                file: "src/math.test.ts".to_string(),
                name: vec![name.to_string()],
                path: vec![],
                match_str: format!("src/math.test.ts :: {name}"),
                always_run_glob: None,
            },
        )
    };
    let g = small_graph();
    let all = vec![candidate("adds"), candidate("adds zero")];
    assert_eq!(
        why_lines(&g, &all, &vec![], "subtracts"),
        vec!["not selected: no impacted test matches \"subtracts\""]
    );
    assert_eq!(
        why_lines(&g, &all, &vec![1], "zero"),
        vec!["= test \"adds zero\" (src/math.test.ts)"]
    );
    assert_eq!(
        why_lines(&g, &all, &vec![0, 1], "adds"),
        vec![
            "ambiguous match for \"adds\", candidates:",
            "  src/math.test.ts :: adds",
            "  src/math.test.ts :: adds zero",
        ]
    );
}
