//! Indexing, change classification and selection together, on repositories
//! that are held in memory.

use testless::cache::CachedExtraction;
use testless::classify::{classify, ChangeMode, NewSource, OldSource, Seed, SeedKind, Sources};
use testless::config::{drop_ignored, Config};
use testless::discover::discover;
use testless::gitio::{ChangedFile, FileStatus};
use testless::graph::{CallTarget, DefId, DefKind, Edge, FileId, Graph};
use testless::indexer::{index_repo, index_repo_incremental, IndexStats, SourceFile};
use testless::language::{Registry, RepoFacts};
use testless::plugins::{registry, AnyLanguage};
use testless::render::{command_lines, SelectedTest};
use testless::report::{
    changes_lines, count_edges, count_tests, def_display, exit_code, footer_line, seed_kind_label,
    selected_test_defs, selected_tests, test_line, why_candidates, why_exit_code, why_matches,
    why_text_lines,
};
use testless::walk::HopKind;

/// The files of a repository, with their contents.
type Files = Vec<(String, String)>;

fn files(of: &[(&str, &str)]) -> Files {
    of.iter().map(|(p, s)| (p.to_string(), s.to_string())).collect()
}

/// `of` with the contents of the file at `path` replaced, or with a file more.
fn edited(of: &Files, path: &str, src: &str) -> Files {
    let mut out: Files = of.iter().filter(|(p, _)| p != path).cloned().collect();
    out.push((path.to_string(), src.to_string()));
    out
}

fn content<'a>(of: &'a Files, path: &str) -> Option<&'a String> {
    of.iter().find(|(p, _)| p == path).map(|(_, s)| s)
}

/// Every file and directory of the repository.
fn facts(of: &Files) -> RepoFacts {
    let mut repo = RepoFacts::new(content(of, "go.mod").cloned());
    for (path, _) in of {
        repo.note(path);
        for (i, _) in path.match_indices('/') {
            repo.note(&path[..i]);
        }
    }
    repo
}

fn sources(langs: &Registry<AnyLanguage>, config: &Config, of: &Files) -> Vec<SourceFile> {
    let found: Vec<String> = of.iter().map(|(p, _)| p.clone()).collect();
    discover(langs, config, &found)
        .unwrap()
        .into_iter()
        .map(|path| SourceFile {
            src: content(of, &path).unwrap().clone(),
            path,
        })
        .collect()
}

fn indexed(config: &Config, of: &Files) -> (Graph, Vec<CachedExtraction>, IndexStats) {
    let langs = registry();
    index_repo_incremental(&langs, &sources(&langs, config, of), &vec![], &facts(of)).unwrap()
}

fn graph_of(of: &Files) -> Graph {
    let langs = registry();
    index_repo(&langs, &sources(&langs, &Config::default(), of), &facts(of)).unwrap()
}

fn change(path: &str, status: FileStatus) -> ChangedFile {
    ChangedFile {
        path: path.to_string(),
        status,
    }
}

/// What changed from `before` to `after`.
fn changes(before: &Files, after: &Files) -> Vec<ChangedFile> {
    let mut out = vec![];
    for (path, src) in after {
        match content(before, path) {
            None => out.push(change(path, FileStatus::Added)),
            Some(old) if old != src => out.push(change(path, FileStatus::Modified)),
            Some(_) => {}
        }
    }
    for (path, _) in before {
        if content(after, path).is_none() {
            out.push(change(path, FileStatus::Deleted));
        }
    }
    out
}

/// What the changes from `before` to `after` select, with the graph of `after`.
fn outcome_with(
    config: &Config,
    before: &Files,
    after: &Files,
    changed: Vec<ChangedFile>,
) -> (Graph, ChangeMode) {
    let (graph, extractions, _) = indexed(config, after);
    let kept = drop_ignored(&changed, config).unwrap();
    let read: Vec<Sources> = kept
        .iter()
        .map(|c| Sources {
            old: match content(before, &c.path) {
                Some(s) => OldSource::Text(s.clone()),
                None => OldSource::Missing,
            },
            new: match content(after, &c.path) {
                Some(s) => NewSource::Text(s.clone()),
                None => NewSource::Unreadable("no such file".to_string()),
            },
        })
        .collect();
    let mode = classify(&graph, &registry(), &kept, &extractions, &read).unwrap();
    (graph, mode)
}

fn outcome(before: &Files, after: &Files) -> (Graph, ChangeMode) {
    outcome_with(&Config::default(), before, after, changes(before, after))
}

fn seeds_of(mode: &ChangeMode) -> Vec<Seed> {
    match mode {
        ChangeMode::Selection(seeds) => seeds.clone(),
        other => panic!("expected Selection, got {other:?}"),
    }
}

/// The seeds as (definition, kind).
fn labels(graph: &Graph, mode: &ChangeMode) -> Vec<(String, String)> {
    seeds_of(mode)
        .iter()
        .map(|s| (def_display(graph, s.def).0, seed_kind_label(s.kind)))
        .collect()
}

fn find_def(g: &Graph, name: &str) -> DefId {
    DefId(
        g.defs
            .iter()
            .position(|d| d.name == name)
            .unwrap_or_else(|| panic!("no def named {name:?}")) as u32,
    )
}

fn find_file(g: &Graph, suffix: &str) -> FileId {
    FileId(g.files.iter().position(|f| f.path.ends_with(suffix)).unwrap() as u32)
}

fn module_init(g: &Graph, suffix: &str) -> DefId {
    g.module_init(find_file(g, suffix)).expect("module_init present")
}

/// The tests that the changes select.
fn selection(after: &Files, graph: &Graph, mode: &ChangeMode) -> Vec<SelectedTest> {
    let config = Config::default();
    let ids = selected_test_defs(graph, &seeds_of(mode), &config).unwrap();
    selected_tests(graph, &ids, &facts(after), &config)
}

fn chain(of: &[&str]) -> Vec<String> {
    of.iter().map(|s| s.to_string()).collect()
}

const ADD_TS: &str = "export function add(a: number, b: number): number { return a + b; }\n";
const ADD_TS_EDITED: &str =
    "export function add(a: number, b: number): number { return a + b + 1; }\n";
const ADD_TS_COMMENTED: &str =
    "export function add(a: number, b: number): number { /* no-op */ return a + b; }\n";

#[test]
fn body_edit_seeds_exactly_that_defs_body() {
    let before = files(&[("src/math.ts", ADD_TS)]);
    let after = files(&[("src/math.ts", ADD_TS_EDITED)]);
    let (graph, mode) = outcome(&before, &after);
    assert_eq!(
        mode,
        ChangeMode::Selection(vec![Seed {
            def: find_def(&graph, "add"),
            kind: SeedKind::Body,
        }])
    );
}

#[test]
fn exported_arrow_const_body_edit_does_not_seed_module_init() {
    let before = files(&[(
        "src/math.ts",
        "export const mul = (a: number, b: number): number => a * b;\n",
    )]);
    let after = files(&[(
        "src/math.ts",
        "export const mul = (a: number, b: number): number => a + b;\n",
    )]);
    let (graph, mode) = outcome(&before, &after);
    let mul = find_def(&graph, "mul");
    let seeds = seeds_of(&mode);
    assert!(
        seeds.iter().any(|s| s.def == mul),
        "expected a seed for mul's own def, got {seeds:?}"
    );
    assert!(
        !seeds.iter().any(|s| s.kind == SeedKind::ModuleInit),
        "expected no ModuleInit seed, got {seeds:?}"
    );
}

#[test]
fn export_const_value_edit_seeds_module_init() {
    let before = files(&[("src/config.ts", "export const CONFIG = makeConfig(2);\n")]);
    let after = files(&[("src/config.ts", "export const CONFIG = makeConfig(1);\n")]);
    let (_, mode) = outcome(&before, &after);
    let seeds = seeds_of(&mode);
    assert!(
        !seeds.is_empty(),
        "expected a non-empty selection (module_init seed), got {seeds:?}"
    );
    assert!(
        seeds.iter().all(|s| s.kind == SeedKind::ModuleInit),
        "expected only ModuleInit seeds, got {seeds:?}"
    );
}

#[test]
fn comment_only_edit_yields_empty_selection() {
    let before = files(&[("src/math.ts", ADD_TS)]);
    let after = files(&[("src/math.ts", ADD_TS_COMMENTED)]);
    let (_, mode) = outcome(&before, &after);
    assert_eq!(mode, ChangeMode::Selection(vec![]));
}

#[test]
fn config_file_change_forces_run_all() {
    let after = files(&[("package.json", "{}\n"), ("src/math.ts", ADD_TS)]);
    let changed = vec![change("package.json", FileStatus::Modified)];
    let (_, mode) = outcome_with(&Config::default(), &vec![], &after, changed);
    assert!(
        matches!(mode, ChangeMode::RunAll { .. }),
        "expected RunAll, got {mode:?}"
    );
}

#[test]
fn added_test_file_seeds_test_cases_and_module_init_as_added() {
    let after = files(&[(
        "src/new.test.ts",
        "import { it } from \"vitest\";\nit(\"works\", () => {});\n",
    )]);
    let (graph, mode) = outcome(&vec![], &after);
    let test_case = graph
        .defs
        .iter()
        .position(|d| d.kind == DefKind::TestCase)
        .map(|i| DefId(i as u32))
        .expect("a TestCase def exists");
    let mut seeds = seeds_of(&mode);
    seeds.sort_by_key(|s| s.def.0);
    let mut expected = vec![
        Seed {
            def: test_case,
            kind: SeedKind::Added,
        },
        Seed {
            def: module_init(&graph, "new.test.ts"),
            kind: SeedKind::Added,
        },
    ];
    expected.sort_by_key(|s| s.def.0);
    assert_eq!(seeds, expected);
}

#[test]
fn deleted_source_file_with_importer_seeds_importer_module_init() {
    let after = files(&[(
        "src/consumer.ts",
        "import { helper } from \"./removed\";\nexport function useHelper(): unknown { return helper(); }\n",
    )]);
    let changed = vec![change("src/removed.ts", FileStatus::Deleted)];
    let (graph, mode) = outcome_with(&Config::default(), &vec![], &after, changed);
    assert_eq!(
        mode,
        ChangeMode::Selection(vec![Seed {
            def: module_init(&graph, "consumer.ts"),
            kind: SeedKind::ModuleInit,
        }])
    );
}

#[test]
fn deleted_source_file_with_no_importers_yields_empty_selection() {
    let after = files(&[("src/math.ts", ADD_TS)]);
    let changed = vec![change("src/removed.ts", FileStatus::Deleted)];
    let (_, mode) = outcome_with(&Config::default(), &vec![], &after, changed);
    assert_eq!(mode, ChangeMode::Selection(vec![]));
}

#[test]
fn unindexed_file_with_no_importers_yields_empty_selection() {
    let after = files(&[("src/math.ts", ADD_TS), ("README.md", "# hello\n")]);
    let changed = vec![change("README.md", FileStatus::Modified)];
    let (_, mode) = outcome_with(&Config::default(), &vec![], &after, changed);
    assert_eq!(mode, ChangeMode::Selection(vec![]));
}

#[test]
fn unresolved_json_import_seeds_importers_module_init() {
    let after = files(&[
        ("src/data.json", "{\"a\":1}\n"),
        (
            "src/consumer.ts",
            "import data from \"./data.json\";\nexport function useData(): unknown { return data; }\n",
        ),
    ]);
    let changed = vec![change("src/data.json", FileStatus::Modified)];
    let (graph, mode) = outcome_with(&Config::default(), &vec![], &after, changed);
    assert_eq!(
        mode,
        ChangeMode::Selection(vec![Seed {
            def: module_init(&graph, "consumer.ts"),
            kind: SeedKind::ModuleInit,
        }])
    );
}

#[test]
fn extensionless_import_matches_changed_file_by_stem() {
    let after = files(&[
        ("src/config.json", "{\"a\":1}\n"),
        (
            "src/consumer.ts",
            "import cfg from \"./config\";\nexport function useCfg(): unknown { return cfg; }\n",
        ),
    ]);
    let changed = vec![change("src/config.json", FileStatus::Modified)];
    let (graph, mode) = outcome_with(&Config::default(), &vec![], &after, changed);
    assert_eq!(
        mode,
        ChangeMode::Selection(vec![Seed {
            def: module_init(&graph, "consumer.ts"),
            kind: SeedKind::ModuleInit,
        }])
    );
}

#[test]
fn deleted_go_file_seeds_package_siblings_module_init() {
    let after = files(&[
        ("go.mod", "module example.com/m\n\ngo 1.22\n"),
        ("pkg/widget.go", "package pkg\n\nfunc Widget() int { return 1 }\n"),
        (
            "pkg/widget_test.go",
            "package pkg\n\nimport \"testing\"\n\nfunc TestWidget(t *testing.T) {\n\tif Widget() != 1 {\n\t\tt.Fail()\n\t}\n}\n",
        ),
    ]);
    let changed = vec![change("pkg/helper.go", FileStatus::Deleted)];
    let (graph, mode) = outcome_with(&Config::default(), &vec![], &after, changed);
    let seeds = seeds_of(&mode);
    assert!(!seeds.is_empty(), "expected a non-empty selection");
    let test_module_init = module_init(&graph, "widget_test.go");
    assert!(
        seeds.iter().any(|s| s.def == test_module_init),
        "expected the package test file's ModuleInit seeded, got {seeds:?}"
    );
}

#[test]
fn body_edit_yields_selection_seed_json() {
    let before = files(&[("src/math.ts", ADD_TS)]);
    let after = files(&[("src/math.ts", ADD_TS_EDITED)]);
    let (graph, mode) = outcome(&before, &after);
    assert_eq!(exit_code(&mode), 0);
    let seeds = labels(&graph, &mode);
    assert!(
        seeds.contains(&("add".to_string(), "body".to_string())),
        "expected an add/body seed, got {seeds:?}"
    );
}

#[test]
fn comment_only_edit_yields_empty_seeds() {
    let before = files(&[("src/math.ts", ADD_TS)]);
    let after = files(&[("src/math.ts", ADD_TS_COMMENTED)]);
    let (graph, mode) = outcome(&before, &after);
    assert_eq!(exit_code(&mode), 0);
    assert_eq!(labels(&graph, &mode).len(), 0);
}

#[test]
fn changes_config_file_edit_forces_run_all_exit_2() {
    let before = files(&[("src/math.ts", ADD_TS)]);
    let after = edited(&before, "package.json", "{}\n");
    let (graph, mode) = outcome(&before, &after);
    assert_eq!(exit_code(&mode), 2);
    match &mode {
        ChangeMode::RunAll { reason } => assert!(reason.contains("package.json")),
        other => panic!("expected RunAll, got {other:?}"),
    }
    assert!(changes_lines(&graph, &mode).concat().contains("package.json"));
}

#[test]
fn to_flag_reports_seed_for_rev_range() {
    // The two sides of the range are the contents at the two revisions.
    let c1 = files(&[("src/math.ts", ADD_TS)]);
    let c2 = edited(&c1, "src/math.ts", ADD_TS_EDITED);
    let (graph, mode) = outcome(&c1, &c2);
    assert_eq!(exit_code(&mode), 0);
    let seeds = labels(&graph, &mode);
    assert!(
        seeds.contains(&("add".to_string(), "body".to_string())),
        "expected an add/body seed, got {seeds:?}"
    );
}

#[test]
fn ignored_file_change_yields_empty_selection_not_run_all() {
    let config = Config {
        ignore: vec!["**/generated/**".to_string()],
        ..Config::default()
    };
    let before = files(&[("src/generated/api.ts", "export const x = 1;\n")]);
    let after = files(&[("src/generated/api.ts", "export const x = 2;\n")]);
    let (graph, mode) = outcome_with(&config, &before, &after, changes(&before, &after));
    assert_eq!(exit_code(&mode), 0);
    assert_eq!(labels(&graph, &mode).len(), 0);
}

#[test]
fn go_body_edit_yields_selection_seed_json() {
    let before = files(&[
        ("go.mod", "module example.com/go-app\n\ngo 1.22\n"),
        (
            "calc/calc.go",
            "package calc\n\nfunc Add(a, b int) int { return a + b }\n",
        ),
        (
            "calc/calc_test.go",
            "package calc\n\nimport \"testing\"\n\nfunc TestAdd(t *testing.T) {\n\tif Add(1, 2) != 3 {\n\t\tt.Fail()\n\t}\n}\n",
        ),
    ]);
    let after = edited(
        &before,
        "calc/calc.go",
        "package calc\n\nfunc Add(a, b int) int { return a + b + 1 }\n",
    );
    let (graph, mode) = outcome(&before, &after);
    assert_eq!(exit_code(&mode), 0);
    let seeds = labels(&graph, &mode);
    assert!(
        seeds.contains(&("Add".to_string(), "body".to_string())),
        "expected an Add/body seed, got {seeds:?}"
    );
}

#[test]
fn rust_comment_only_edit_yields_empty_seeds() {
    let before = files(&[
        ("src/lib.rs", "pub mod math;\n"),
        (
            "src/math.rs",
            "pub fn add(a: i64, b: i64) -> i64 { a + b }\n\n#[cfg(test)]\nmod tests {\n    use super::*;\n\n    #[test]\n    fn add_works() { assert_eq!(add(2, 2), 4); }\n}\n",
        ),
    ]);
    let after = edited(
        &before,
        "src/math.rs",
        "// adds two numbers\npub fn add(a: i64, b: i64) -> i64 { a + b }\n\n#[cfg(test)]\nmod tests {\n    use super::*;\n\n    #[test]\n    fn add_works() { assert_eq!(add(2, 2), 4); }\n}\n",
    );
    let (graph, mode) = outcome(&before, &after);
    assert_eq!(exit_code(&mode), 0);
    assert_eq!(labels(&graph, &mode).len(), 0);
}

/// A TypeScript repository with tests.
fn ts_app() -> Files {
    files(&[
        ("package.json", "{ \"name\": \"ts-app\" }\n"),
        (
            "src/math.ts",
            "export function add(a: number, b: number): number { return a + b; }\nconsole.log(\"side effect at import\");\n",
        ),
        ("src/format.ts", FORMAT_TS),
        (
            "src/math.test.ts",
            "import { describe, it, expect } from \"vitest\";\nimport { add } from \"./math\";\ndescribe(\"add\", () => {\n  it(\"handles negatives\", () => { expect(add(-1, -2)).toBe(-3); });\n});\n",
        ),
        ("src/format.test.ts", FORMAT_TEST_TS),
    ])
}

/// A Go repository with two packages.
fn go_app() -> Files {
    files(&[
        ("go.mod", GO_MOD),
        (
            "calc/calc.go",
            "package calc\n\nfunc Add(a, b int) int { return a + b }\n\ntype Calc struct{ Total int }\n\nfunc (c *Calc) Push(n int) { c.Total = Add(c.Total, n) }\n",
        ),
        ("fmt2/fmt2.go", FMT2_GO),
    ])
}

/// A Rust crate with two modules.
fn rust_app() -> Files {
    files(&[
        ("src/lib.rs", "pub mod math;\npub mod fmt;\n"),
        (
            "src/math.rs",
            "pub fn add(a: i64, b: i64) -> i64 { a + b }\n\npub struct Calc { pub total: i64 }\n\nimpl Calc {\n    pub fn push(&mut self, n: i64) { self.total = add(self.total, n); }\n}\n\n#[cfg(test)]\nmod tests {\n    use super::*;\n\n    #[test]\n    fn add_works() { assert_eq!(add(2, 2), 4); }\n}\n",
        ),
        (
            "src/fmt.rs",
            "use crate::math::add;\n\npub fn fmt(a: i64, b: i64) -> String { format!(\"{}\", add(a, b)) }\n",
        ),
    ])
}

#[test]
fn indexes_both_fixture_apps() {
    let g = graph_of(&ts_app());
    assert!(g
        .defs
        .iter()
        .any(|d| d.name == "add" && d.kind == DefKind::Function));
    assert!(g.defs.iter().any(|d| d.kind == DefKind::TestCase));
    // format.ts imports math.ts
    assert!(g.edges.contains(&Edge::Imports {
        from: find_file(&g, "format.ts"),
        to: find_file(&g, "math.ts")
    }));

    let g = graph_of(&go_app());
    assert!(g.defs.iter().any(|d| d.name == "Calc.Push"));
    assert!(g.edges.contains(&Edge::Imports {
        from: find_file(&g, "fmt2.go"),
        to: find_file(&g, "calc.go")
    }));
}

#[test]
fn indexes_rust_fixture() {
    let g = graph_of(&rust_app());
    assert!(g.defs.iter().any(|d| d.name == "Calc.push"));
    assert!(g.defs.iter().any(|d| d.kind == DefKind::TestCase));
    assert!(g.edges.contains(&Edge::Imports {
        from: find_file(&g, "fmt.rs"),
        to: find_file(&g, "math.rs")
    }));
}

#[test]
fn dedups_repeated_imports_of_the_same_target() {
    let g = graph_of(&files(&[
        (
            "src/main.ts",
            "import { a } from \"./m\";\nimport type { B } from \"./m\";\nexport function use(x: B): number { return a(x); }\n",
        ),
        (
            "src/m.ts",
            "export function a(_x: unknown): number { return 0; }\nexport interface B {}\n",
        ),
    ]));
    let main = find_file(&g, "main.ts");
    let m = find_file(&g, "m.ts");
    let import_edges = g
        .edges
        .iter()
        .filter(|e| **e == Edge::Imports { from: main, to: m })
        .count();
    assert_eq!(import_edges, 1);
}

#[test]
fn incremental_reindex_reuses_unchanged_files_and_reparses_only_the_changed_one() {
    let config = Config::default();
    let app = ts_app();
    let (graph, extractions, stats) = indexed(&config, &app);
    assert_eq!(stats.parsed, graph.files.len());
    assert_eq!(stats.reused, 0);

    // One function more in math.ts; every other file is untouched.
    let mut src = content(&app, "src/math.ts").unwrap().clone();
    src.push_str("\nexport function sub(a: number, b: number): number { return a - b; }\n");
    let app = edited(&app, "src/math.ts", &src);
    let langs = registry();
    let (graph2, _, stats2) = index_repo_incremental(
        &langs,
        &sources(&langs, &config, &app),
        &extractions,
        &facts(&app),
    )
    .unwrap();

    // Only math.ts changed, so only it should have been re-parsed.
    assert_eq!(stats2.parsed, 1);
    assert_eq!(stats2.reused, graph2.files.len() - 1);

    // The new function's definition is there.
    assert!(graph2
        .defs
        .iter()
        .any(|d| d.name == "sub" && d.kind == DefKind::Function));
    // So is the one that math.ts had before.
    assert!(graph2
        .defs
        .iter()
        .any(|d| d.name == "add" && d.kind == DefKind::Function));
    // So are those of the files that were not touched.
    assert!(graph2.defs.iter().any(|d| d.kind == DefKind::TestCase));
}

#[test]
fn index_twice_reuses_cache() {
    let config = Config::default();
    let app = ts_app();
    let (_, extractions, first) = indexed(&config, &app);
    assert!(first.parsed > 0);
    let langs = registry();
    let (_, _, second) = index_repo_incremental(
        &langs,
        &sources(&langs, &config, &app),
        &extractions,
        &facts(&app),
    )
    .unwrap();
    assert_eq!(second.parsed, 0);
}

#[test]
fn resolves_cross_file_call_edges_ts() {
    let g = graph_of(&ts_app());
    let fmt = find_def(&g, "fmt");
    let add = find_def(&g, "add");
    assert!(g.edges.contains(&Edge::Calls {
        from: fmt,
        to: CallTarget::Resolved(add)
    }));
    // test → add edge too
    let neg = g
        .defs
        .iter()
        .position(|d| d.test_id.as_deref() == Some(&["add".into(), "handles negatives".into()][..]))
        .map(|i| DefId(i as u32))
        .unwrap();
    assert!(g.edges.contains(&Edge::Calls {
        from: neg,
        to: CallTarget::Resolved(add)
    }));
}

#[test]
fn resolves_cross_package_go_and_cross_module_rust() {
    let g = graph_of(&go_app());
    let f = find_def(&g, "Fmt");
    let add = find_def(&g, "Add");
    assert!(g.edges.contains(&Edge::Calls {
        from: f,
        to: CallTarget::Resolved(add)
    }));

    let g = graph_of(&rust_app());
    let f = find_def(&g, "fmt");
    let add = find_def(&g, "add");
    assert!(g.edges.contains(&Edge::Calls {
        from: f,
        to: CallTarget::Resolved(add)
    }));
}

#[test]
fn unresolved_calls_become_unknown_markers() {
    // console.log(...) at top level → callee `log`, qualifier `console` unresolvable
    let g = graph_of(&ts_app());
    assert!(g
        .edges
        .iter()
        .any(|e| matches!(e, Edge::Calls { to: CallTarget::Unknown(n), .. } if n == "log")));
}

#[test]
fn self_only_candidate_recursion_still_widens_to_unknown() {
    let g = graph_of(&files(&[(
        "src/solo.ts",
        "export function solo(n: number): number { return n <= 1 ? 1 : solo(n - 1); }\n",
    )]));
    let solo = find_def(&g, "solo");
    assert!(g.edges.contains(&Edge::Calls {
        from: solo,
        to: CallTarget::Unknown("solo".to_string())
    }));
}

#[test]
fn index_then_stats_json() {
    let g = graph_of(&ts_app());
    let counts = count_edges(&g);
    assert_eq!(count_tests(&g), 2);
    assert!(counts.calls > counts.unresolved);
    assert!(counts.unresolved > 0);
    assert!(g.defs.len() > count_tests(&g));
}

const MATH_TS: &str = "\
export function add(a: number, b: number): number { return a + b; }
export function unrelatedHelper(x: number): number { return x * 2; }
";

const MATH_TS_BODY_EDITED: &str = "\
export function add(a: number, b: number): number { return a + b + 1; }
export function unrelatedHelper(x: number): number { return x * 2; }
";

const MATH_TS_COMMENT_EDITED: &str = "\
export function add(a: number, b: number): number { /* no-op */ return a + b; }
export function unrelatedHelper(x: number): number { return x * 2; }
";

const FORMAT_TS: &str = "\
import { add } from \"./math\";
export function fmt(a: number, b: number): string { return `${add(a, b)}`; }
";

const MATH_TEST_TS: &str = "\
import { describe, it, expect } from \"vitest\";
import { add, unrelatedHelper } from \"./math\";

describe(\"add\", () => {
  it(\"handles negatives\", () => { expect(add(-1, -2)).toBe(-3); });
  it(\"handles zero\", () => { expect(add(0, 5)).toBe(5); });
});

describe(\"unrelatedHelper\", () => {
  it(\"doubles\", () => { expect(unrelatedHelper(2)).toBe(4); });
});
";

const FORMAT_TEST_TS: &str = "\
import { it, expect } from \"vitest\";
import { fmt } from \"./format\";
it(\"formats\", () => { expect(fmt(1, 2)).toBe(\"3\"); });
";

const UNRELATED_TEST_TS: &str = "\
import { it, expect } from \"vitest\";
it(\"stands alone\", () => { expect(1 + 1).toBe(2); });
";

fn select_repo() -> Files {
    files(&[
        ("package.json", "{ \"name\": \"select-fixture\" }\n"),
        ("src/math.ts", MATH_TS),
        ("src/format.ts", FORMAT_TS),
        ("src/math.test.ts", MATH_TEST_TS),
        ("src/format.test.ts", FORMAT_TEST_TS),
        ("src/unrelated.test.ts", UNRELATED_TEST_TS),
    ])
}

#[test]
fn add_body_edit_selects_add_and_formats_tests_excludes_unrelated() {
    let before = select_repo();
    let after = edited(&before, "src/math.ts", MATH_TS_BODY_EDITED);
    let (graph, mode) = outcome(&before, &after);
    assert_eq!(exit_code(&mode), 0);
    let tests = selection(&after, &graph, &mode);
    let names: Vec<Vec<String>> = tests.iter().map(|t| t.name.clone()).collect();

    assert!(
        names.contains(&chain(&["add", "handles negatives"])),
        "expected add/handles negatives in {names:?}"
    );
    assert!(
        names.contains(&chain(&["add", "handles zero"])),
        "expected add/handles zero in {names:?}"
    );
    assert!(
        names.contains(&chain(&["formats"])),
        "expected formats in {names:?}"
    );
    assert!(
        !names.iter().any(|n| n[0] == "unrelatedHelper"),
        "unrelatedHelper's test must NOT be selected, got {names:?}"
    );
    assert!(
        !names.iter().any(|n| n[0] == "stands alone"),
        "unrelated.test.ts's test must NOT be selected, got {names:?}"
    );
    assert_eq!(tests.len(), 3, "expected exactly 3 selected tests, got {tests:?}");
    for t in &tests {
        assert_eq!(t.runner, "vitest");
        assert_eq!(t.lang, "ts");
        assert!(t.file.ends_with(".test.ts"));
    }
    assert_eq!(count_tests(&graph), 5);
    assert_eq!(seeds_of(&mode).len(), 1);
    assert_eq!(changes(&before, &after).len(), 1);
}

#[test]
fn comment_only_edit_yields_empty_tests() {
    let before = select_repo();
    let after = edited(&before, "src/math.ts", MATH_TS_COMMENT_EDITED);
    let (graph, mode) = outcome(&before, &after);
    assert_eq!(exit_code(&mode), 0);
    assert_eq!(selection(&after, &graph, &mode).len(), 0);
    assert_eq!(seeds_of(&mode).len(), 0);
    assert_eq!(count_tests(&graph), 5);
}

#[test]
fn select_config_file_edit_forces_run_all_exit_2() {
    let before = select_repo();
    let after = edited(&before, "package.json", "{}\n");
    let (_, mode) = outcome(&before, &after);
    assert_eq!(exit_code(&mode), 2);
    match mode {
        ChangeMode::RunAll { reason } => assert!(reason.contains("package.json")),
        other => panic!("expected RunAll, got {other:?}"),
    }
}

#[test]
fn text_format_prints_file_and_name_lines() {
    let before = select_repo();
    let after = edited(&before, "src/math.ts", MATH_TS_BODY_EDITED);
    let (graph, mode) = outcome(&before, &after);
    let tests = selection(&after, &graph, &mode);
    let out: Vec<String> = tests.iter().map(|t| test_line(&t.file, &t.name)).collect();
    assert!(
        out.contains(&"src/math.test.ts :: add > handles negatives".to_string()),
        "got: {out:?}"
    );
    assert!(
        out.contains(&"src/format.test.ts :: formats".to_string()),
        "got: {out:?}"
    );
    let footer = footer_line(tests.len(), count_tests(&graph), seeds_of(&mode).len(), 1);
    assert!(footer.contains("3"), "expected a summary footer, got {footer:?}");
}

#[test]
fn args_format_prints_vitest_run_lines() {
    let before = select_repo();
    let after = edited(&before, "src/math.ts", MATH_TS_BODY_EDITED);
    let (graph, mode) = outcome(&before, &after);
    let lines = command_lines(&selection(&after, &graph, &mode));
    assert!(
        lines.iter().all(|l| l.starts_with("vitest run")),
        "expected only `vitest run` lines, got {lines:?}"
    );
    assert!(
        lines
            .iter()
            .any(|l| l.contains("math.test.ts") && l.contains("-t 'add > handles negatives'")),
        "got: {lines:?}"
    );
    assert!(
        lines
            .iter()
            .any(|l| l.contains("format.test.ts") && l.contains("-t formats")),
        "got: {lines:?}"
    );
    assert_eq!(lines.len(), 3, "expected exactly 3 command lines, got {lines:?}");
}

const GO_MOD: &str = "module example.com/go-app\n\ngo 1.22\n";

const CALC_GO: &str = "\
package calc

func Add(a, b int) int { return a + b }

func Unrelated(x int) int { return x * 2 }
";

const CALC_GO_BODY_EDITED: &str = "\
package calc

func Add(a, b int) int { return a + b + 1 }

func Unrelated(x int) int { return x * 2 }
";

const CALC_TEST_GO: &str = "\
package calc

import \"testing\"

func TestAdd(t *testing.T) {
	t.Run(\"negatives\", func(t *testing.T) {
		if Add(-1, -2) != -3 {
			t.Fail()
		}
	})
	t.Run(\"zero\", func(t *testing.T) {
		if Add(0, 5) != 5 {
			t.Fail()
		}
	})
}

func TestUnrelated(t *testing.T) {
	if Unrelated(2) != 4 {
		t.Fail()
	}
}
";

const FMT2_GO: &str = "\
package fmt2

import (
	\"fmt\"

	\"example.com/go-app/calc\"
)

func Fmt(a, b int) string { return fmt.Sprintf(\"%d\", calc.Add(a, b)) }
";

const FMT2_TEST_GO: &str = "\
package fmt2

import \"testing\"

func TestFmt(t *testing.T) {
	if Fmt(1, 2) != \"3\" {
		t.Fail()
	}
}
";

const THIRD_GO: &str = "\
package third

func Solo(x int) int { return x + 1 }
";

const THIRD_TEST_GO: &str = "\
package third

import \"testing\"

func TestSolo(t *testing.T) {
	if Solo(1) != 2 {
		t.Fail()
	}
}
";

#[test]
fn go_add_body_edit_selects_add_and_fmt_tests_excludes_others() {
    let before = files(&[
        ("go.mod", GO_MOD),
        ("calc/calc.go", CALC_GO),
        ("calc/calc_test.go", CALC_TEST_GO),
        ("fmt2/fmt2.go", FMT2_GO),
        ("fmt2/fmt2_test.go", FMT2_TEST_GO),
        ("third/third.go", THIRD_GO),
        ("third/third_test.go", THIRD_TEST_GO),
    ]);
    let after = edited(&before, "calc/calc.go", CALC_GO_BODY_EDITED);
    let (graph, mode) = outcome(&before, &after);
    assert_eq!(exit_code(&mode), 0);
    let tests = selection(&after, &graph, &mode);
    let names: Vec<Vec<String>> = tests.iter().map(|t| t.name.clone()).collect();

    // A subtest stands within its test function, so the function comes along.
    assert!(
        names.contains(&chain(&["TestAdd"])),
        "expected bare TestAdd (parent of the impacted subtests) in {names:?}"
    );
    assert!(
        names.contains(&chain(&["TestAdd", "negatives"])),
        "expected TestAdd/negatives in {names:?}"
    );
    assert!(
        names.contains(&chain(&["TestAdd", "zero"])),
        "expected TestAdd/zero in {names:?}"
    );
    assert!(
        names.contains(&chain(&["TestFmt"])),
        "expected TestFmt in {names:?}"
    );
    assert!(
        !names.iter().any(|n| n[0] == "TestUnrelated"),
        "TestUnrelated must NOT be selected, got {names:?}"
    );
    assert!(
        !names.iter().any(|n| n[0] == "TestSolo"),
        "third's TestSolo must NOT be selected, got {names:?}"
    );
    assert_eq!(tests.len(), 4, "expected exactly 4 selected tests, got {tests:?}");
    for t in &tests {
        assert_eq!(t.runner, "gotest");
        assert_eq!(t.lang, "go");
    }
    let lines = command_lines(&tests);
    assert!(
        lines
            .iter()
            .any(|l| l.starts_with("go test ./calc") && l.contains("-run '^TestAdd$")),
        "expected a go test line for calc's TestAdd, got {lines:?}"
    );
}

const RUST_CARGO_TOML: &str = "\
[package]
name = \"select-rust-fixture\"
version = \"0.1.0\"
edition = \"2021\"

[workspace]
";

const RUST_LIB_RS: &str = "\
mod math;
mod fmt;
mod extra;
";

const RUST_MATH_RS: &str = "\
pub fn add(a: i64, b: i64) -> i64 { a + b }

#[cfg(test)]
mod tests {
    use super::*;

    #[test]
    fn add_works() { assert_eq!(add(2, 2), 4); }
}
";

const RUST_MATH_RS_BODY_EDITED: &str = "\
pub fn add(a: i64, b: i64) -> i64 { a + b + 1 }

#[cfg(test)]
mod tests {
    use super::*;

    #[test]
    fn add_works() { assert_eq!(add(2, 2), 4); }
}
";

const RUST_MATH_RS_COMMENT_EDITED: &str = "\
pub fn add(a: i64, b: i64) -> i64 { /* no-op */ a + b }

#[cfg(test)]
mod tests {
    use super::*;

    #[test]
    fn add_works() { assert_eq!(add(2, 2), 4); }
}
";

const RUST_FMT_RS: &str = "\
pub fn fmt(a: i64, b: i64) -> String { format!(\"{}\", crate::math::add(a, b)) }

#[cfg(test)]
mod tests {
    #[test]
    fn fmt_works() { assert_eq!(crate::fmt::fmt(1, 2), \"3\"); }
}
";

const RUST_EXTRA_RS: &str = "\
pub fn extra_fn(x: i64) -> i64 { x + 100 }

#[cfg(test)]
mod tests {
    use super::*;

    #[test]
    fn extra_works() { assert_eq!(extra_fn(1), 101); }
}
";

fn rust_repo() -> Files {
    files(&[
        ("Cargo.toml", RUST_CARGO_TOML),
        ("src/lib.rs", RUST_LIB_RS),
        ("src/math.rs", RUST_MATH_RS),
        ("src/fmt.rs", RUST_FMT_RS),
        ("src/extra.rs", RUST_EXTRA_RS),
    ])
}

#[test]
fn rust_add_body_edit_selects_math_and_fmt_tests_excludes_extra() {
    let before = rust_repo();
    let after = edited(&before, "src/math.rs", RUST_MATH_RS_BODY_EDITED);
    let (graph, mode) = outcome(&before, &after);
    assert_eq!(exit_code(&mode), 0);
    let tests = selection(&after, &graph, &mode);
    let names: Vec<Vec<String>> = tests.iter().map(|t| t.name.clone()).collect();
    assert!(
        names.contains(&chain(&["tests", "add_works"])),
        "expected tests::add_works in {names:?}"
    );
    assert!(
        names.contains(&chain(&["tests", "fmt_works"])),
        "expected tests::fmt_works in {names:?}"
    );
    assert!(
        !names.iter().any(|n| n.last().unwrap() == "extra_works"),
        "extra's test must NOT be selected, got {names:?}"
    );
    assert_eq!(tests.len(), 2, "expected exactly 2 selected tests, got {tests:?}");
    for t in &tests {
        assert_eq!(t.runner, "cargo");
        assert_eq!(t.lang, "rust");
    }
}

#[test]
fn rust_comment_only_edit_yields_empty_tests() {
    let before = rust_repo();
    let after = edited(&before, "src/math.rs", RUST_MATH_RS_COMMENT_EDITED);
    let (graph, mode) = outcome(&before, &after);
    assert_eq!(exit_code(&mode), 0);
    assert_eq!(selection(&after, &graph, &mode).len(), 0);
    assert_eq!(seeds_of(&mode).len(), 0);
}

const SIDE_TS: &str = "\
export const value = 1;
console.log(\"side effect\");
";

const SIDE_TS_EDITED: &str = "\
export const value = 1;
console.log(\"side effect v2\");
";

const MID_TS: &str = "\
import { value } from \"./side\";
export const midValue = value + 1;
";

const TOP_TS: &str = "\
import { midValue } from \"./mid\";
export const topValue = midValue + 1;
";

const SIDE_TEST_TS: &str = "\
import { it, expect } from \"vitest\";
import { value } from \"./side\";
it(\"side value\", () => { expect(value).toBe(1); });
";

const MID_TEST_TS: &str = "\
import { it, expect } from \"vitest\";
import { midValue } from \"./mid\";
it(\"mid value\", () => { expect(midValue).toBe(2); });
";

const TOP_TEST_TS: &str = "\
import { it, expect } from \"vitest\";
import { topValue } from \"./top\";
it(\"top value\", () => { expect(topValue).toBe(3); });
";

const MODULE_INIT_UNRELATED_TEST_TS: &str = "\
import { it, expect } from \"vitest\";
it(\"stands fully alone\", () => { expect(1 + 1).toBe(2); });
";

#[test]
fn module_init_edit_selects_all_transitive_importer_tests() {
    let before = files(&[
        ("package.json", "{ \"name\": \"module-init-fixture\" }\n"),
        ("src/side.ts", SIDE_TS),
        ("src/mid.ts", MID_TS),
        ("src/top.ts", TOP_TS),
        ("src/side.test.ts", SIDE_TEST_TS),
        ("src/mid.test.ts", MID_TEST_TS),
        ("src/top.test.ts", TOP_TEST_TS),
        ("src/unrelated.test.ts", MODULE_INIT_UNRELATED_TEST_TS),
    ]);
    let after = edited(&before, "src/side.ts", SIDE_TS_EDITED);
    let (graph, mode) = outcome(&before, &after);
    assert_eq!(exit_code(&mode), 0);
    let tests = selection(&after, &graph, &mode);
    let selected: Vec<&str> = tests.iter().map(|t| t.file.as_str()).collect();
    for expected in ["src/side.test.ts", "src/mid.test.ts", "src/top.test.ts"] {
        assert!(
            selected.contains(&expected),
            "expected {expected} in selected files {selected:?}"
        );
    }
    assert!(
        !selected.contains(&"src/unrelated.test.ts"),
        "unrelated.test.ts must NOT be selected, got {selected:?}"
    );
    assert_eq!(tests.len(), 3, "expected exactly 3 selected tests, got {tests:?}");
}

fn why_repo() -> Files {
    files(&[
        ("package.json", "{ \"name\": \"why-fixture\" }\n"),
        ("src/math.ts", ADD_TS),
        ("src/format.ts", FORMAT_TS),
        (
            "src/math.test.ts",
            "import { describe, it, expect } from \"vitest\";\nimport { add } from \"./math\";\n\ndescribe(\"add\", () => {\n  it(\"handles negatives\", () => { expect(add(-1, -2)).toBe(-3); });\n});\n",
        ),
        (
            "src/format.test.ts",
            "import { it, expect } from \"vitest\";\nimport { fmt } from \"./format\";\nit(\"formats a sum\", () => { expect(fmt(1, 2)).toBe(\"3\"); });\n",
        ),
    ])
}

#[test]
fn why_explains_path_to_selected_test() {
    let before = why_repo();
    let after = edited(&before, "src/math.ts", ADD_TS_EDITED);
    let (graph, mode) = outcome(&before, &after);
    let all = why_candidates(&graph, &seeds_of(&mode), &Config::default()).unwrap();
    let found = why_matches(&all, "formats");
    assert_eq!(found.len(), 1);
    assert_eq!(why_exit_code(found.len()), 0);
    let out = why_text_lines(&graph, &all[found[0]].1).join("\n");
    assert!(out.contains("add"), "expected the changed def in {out:?}");
    assert!(
        out.contains("formats a sum"),
        "expected the matched test's name in {out:?}"
    );
    assert!(
        out.contains("src/math.ts"),
        "expected the changed def's file in {out:?}"
    );
    assert!(
        out.contains("src/format.test.ts"),
        "expected the matched test's file in {out:?}"
    );
}

#[test]
fn why_nonexistent_test_exits_1() {
    let before = why_repo();
    let after = edited(&before, "src/math.ts", ADD_TS_EDITED);
    let (graph, mode) = outcome(&before, &after);
    let all = why_candidates(&graph, &seeds_of(&mode), &Config::default()).unwrap();
    let found = why_matches(&all, "nonexistent");
    assert_eq!(why_exit_code(found.len()), 1);
}

#[test]
fn why_json_output_when_piped() {
    let before = why_repo();
    let after = edited(&before, "src/math.ts", ADD_TS_EDITED);
    let (graph, mode) = outcome(&before, &after);
    let all = why_candidates(&graph, &seeds_of(&mode), &Config::default()).unwrap();
    let found = why_matches(&all, "formats");
    let c = &all[found[0]].1;
    assert_eq!(c.name[0], "formats a sum");
    assert_eq!(c.file, "src/format.test.ts");
    assert!(!c.path.is_empty(), "expected a non-empty hop path");
    let on_path: Vec<String> = c
        .path
        .iter()
        .flat_map(|h| [h.from, h.to])
        .map(|d| def_display(&graph, d).0)
        .collect();
    assert!(
        on_path.contains(&"add".to_string()),
        "expected the changed def somewhere in the path: {on_path:?}"
    );
    assert!(
        on_path.contains(&"fmt".to_string()),
        "expected the intermediate caller somewhere in the path: {on_path:?}"
    );
    assert!(c.path.iter().all(|h| matches!(h.edge, HopKind::Calls)));
}

#[test]
fn why_config_file_edit_forces_run_all_exit_2() {
    let before = why_repo();
    let after = edited(&before, "package.json", "{}\n");
    let (_, mode) = outcome(&before, &after);
    assert_eq!(exit_code(&mode), 2);
}

#[test]
fn a_changed_callee_selects_the_test_that_calls_it() {
    let before = files(&[
        ("src/math.ts", ADD_TS),
        (
            "src/math.test.ts",
            "import { add } from \"./math\";\nit(\"adds\", () => { add(1, 2); });\nit(\"rests\", () => {});\n",
        ),
    ]);
    let after = edited(&before, "src/math.ts", ADD_TS_EDITED);
    let (graph, mode) = outcome(&before, &after);
    let tests = selection(&after, &graph, &mode);
    assert_eq!(tests.len(), 1, "{tests:?}");
    assert_eq!(tests[0].name, chain(&["adds"]));
}

#[test]
fn a_changed_definition_out_of_sight_selects_an_unresolved_caller() {
    let before = files(&[
        ("src/math.ts", ADD_TS),
        ("src/blind.test.ts", "it(\"adds\", () => { add(1, 2); });\n"),
    ]);
    let after = edited(&before, "src/math.ts", ADD_TS_EDITED);
    let (graph, mode) = outcome(&before, &after);
    let tests = selection(&after, &graph, &mode);
    assert_eq!(tests.len(), 1, "{tests:?}");
    assert_eq!(tests[0].file, "src/blind.test.ts");
}

fn stale(new: &str, old: OldSource) -> Option<ChangeMode> {
    let indexed_as = files(&[("a.go", "package p\n\nfunc A() {}\n")]);
    let (graph, extractions, _) = indexed(&Config::default(), &indexed_as);
    classify(
        &graph,
        &registry(),
        &vec![change("a.go", FileStatus::Modified)],
        &extractions,
        &vec![Sources {
            old,
            new: NewSource::Text(new.to_string()),
        }],
    )
}

#[test]
fn a_file_with_more_definitions_than_its_index_may_still_be_classified() {
    let old = "package p\n\nfunc A() {}\n\nfunc B() {}\n";
    let edited = "package p\n\nfunc A() { a() }\n\nfunc B() {}\n";
    let mode = stale(edited, OldSource::Text(old.to_string())).expect("only A is seeded");
    assert_eq!(seeds_of(&mode).len(), 1);
    let edited = "package p\n\nfunc A() {}\n\nfunc B() { b() }\n";
    assert_eq!(stale(edited, OldSource::Text(old.to_string())), None);
}

#[test]
fn a_reason_to_run_all_comes_before_a_stale_file() {
    let indexed_as = files(&[("a.go", "package p\n\nfunc A() {}\n"), ("b.go", "package p\n")]);
    let (graph, extractions, _) = indexed(&Config::default(), &indexed_as);
    let unreadable = Sources {
        old: OldSource::Unreadable("lost".to_string()),
        new: NewSource::Text("package p\n".to_string()),
    };
    let grown = Sources {
        old: OldSource::Text("package p\n".to_string()),
        new: NewSource::Text("package p\n\nfunc A() {}\n\nfunc B() {}\n".to_string()),
    };
    let mode = classify(
        &graph,
        &registry(),
        &vec![
            change("b.go", FileStatus::Modified),
            change("a.go", FileStatus::Modified),
        ],
        &extractions,
        &vec![unreadable, grown],
    );
    assert_eq!(
        mode,
        Some(ChangeMode::RunAll {
            reason: "reading old content of b.go: lost".to_string()
        })
    );
}

#[test]
fn an_invalid_pattern_is_told_even_without_tests() {
    let graph = graph_of(&files(&[("a.go", "package p\n")]));
    let config = Config {
        always_run: vec!["[".to_string()],
        ..Config::default()
    };
    assert!(selected_test_defs(&graph, &[], &config).is_err());
    assert!(why_candidates(&graph, &[], &config).is_err());
}

fn moved_into_generated(from: &str, to: &str, src: &str) -> (Graph, ChangeMode) {
    let config = Config {
        ignore: vec!["**/generated/**".to_string()],
        ..Config::default()
    };
    let importer = (
        "src/a.test.ts",
        "import { add } from \"./math\";\nit(\"adds\", () => { add(1, 2); });\n",
    );
    let before = files(&[(from, src), importer]);
    let after = files(&[(to, src), importer]);
    let moved = change(
        to,
        FileStatus::Renamed {
            old: from.to_string(),
        },
    );
    outcome_with(&config, &before, &after, vec![moved])
}

#[test]
fn a_source_moved_out_of_the_index_seeds_its_importers() {
    let (graph, mode) = moved_into_generated("src/math.ts", "src/generated/math.ts", ADD_TS);
    assert_eq!(
        mode,
        ChangeMode::Selection(vec![Seed {
            def: module_init(&graph, "a.test.ts"),
            kind: SeedKind::ModuleInit,
        }])
    );
}

#[test]
fn a_config_file_moved_out_of_the_index_runs_all() {
    let (_, mode) = moved_into_generated("package.json", "src/generated/package.json", "{}\n");
    assert_eq!(
        mode,
        ChangeMode::RunAll {
            reason: "config file changed: package.json".to_string()
        }
    );
}
