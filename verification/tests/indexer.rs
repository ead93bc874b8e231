use testless::cache::CachedExtraction;
use testless::draft::dedup_refs;
use testless::graph::{CallTarget, DefId, DefKind, Edge, FileId, Graph};
use testless::indexer::{
    build_graph, index_repo, index_repo_incremental, refresh, SourceFile,
};
use testless::lang_go::GoLanguage;
use testless::language::{ExtractedRef, Language, Registry, RepoFacts};
use testless::plugins::registry;

fn source(path: &str, src: &str) -> SourceFile {
    SourceFile {
        path: path.to_string(),
        src: src.to_string(),
    }
}

const CALC: &str = "package calc\n\nfunc Add(a, b int) int { return a + b }\n";
const USE: &str = "package calc\n\nfunc Twice(a int) int { return Add(a, a) }\n\nvar N = Twice(1)\n";

fn go_sources() -> Vec<SourceFile> {
    vec![source("calc/calc.go", CALC), source("calc/use.go", USE)]
}

fn find(g: &Graph, name: &str) -> DefId {
    DefId(g.defs.iter().position(|d| d.name == name).unwrap() as u32)
}

fn same_graph(a: &Graph, b: &Graph) -> bool {
    let names = |g: &Graph| -> Vec<(String, u32)> {
        g.defs.iter().map(|d| (d.name.clone(), d.file.0)).collect()
    };
    names(a) == names(b) && a.edges == b.edges
}

#[test]
fn files_of_one_package_see_each_other() {
    let g = index_repo(&registry(), &go_sources(), &RepoFacts::new(None)).unwrap();
    assert!(g.edges.contains(&Edge::Calls {
        from: find(&g, "Twice"),
        to: CallTarget::Resolved(find(&g, "Add"))
    }));
    // The loose code of a file belongs to its module init.
    let init = g.module_init(FileId(1)).unwrap();
    assert_eq!(g.def(init).kind, DefKind::ModuleInit);
    assert!(g.edges.contains(&Edge::Calls {
        from: init,
        to: CallTarget::Resolved(find(&g, "Twice"))
    }));
}

#[test]
fn an_incremental_index_is_the_full_index() {
    let langs = registry();
    let repo = RepoFacts::new(None);
    let old = vec![source("calc/calc.go", "package calc\n"), source("calc/use.go", USE)];
    let (_, kept, _) = index_repo_incremental(&langs, &old, &vec![], &repo).unwrap();
    let (step, _, stats) = index_repo_incremental(&langs, &go_sources(), &kept, &repo).unwrap();
    let full = index_repo(&langs, &go_sources(), &repo).unwrap();
    assert!(same_graph(&step, &full));
    assert_eq!((stats.parsed, stats.reused), (1, 1));
}

#[test]
fn a_file_that_is_gone_drops_out() {
    let langs = registry();
    let repo = RepoFacts::new(None);
    let (_, kept, _) = index_repo_incremental(&langs, &go_sources(), &vec![], &repo).unwrap();
    let left = vec![source("calc/use.go", USE)];
    let (g, _, stats) = index_repo_incremental(&langs, &left, &kept, &repo).unwrap();
    assert_eq!(g.files.len(), 1);
    assert_eq!((stats.parsed, stats.reused), (0, 1));
    assert!(g.edges.contains(&Edge::Calls {
        from: find(&g, "Twice"),
        to: CallTarget::Unknown("Add".to_string())
    }));
}

#[test]
fn contents_that_changed_are_extracted_anew() {
    let langs = registry();
    let (kept, _) = refresh(&langs, &go_sources(), &vec![]).unwrap();
    let changed: Vec<SourceFile> = vec![source("calc/calc.go", "package calc\n\nfunc Sub() {}\n")];
    let (now, stats) = refresh(&langs, &changed, &kept).unwrap();
    assert_eq!(stats.parsed, 1);
    assert!(now[0].2.defs.iter().any(|d| d.name == "Sub"));
    assert_ne!(now[0].1, kept[0].1);
}

#[test]
fn go_imports_name_every_file_of_a_package() {
    let sources = vec![
        source("calc/calc.go", CALC),
        source("calc/calc_test.go", "package calc\n\nfunc TestHelper() int { return 1 }\n"),
        source(
            "app/app.go",
            "package app\n\nimport \"example.com/m/calc\"\n\nfunc Run() int { return calc.Add(1, 2) }\n",
        ),
    ];
    let mut repo = RepoFacts::new(Some("module example.com/m\n".to_string()));
    repo.note("calc");
    let g = index_repo(&registry(), &sources, &repo).unwrap();
    let app = FileId(2);
    assert!(g.edges.contains(&Edge::Imports { from: app, to: FileId(0) }));
    assert!(g.edges.contains(&Edge::Imports { from: app, to: FileId(1) }));
    assert!(g.edges.contains(&Edge::Calls {
        from: find(&g, "Run"),
        to: CallTarget::Resolved(find(&g, "Add"))
    }));
}

#[test]
fn graphs_are_built_of_what_was_extracted() {
    let langs = Registry::new(vec![GoLanguage]);
    assert_eq!(langs.for_path("a.go").unwrap().id(), "go");
    let (cached, _): (Vec<CachedExtraction>, _) = refresh(&langs, &go_sources(), &vec![]).unwrap();
    let g = build_graph(&langs, &cached, &RepoFacts::new(None));
    assert_eq!(g.files.len(), 2);
    assert_eq!(g.files[0].path, "calc/calc.go");
    assert_eq!(g.files[0].lang, "go");
    assert_eq!(g.files[0].hash, cached[0].1);
}

#[test]
fn repeated_references_are_kept_once() {
    let r = |name: &str, line: u32| ExtractedRef {
        from_def: 0,
        name: name.to_string(),
        qualifier: None,
        line,
    };
    let kept = dedup_refs(vec![r("a", 1), r("b", 2), r("a", 3)]);
    assert_eq!(kept, vec![r("a", 1), r("b", 2)]);
}
