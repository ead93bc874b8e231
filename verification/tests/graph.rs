use testless::graph::{Def, DefKind, Edge, FileId, FileNode, Graph};

fn f(path: &str) -> FileNode {
    FileNode {
        path: path.to_string(),
        hash: [0; 32],
        lang: "ts".into(),
    }
}

fn d(name: &str, kind: DefKind, file: FileId) -> Def {
    Def {
        name: name.into(),
        kind,
        file,
        start_line: 1,
        end_line: 2,
        test_id: None,
        computed_name: false,
    }
}

#[test]
fn add_and_query() {
    let mut g = Graph::default();
    let fa = g.add_file(f("a.ts"));
    let fb = g.add_file(f("b.ts"));
    let init = g.add_def(d("<module>", DefKind::ModuleInit, fa));
    let add = g.add_def(d("add", DefKind::Function, fa));
    let other = g.add_def(d("x", DefKind::Function, fb));
    g.add_edge(Edge::Contains {
        parent: init,
        child: add,
    });

    assert_eq!(g.defs_in_file(fa).len(), 2);
    assert_eq!(
        g.defs_in_file(fb)
            .iter()
            .map(|(id, _)| *id)
            .collect::<Vec<_>>(),
        vec![other]
    );
    assert_eq!(g.module_init(fa), Some(init));
    assert_eq!(g.module_init(fb), None);
}

#[test]
fn a_definition_is_found_by_its_id() {
    let mut g = Graph::default();
    let file = g.add_file(f("a.ts"));
    let a = g.add_def(d("a", DefKind::Function, file));
    let b = g.add_def(d("b", DefKind::Class, file));
    assert_eq!(g.def(a).name, "a");
    assert_eq!(g.def(b).kind, DefKind::Class);
    let listed: Vec<&str> = g
        .defs_in_file(file)
        .iter()
        .map(|(_, d)| d.name.as_str())
        .collect();
    assert_eq!(listed, vec!["a", "b"]);
}

#[test]
fn the_last_module_init_of_a_file_counts() {
    let mut g = Graph::default();
    let file = g.add_file(f("a.ts"));
    g.add_def(d("<module>", DefKind::ModuleInit, file));
    let second = g.add_def(d("<module>", DefKind::ModuleInit, file));
    assert_eq!(g.module_init(file), Some(second));
}
