use testless::syntax::{
    self, build_tree, parse_source, text_between, Grammar, NodeRow, ParseFailure,
};

fn row(depth: usize, kind: &str, from: usize, to: usize) -> NodeRow {
    NodeRow {
        depth,
        kind: kind.to_string(),
        named: true,
        field: None,
        start_row: 0,
        end_row: 0,
        start_byte: from,
        end_byte: to,
    }
}

#[test]
fn rows_in_preorder_make_a_tree() {
    let rows = vec![
        row(0, "root", 0, 5),
        row(1, "left", 0, 2),
        row(2, "leaf", 0, 1),
        row(1, "right", 3, 5),
    ];
    let tree = build_tree(&rows, "ab cd").unwrap();
    assert!(tree.is("root"));
    assert_eq!(tree.child_count(), 2);
    assert_eq!(tree.child(0).child_count(), 1);
    assert!(tree.child(0).child(0).is("leaf"));
    assert_eq!(tree.child(1).text_or_empty(), "cd");
    assert_eq!(
        [tree.id, tree.child(0).id, tree.child(0).child(0).id, tree.child(1).id],
        [0, 1, 2, 3]
    );
    assert!(build_tree(&vec![], "").is_none());
}

#[test]
fn text_is_cut_at_character_boundaries_only() {
    assert_eq!(text_between("aé", 1, 3), Some("é".to_string()));
    assert_eq!(text_between("aé", 0, 0), Some(String::new()));
    assert_eq!(text_between("aé", 0, 2), None);
    assert_eq!(text_between("aé", 2, 1), None);
    assert_eq!(text_between("aé", 0, 4), None);
}

#[test]
fn each_grammar_parses_its_language() {
    for (grammar, src, root) in [
        (Grammar::Go, "package p\n", "source_file"),
        (Grammar::Java, "class A {}\n", "program"),
        (Grammar::Rust, "fn f() {}\n", "source_file"),
        (Grammar::TypeScript, "const a: number = 1;\n", "program"),
        (Grammar::Tsx, "const a = <b/>;\n", "program"),
    ] {
        let tree = parse_source(grammar, src).unwrap();
        assert!(tree.is(root), "{grammar:?}: {}", tree.kind);
        assert_eq!(tree.id, 0);
        assert_eq!(tree.text_or_empty(), src);
    }
}

#[test]
fn fields_and_named_children_are_found() {
    let tree = parse_source(Grammar::Rust, "fn f(a: u8) -> u8 { a }\n").unwrap();
    let f = tree.child(0);
    assert!(f.is("function_item"));
    assert_eq!(f.child_by_field("name").unwrap().text_or_empty(), "f");
    assert_eq!(f.child_by_field("body").unwrap().text_or_empty(), "{ a }");
    assert!(f.child_by_field("missing").is_none());
    assert!(f.named_child(0).unwrap().is("identifier"));
    assert!(f.named_child(9).is_none());
    assert_eq!(tree.children_of("function_item").len(), 1);
    assert!(f.first_child_of("block", "parameters").unwrap().is("parameters"));
    assert_eq!(f.end_row, 0);
}

#[test]
fn broken_sources_are_parsed_too() {
    assert!(parse_source(Grammar::Go, "func ( {").is_ok());
    assert!(parse_source(Grammar::Java, "").is_ok());
    assert_ne!(ParseFailure::Grammar, ParseFailure::Source);
}

#[test]
fn lines_count_from_one() {
    assert_eq!(syntax::line(0), 1);
    assert_eq!(syntax::line(41), 42);
}
