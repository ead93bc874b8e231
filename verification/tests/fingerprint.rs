use testless::fingerprint::{fingerprint, module_init_fingerprint, same_hash, split_fingerprint};
use testless::syntax::{parse_source, Grammar, SyntaxNode};

fn ts_tree(src: &str) -> SyntaxNode {
    parse_source(Grammar::TypeScript, src).unwrap()
}

#[test]
fn comment_and_formatting_insensitive() {
    let a = ts_tree("export function add(a: number, b: number) { return a + b; }");
    let b = ts_tree(
        "// docs\nexport function add(a: number,\n    b: number) {\n  /* inner */ return a + b;\n}",
    );
    assert_eq!(fingerprint(&a), fingerprint(&b));
}

#[test]
fn token_change_changes_fingerprint() {
    let a = ts_tree("function f() { return 1; }");
    let b = ts_tree("function f() { return 2; }");
    assert_ne!(fingerprint(&a), fingerprint(&b));
}

#[test]
fn split_separates_signature_from_body() {
    let a = ts_tree("function f(x: number) { return 1; }");
    let b = ts_tree("function f(x: number) { return 2; }");
    let fa = a.named_child(0).unwrap();
    let fb = b.named_child(0).unwrap();
    let (sig_a, body_a) = split_fingerprint(fa);
    let (sig_b, body_b) = split_fingerprint(fb);
    assert_eq!(sig_a, sig_b);
    assert_ne!(body_a, body_b);
    assert!(body_a.is_some());
}

fn loose(src: &str) -> [u8; 32] {
    let root = ts_tree(src);
    let skip: Vec<bool> = root
        .children
        .iter()
        .map(|n| n.kind == "function_declaration")
        .collect();
    module_init_fingerprint(&root, &skip)
}

#[test]
fn module_init_fingerprint_skips_def_bodies_but_not_other_statements() {
    let a = loose("let x = 1;\nfunction f() { return 1; }");
    let b = loose("let x = 1;\nfunction f() { return 2; }");
    assert_eq!(a, b);

    let c = loose("let x = 2;\nfunction f() { return 1; }");
    assert_ne!(a, c);
}

#[test]
fn a_hash_is_that_of_the_bytes() {
    // The hash of no bytes at all, as BLAKE3 defines it.
    let empty = loose("");
    assert_eq!(
        empty[..8],
        [0xaf, 0x13, 0x49, 0xb9, 0xf5, 0xf9, 0xa1, 0xa6]
    );
    assert!(same_hash(&empty, &loose("")));
    assert!(!same_hash(&empty, &loose("x;")));
}

#[test]
fn a_signature_change_moves_the_signature_alone() {
    let a = ts_tree("function f(x: number) { return 1; }");
    let b = ts_tree("function f(y: number) { return 1; }");
    let (sig_a, body_a) = split_fingerprint(a.named_child(0).unwrap());
    let (sig_b, body_b) = split_fingerprint(b.named_child(0).unwrap());
    assert_ne!(sig_a, sig_b);
    assert_eq!(body_a, body_b);
}
