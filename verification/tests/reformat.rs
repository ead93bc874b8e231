//! Edits of comments and formatting change no definition.

use testless::classify::parse_and_extract;
use testless::diffdef::{diff_defs, DefChange};
use testless::graph::DefKind;
use testless::lang_go::GoLanguage;
use testless::lang_java::JavaLanguage;
use testless::lang_rust::RustLanguage;
use testless::lang_ts::TsLanguage;
use testless::language::Language;

fn changes<L: Language>(lang: &L, path: &str, old: &str, new: &str) -> Vec<DefChange> {
    diff_defs(
        &parse_and_extract(lang, path, old).unwrap(),
        &parse_and_extract(lang, path, new).unwrap(),
    )
}

#[test]
fn reformatted_go_keeps_its_definitions() {
    let old = "package p\n\nfunc Add(a, b int) int { return a + b }\n\nvar limit = 3\n";
    let new = "// Package p adds.\npackage p\n\n// Add adds.\nfunc Add(a, b int) int {\n\treturn a +\n\t\tb // sum\n}\n\n\nvar limit = 3\n";
    assert_eq!(changes(&GoLanguage, "p/p.go", old, new), vec![]);
}

#[test]
fn reformatted_rust_keeps_its_definitions() {
    let old = "pub fn add(a: i32, b: i32) -> i32 { a + b }\n\npub const LIMIT: i32 = 3;\n";
    let new = "/// Adds.\npub fn add(a: i32, b: i32) -> i32 {\n    // sum\n    a + b\n}\n\npub const LIMIT: i32 =\n    3;\n";
    assert_eq!(changes(&RustLanguage, "src/lib.rs", old, new), vec![]);
}

#[test]
fn reformatted_java_keeps_its_definitions() {
    let old = "package p;\n\nclass Calc {\n  int add(int a, int b) { return a + b; }\n}\n";
    let new = "package p;\n\n/** Adds. */\nclass Calc {\n\n  // sum\n  int add(int a, int b) {\n    return a /* left */ + b;\n  }\n}\n";
    assert_eq!(changes(&JavaLanguage::default(), "Calc.java", old, new), vec![]);
}

#[test]
fn reformatted_ts_keeps_its_definitions() {
    let old = "export const add = (a: number, b: number) => a + b;\nexport const limit = 3;\n";
    let new = "// sums\nexport const add = (a: number, b: number) =>\n  a + b; /* done */\nexport const limit = 3;\n";
    assert_eq!(changes(&TsLanguage, "src/math.ts", old, new), vec![]);
}

#[test]
fn an_edited_body_is_no_reformat() {
    let old = "package p\n\nfunc Add(a, b int) int { return a + b }\n";
    let new = "package p\n\nfunc Add(a, b int) int { return a - b }\n";
    let found = changes(&GoLanguage, "p/p.go", old, new);
    assert!(
        matches!(found.as_slice(), [DefChange::BodyChanged { .. }]),
        "{found:?}"
    );
}

#[test]
fn a_comment_before_the_name_of_a_go_subtest_is_passed_over() {
    let old = "package p\n\nimport \"testing\"\n\nfunc TestAdd(t *testing.T) {\n\tt.Run(\"zero\", func(t *testing.T) {})\n}\n";
    let new = "package p\n\nimport \"testing\"\n\nfunc TestAdd(t * /* handle */ testing.T) {\n\tt.Run(/* name */ \"zero\", /* body */ func(t *testing.T) {})\n}\n";
    let e = parse_and_extract(&GoLanguage, "p/p_test.go", new).unwrap();
    let ids: Vec<_> = e.defs.iter().filter_map(|d| d.test_id.clone()).collect();
    assert_eq!(
        ids,
        vec![
            vec!["TestAdd".to_string()],
            vec!["TestAdd".to_string(), "zero".to_string()],
        ]
    );
    assert_eq!(changes(&GoLanguage, "p/p_test.go", old, new), vec![]);
}

#[test]
fn a_comment_before_the_name_of_a_ts_test_is_passed_over() {
    let old = "describe(\"add\", () => { it(\"sums\", () => {}); });\n";
    let new = "describe(/* group */ \"add\", () => { it(/* name */ \"sums\", () => {}); });\n";
    let e = parse_and_extract(&TsLanguage, "a.test.ts", new).unwrap();
    assert!(e
        .defs
        .iter()
        .any(|d| d.test_id == Some(vec!["add".to_string(), "sums".to_string()]) && !d.computed_name));
    assert_eq!(changes(&TsLanguage, "a.test.ts", old, new), vec![]);
}

#[test]
fn a_comment_before_the_path_of_a_rust_attribute_is_passed_over() {
    let old = "#[test]\nfn adds() {}\n";
    let new = "#[/* run by cargo */ test]\nfn adds() {}\n";
    let e = parse_and_extract(&RustLanguage, "src/lib.rs", new).unwrap();
    assert!(e.defs.iter().any(|d| d.name == "adds" && d.kind == DefKind::TestCase));
    assert_eq!(changes(&RustLanguage, "src/lib.rs", old, new), vec![]);
}

#[test]
fn another_token_is_another_definition() {
    let a = "package p\n\nfunc init() { x = 0 }\n";
    let b = "package p\n\nfunc init() { x = 1 }\n";
    assert_eq!(changes(&GoLanguage, "p/p.go", a, b), vec![DefChange::ModuleInitChanged]);
}
