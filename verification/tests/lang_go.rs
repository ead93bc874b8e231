use testless::classify::parse_and_extract;
use testless::graph::DefKind;
use testless::lang_go::GoLanguage;
use testless::language::{Extraction, Language, RepoFacts};

fn extract(src: &str) -> Extraction {
    parse_and_extract(&GoLanguage, "x.go", src).unwrap()
}

const CALC_GO: &str = r#"package calc

func Add(a, b int) int { return a + b }

type Calc struct{ Total int }

func (c *Calc) Push(n int) { c.Total = Add(c.Total, n) }

func init() { _ = Add(0, 0) }
"#;

const CALC_TEST_GO: &str = r#"package calc

import (
	"fmt"
	"testing"
)

func TestAdd(t *testing.T) {
	t.Run("negatives", func(t *testing.T) {
		if Add(-1, -2) != -3 {
			t.Fail()
		}
	})
	t.Run("zero", func(t *testing.T) {
		if Add(0, 5) != 5 {
			t.Fail()
		}
	})
}

func TestCalc(t *testing.T) {
	for i := 0; i < 2; i++ {
		t.Run(fmt.Sprintf("case %d", i), func(t *testing.T) {})
	}
}

func BenchmarkAdd(b *testing.B) {
	for i := 0; i < b.N; i++ {
		Add(1, 2)
	}
}
"#;

const FMT2_GO: &str = r#"package fmt2

import (
	"fmt"

	"example.com/go-app/calc"
)

func Fmt(a, b int) string { return fmt.Sprintf("%d", calc.Add(a, b)) }
"#;

#[test]
fn extracts_funcs_methods_init() {
    let ex = extract(CALC_GO);
    let names: Vec<(&str, DefKind)> = ex.defs.iter().map(|d| (d.name.as_str(), d.kind)).collect();
    assert!(names.contains(&("Add", DefKind::Function)));
    assert!(names.contains(&("Calc.Push", DefKind::Method)));
    assert!(names.contains(&("<module>", DefKind::ModuleInit))); // init() folded in
}

#[test]
fn extracts_tests_subtests_and_computed() {
    let ex = extract(CALC_TEST_GO);
    let ids: Vec<_> = ex
        .defs
        .iter()
        .filter(|d| d.kind == DefKind::TestCase)
        .map(|d| (d.test_id.clone().unwrap(), d.computed_name))
        .collect();
    assert!(ids.contains(&(vec!["TestAdd".into(), "negatives".into()], false)));
    assert!(ids.contains(&(vec!["TestAdd".into(), "zero".into()], false)));
    assert!(ids.contains(&(vec!["TestCalc".into(), "<computed>".into()], true)));
    assert!(ids.contains(&(vec!["BenchmarkAdd".into()], false)));
}

#[test]
fn nested_t_run_chains_fully() {
    let src = r#"package p

import "testing"

func TestFoo(t *testing.T) {
	t.Run("outer", func(t *testing.T) {
		t.Run("inner", func(t *testing.T) {})
	})
}
"#;
    let ex = extract(src);
    let ids: Vec<_> = ex
        .defs
        .iter()
        .filter(|d| d.kind == DefKind::TestCase)
        .filter_map(|d| d.test_id.clone())
        .collect();
    assert!(ids.contains(&vec!["TestFoo".into(), "outer".into()]));
    assert!(ids.contains(&vec!["TestFoo".into(), "outer".into(), "inner".into()]));
    // inner's parent is outer's def, not TestFoo
    let outer = ex
        .defs
        .iter()
        .position(|d| d.test_id.as_deref() == Some(&["TestFoo".into(), "outer".into()][..]))
        .unwrap();
    let inner = ex
        .defs
        .iter()
        .find(|d| {
            d.test_id.as_deref() == Some(&["TestFoo".into(), "outer".into(), "inner".into()][..])
        })
        .unwrap();
    assert_eq!(inner.parent, Some(outer));
}

#[test]
fn extracts_dot_and_blank_imports() {
    let src = r#"package p

import (
	. "example.com/go-app/calc"
	_ "example.com/go-app/fmt2"
)

func Use() {}
"#;
    let ex = extract(src);
    let raws: Vec<&str> = ex.imports.iter().map(|i| i.raw.as_str()).collect();
    assert!(raws.contains(&"example.com/go-app/calc"));
    assert!(raws.contains(&"example.com/go-app/fmt2"));
}

#[test]
fn resolves_module_internal_imports() {
    let mut repo = RepoFacts::new(Some("module example.com/go-app\n\ngo 1.22\n".to_string()));
    repo.note("calc");
    repo.note("fmt2");
    let l = GoLanguage;
    assert_eq!(
        l.resolve_import("fmt2/fmt2.go", "example.com/go-app/calc", &repo),
        Some("calc".to_string())
    );
    assert_eq!(l.resolve_import("fmt2/fmt2.go", "fmt", &repo), None);
}

/// The ModuleInit `<module>` def's `sig_hash` (there is always exactly one).
fn module_init_sig_hash(ex: &Extraction) -> [u8; 32] {
    ex.defs
        .iter()
        .find(|d| d.kind == DefKind::ModuleInit)
        .expect("ModuleInit def")
        .sig_hash
}

#[test]
fn init_body_change_moves_module_init_hash() {
    // `init()` contributes no def of its own (folded into ModuleInit per
    // extract's doc comment), so a change confined entirely to its body
    // must still show up in the ModuleInit sig_hash, or such a change would
    // select zero tests on re-index.
    let a = extract(
        r#"package p

func Add(a, b int) int { return a + b }

func init() { _ = Add(0, 0) }
"#,
    );
    let b = extract(
        r#"package p

func Add(a, b int) int { return a + b }

func init() { _ = Add(1, 1) }
"#,
    );
    assert_ne!(
        module_init_sig_hash(&a),
        module_init_sig_hash(&b),
        "init() body change must change the ModuleInit sig_hash"
    );
}

#[test]
fn normal_function_body_change_does_not_move_module_init_hash() {
    // A change confined to an ordinary top-level function's body is already
    // covered by that function's own def hash; it must NOT also move the
    // ModuleInit hash (that def's own body is excluded from the module
    // hash, same as every other non-`init` function).
    let a = extract(
        r#"package p

func Add(a, b int) int { return a + b }

func init() {}
"#,
    );
    let b = extract(
        r#"package p

func Add(a, b int) int { return a - b }

func init() {}
"#,
    );
    assert_eq!(
        module_init_sig_hash(&a),
        module_init_sig_hash(&b),
        "a normal function's body change must not affect the ModuleInit sig_hash"
    );
}

#[test]
fn extracts_cross_package_calls() {
    let ex = extract(FMT2_GO);
    let f = ex.defs.iter().position(|d| d.name == "Fmt").unwrap();
    assert!(ex
        .calls
        .iter()
        .any(|c| c.name == "Add" && c.qualifier.as_deref() == Some("calc") && c.from_def == f));
}

#[test]
fn aliased_import_qualifier_is_recorded_as_known_name() {
    let src = r#"package p

import foo "example.com/go-app/calc"

func Fmt() int {
	return foo.Something
}
"#;
    let ex = extract(src);
    let f = ex.defs.iter().position(|d| d.name == "Fmt").unwrap();
    assert!(ex.reads.iter().any(|r| r.name == "Something"
        && r.qualifier.as_deref() == Some("foo")
        && r.from_def == f));
}

#[test]
fn non_testing_run_is_plain_call_not_subtest() {
    let src = r#"package p

import "testing"

func TestServer(t *testing.T) {
	srv := newServer()
	srv.Run(":8080")
	t.Run("real subtest", func(t *testing.T) {})
}
"#;
    let ex = extract(src);
    let ids: Vec<_> = ex
        .defs
        .iter()
        .filter(|d| d.kind == DefKind::TestCase)
        .filter_map(|d| d.test_id.clone())
        .collect();
    assert!(ids.contains(&vec!["TestServer".into(), "real subtest".into()]));
    // srv.Run must NOT create a subtest
    assert_eq!(ids.iter().filter(|i| i.len() == 2).count(), 1);
    // and IS recorded as an ordinary call
    let root = ex
        .defs
        .iter()
        .position(|d| d.test_id.as_deref() == Some(&["TestServer".into()][..]))
        .unwrap();
    assert!(ex
        .calls
        .iter()
        .any(|c| c.name == "Run" && c.qualifier.as_deref() == Some("srv") && c.from_def == root));
}
