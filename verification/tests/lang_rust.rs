use testless::classify::parse_and_extract;
use testless::graph::DefKind;
use testless::lang_rust::RustLanguage;
use testless::language::{Extraction, Language, RepoFacts};

fn extract(src: &str) -> Extraction {
    parse_and_extract(&RustLanguage, "x.rs", src).unwrap()
}

const MATH_RS: &str = r##"pub fn add(a: i64, b: i64) -> i64 { a + b }

pub struct Calc { pub total: i64 }

impl Calc {
    pub fn push(&mut self, n: i64) { self.total = add(self.total, n); }
}

#[cfg(test)]
mod tests {
    use super::*;

    #[test]
    fn add_works() { assert_eq!(add(2, 2), 4); }

    #[test]
    fn calc_push() {
        let mut c = Calc { total: 0 };
        c.push(5);
        assert_eq!(c.total, 5);
    }
}
"##;

const FMT_RS: &str = r##"use crate::math::add;

pub fn fmt(a: i64, b: i64) -> String { format!("{}", add(a, b)) }

#[cfg(test)]
mod tests {
    #[tokio::test]
    async fn fmt_async_style() { assert_eq!(crate::fmt::fmt(1, 2), "3"); }
}
"##;

const LIB_RS: &str = "pub mod math;\npub mod fmt;\n";

const INTEGRATION_RS: &str = r##"use rust_app::math::add;

#[test]
fn integration_add() { assert_eq!(add(1, 2), 3); }
"##;

#[test]
fn extracts_fns_methods_types_module_init() {
    let ex = extract(MATH_RS);
    let names: Vec<(&str, DefKind)> = ex.defs.iter().map(|d| (d.name.as_str(), d.kind)).collect();
    assert!(names.contains(&("<module>", DefKind::ModuleInit)));
    assert!(names.contains(&("add", DefKind::Function)));
    assert!(names.contains(&("Calc", DefKind::Class)));
    assert!(names.contains(&("Calc.push", DefKind::Method)));
}

#[test]
fn strips_generics_from_impl_type_name() {
    let src = "struct Calc<T> { v: T }\nimpl<T> Calc<T> { fn get(&self) -> i64 { 0 } }";
    let ex = extract(src);
    let names: Vec<(&str, DefKind)> = ex.defs.iter().map(|d| (d.name.as_str(), d.kind)).collect();
    assert!(names.contains(&("Calc.get", DefKind::Method)));
}

#[test]
fn collects_mod_decls_and_use_paths() {
    let ex = extract(LIB_RS);
    let raws: Vec<&str> = ex.imports.iter().map(|i| i.raw.as_str()).collect();
    assert!(raws.contains(&"mod math"));
    assert!(raws.contains(&"mod fmt"));

    let ex = extract(FMT_RS);
    let raws: Vec<&str> = ex.imports.iter().map(|i| i.raw.as_str()).collect();
    assert!(raws.contains(&"use crate::math::add"));
}

#[test]
fn resolves_mod_decl_use_crate_and_external() {
    let mut repo = RepoFacts::new(None);
    for file in ["src/lib.rs", "src/math.rs", "src/fmt.rs", "tests/integration.rs"] {
        repo.note(file);
    }
    let l = RustLanguage;
    assert_eq!(
        l.resolve_import("src/lib.rs", "mod math", &repo),
        Some("src/math.rs".to_string())
    );
    assert_eq!(
        l.resolve_import("src/fmt.rs", "use crate::math::add", &repo),
        Some("src/math.rs".to_string())
    );
    // External-crate-shaped: nothing in the repository.
    assert_eq!(
        l.resolve_import("tests/integration.rs", "use rust_app::math::add", &repo),
        None
    );
    assert_eq!(
        l.resolve_import("src/fmt.rs", "use serde::Serialize", &repo),
        None
    );
}

#[test]
fn extracts_cross_module_calls() {
    let ex = extract(FMT_RS);
    let f = ex.defs.iter().position(|d| d.name == "fmt").unwrap();
    assert!(ex.calls.iter().any(|c| c.name == "add" && c.from_def == f));
}

#[test]
fn method_calls_and_test_attribution() {
    let ex = extract(MATH_RS);
    // Calc.push body calls add()
    let push = ex.defs.iter().position(|d| d.name == "Calc.push").unwrap();
    assert!(ex
        .calls
        .iter()
        .any(|c| c.name == "add" && c.from_def == push));
    // test add_works calls add()
    let t = ex
        .defs
        .iter()
        .position(|d| d.test_id.as_deref() == Some(&["tests".into(), "add_works".into()][..]))
        .unwrap();
    assert!(ex.calls.iter().any(|c| c.name == "add" && c.from_def == t));
}

#[test]
fn extracts_cfg_test_mod_tests_with_chain() {
    let ex = extract(MATH_RS);
    let ids: Vec<_> = ex.defs.iter().filter(|d| d.kind == DefKind::TestCase)
        .filter_map(|d| d.test_id.clone()).collect();
    assert!(ids.contains(&vec!["tests".into(), "add_works".into()]));
    assert!(ids.contains(&vec!["tests".into(), "calc_push".into()]));
}

#[test]
fn attribute_variants_and_integration_tests() {
    let ex = extract(FMT_RS);
    let ids: Vec<_> = ex.defs.iter().filter(|d| d.kind == DefKind::TestCase)
        .filter_map(|d| d.test_id.clone()).collect();
    assert!(ids.contains(&vec!["tests".into(), "fmt_async_style".into()])); // #[tokio::test]

    let ex = extract(INTEGRATION_RS);
    let ids: Vec<_> = ex.defs.iter().filter(|d| d.kind == DefKind::TestCase)
        .filter_map(|d| d.test_id.clone()).collect();
    assert!(ids.contains(&vec!["integration_add".into()]));
}
