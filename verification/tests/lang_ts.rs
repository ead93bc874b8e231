use testless::classify::parse_and_extract;
use testless::diffdef::diff_defs;
use testless::graph::DefKind;
use testless::lang_ts::TsLanguage;
use testless::language::{Extraction, Language, RepoFacts};

fn extract(src: &str) -> Extraction {
    parse_and_extract(&TsLanguage, "x.ts", src).unwrap()
}

const MATH_TS: &str = r#"export function add(a: number, b: number): number { return a + b; }

export const mul = (a: number, b: number): number => a * b;

export class Calc {
  total = 0;
  push(n: number) { this.total = add(this.total, n); }
}

console.log("side effect at import");
"#;

const FORMAT_TS: &str = r#"import { add } from "./math";
export function fmt(a: number, b: number): string { return `${add(a, b)}`; }
"#;

const MATH_TEST_TS: &str = r#"import { describe, it, expect } from "vitest";
import { add, mul, Calc } from "./math";

describe("add", () => {
  it("handles negatives", () => { expect(add(-1, -2)).toBe(-3); });
  it("handles zero", () => { expect(add(0, 5)).toBe(5); });
});

it("mul works", () => { expect(mul(2, 3)).toBe(6); });

describe("Calc", () => {
  for (const n of [1, 2]) {
    it(`pushes ${n}`, () => { const c = new Calc(); c.push(n); });
  }
});
"#;

#[test]
fn extracts_function_arrow_class_method() {
    let ex = extract(MATH_TS);
    let names: Vec<(&str, DefKind)> =
        ex.defs.iter().map(|d| (d.name.as_str(), d.kind)).collect();
    assert!(names.contains(&("<module>", DefKind::ModuleInit)));
    assert!(names.contains(&("add", DefKind::Function)));
    assert!(names.contains(&("mul", DefKind::Function)));
    assert!(names.contains(&("Calc", DefKind::Class)));
    assert!(names.contains(&("push", DefKind::Method)));
    let push = ex.defs.iter().position(|d| d.name == "push").unwrap();
    let calc = ex.defs.iter().position(|d| d.name == "Calc").unwrap();
    assert_eq!(ex.defs[push].parent, Some(calc));
}

#[test]
fn extracts_calls_with_enclosing_def_attribution() {
    let ex = extract(FORMAT_TS);
    // fmt() calls add() imported from ./math
    let fmt_idx = ex.defs.iter().position(|d| d.name == "fmt").unwrap();
    assert!(ex
        .calls
        .iter()
        .any(|c| c.name == "add" && c.from_def == fmt_idx));
}

#[test]
fn test_bodies_attribute_calls_to_testcase() {
    let ex = extract(MATH_TEST_TS);
    let neg = ex
        .defs
        .iter()
        .position(|d| d.test_id.as_deref() == Some(&["add".into(), "handles negatives".into()][..]))
        .unwrap();
    assert!(ex
        .calls
        .iter()
        .any(|c| c.name == "add" && c.from_def == neg));
}

#[test]
fn method_calls_carry_qualifier() {
    let src = r#"
import { Calc } from "./math";
export function run() { const c = new Calc(); c.push(1); }
"#;
    let ex = extract(src);
    let run = ex.defs.iter().position(|d| d.name == "run").unwrap();
    assert!(ex
        .calls
        .iter()
        .any(|c| c.name == "Calc" && c.from_def == run)); // new Calc()
    assert!(ex
        .calls
        .iter()
        .any(|c| c.name == "push" && c.qualifier.is_some() && c.from_def == run));
}

#[test]
fn extracts_nested_test_ids() {
    let ex = extract(MATH_TEST_TS);
    let tests: Vec<_> = ex.defs.iter().filter(|d| d.kind == DefKind::TestCase).collect();
    let ids: Vec<_> = tests.iter().filter_map(|d| d.test_id.clone()).collect();
    assert!(ids.contains(&vec!["add".into(), "handles negatives".into()]));
    assert!(ids.contains(&vec!["add".into(), "handles zero".into()]));
    assert!(ids.contains(&vec!["mul works".into()]));
    let computed = tests.iter().find(|d| d.computed_name).expect("computed-name test found");
    assert_eq!(computed.test_id.as_ref().unwrap()[0], "Calc"); // chain truncated at describe
}

#[test]
fn extracts_imports() {
    let ex = extract(FORMAT_TS);
    assert_eq!(ex.imports.iter().map(|i| i.raw.as_str()).collect::<Vec<_>>(), vec!["./math"]);
}

#[test]
fn resolves_relative_extensionless_index_and_js_suffix() {
    let mut repo = RepoFacts::new(None);
    for file in ["src/math.ts", "src/format.ts", "src/format.test.ts", "src/index.ts"] {
        repo.note(file);
    }
    let l = TsLanguage;
    assert_eq!(
        l.resolve_import("src/format.ts", "./math", &repo),
        Some("src/math.ts".to_string())
    );
    assert_eq!(
        l.resolve_import("src/format.test.ts", "./index", &repo),
        Some("src/index.ts".to_string())
    );
    assert_eq!(
        l.resolve_import("src/format.ts", "./math.js", &repo),
        Some("src/math.ts".to_string())
    );
    assert_eq!(l.resolve_import("src/format.ts", "vitest", &repo), None);
}

#[test]
fn each_curried_calls_extract_as_computed_not_spurious() {
    let src = r#"
import { describe, it } from "vitest";
describe("math", () => {
  it.each([
    [1, 2],
    [3, 4],
  ])("adds %i and %i", (a, b) => {
    expect(a + b).toBeGreaterThan(0);
  });
});
"#;
    let ex = extract(src);
    let tests: Vec<_> = ex.defs.iter().filter(|d| d.kind == DefKind::TestCase).collect();
    assert_eq!(tests.len(), 1);
    assert_eq!(tests[0].test_id.as_ref().unwrap()[0], "math");
    assert!(tests[0].computed_name);
    // no spurious empty-chain defs
    assert!(tests.iter().all(|d| !d.test_id.as_ref().unwrap().is_empty()));
    // The def must be attributed to the OUTER curried call (`it.each(table)("adds %i and %i", cb)`),
    // which spans through the callback's closing `});` on line 9 — not the INNER
    // `it.each(table)` call alone, which ends at the array's closing `])` on line 7.
    assert!(
        tests[0].end_line >= 9,
        "expected span to cover the outer call's callback (end_line >= 9), got {}",
        tests[0].end_line
    );
}

const MATH_TS_REFORMATTED: &str = r#"
// header comment
export function add(
  a: number,
  b: number
): number {
  // adds two numbers
  return a + b;
}

export const mul = (a: number, b: number): number =>
  a * b; // multiply

export class Calc {
  total = 0;

  push(n: number) {
    /* accumulate */
    this.total = add(this.total, n);
  }
}

console.log("side effect at import"); // side effect
"#;

#[test]
fn comment_and_formatting_changes_yield_no_def_changes() {
    let old = extract(MATH_TS);
    let new = extract(MATH_TS_REFORMATTED);

    let changes = diff_defs(&old, &new);
    assert_eq!(
        changes,
        vec![],
        "comment/formatting-only diff must be empty"
    );
}
