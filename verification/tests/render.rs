use testless::render::{command_lines, sh_quote, SelectedTest};

fn test(file: &str, name: &[&str], runner: &str, computed: bool) -> SelectedTest {
    SelectedTest {
        file: file.to_string(),
        name: name.iter().map(|s| s.to_string()).collect(),
        runner: runner.to_string(),
        lang: "irrelevant".to_string(),
        computed,
    }
}

#[test]
fn vitest_simple() {
    let t = test(
        "src/math.test.ts",
        &["add", "handles negatives"],
        "vitest",
        false,
    );
    assert_eq!(
        command_lines(&[t]),
        vec!["vitest run src/math.test.ts -t 'add > handles negatives'"]
    );
}

#[test]
fn vitest_single_segment() {
    let t = test("src/format.test.ts", &["formats"], "vitest", false);
    assert_eq!(
        command_lines(&[t]),
        vec!["vitest run src/format.test.ts -t formats"]
    );
}

#[test]
fn vitest_computed_drops_dash_t() {
    let t = test("src/math.test.ts", &["add"], "vitest", true);
    assert_eq!(command_lines(&[t]), vec!["vitest run src/math.test.ts"]);
}

#[test]
fn gotest_simple() {
    let t = test(
        "pkg/calc/add_test.go",
        &["TestAdd", "negatives"],
        "gotest",
        false,
    );
    assert_eq!(
        command_lines(&[t]),
        vec!["go test ./pkg/calc -run '^TestAdd$/^negatives$'"]
    );
}

#[test]
fn gotest_root_level_file_has_no_dir() {
    let t = test("add_test.go", &["TestAdd"], "gotest", false);
    assert_eq!(command_lines(&[t]), vec!["go test . -run '^TestAdd$'"]);
}

#[test]
fn gotest_computed_segment_widens_to_dot_star() {
    let t = test(
        "pkg/calc/add_test.go",
        &["TestAdd", "<computed>"],
        "gotest",
        true,
    );
    assert_eq!(
        command_lines(&[t]),
        vec!["go test ./pkg/calc -run '^TestAdd$/.*'"]
    );
}

#[test]
fn gotest_escapes_regex_metachars() {
    let t = test("pkg/calc/add_test.go", &["TestAdd$weird"], "gotest", false);
    assert_eq!(
        command_lines(&[t]),
        vec!["go test ./pkg/calc -run '^TestAdd\\$weird$'"]
    );
}

#[test]
fn cargo_simple() {
    let t = test("src/lib.rs", &["math", "add_works"], "cargo", false);
    assert_eq!(
        command_lines(&[t]),
        vec!["cargo test math::add_works -- --exact"]
    );
}

#[test]
fn cargo_computed_drops_exact() {
    let t = test("src/lib.rs", &["math", "add_works"], "cargo", true);
    assert_eq!(command_lines(&[t]), vec!["cargo test math::add_works"]);
}

// Test names are free-form strings: quotes, dollar signs, backticks,
// backslashes and apostrophes all legitimately appear in `it(...)` /
// `t.Run(...)` names. `sh_quote` must render them so a shell (or the
// test runner's own arg parser) reconstructs the exact original bytes.
const WEIRD: &str = "a\"b$c`d\\e'f";

#[test]
fn sh_quote_passes_bare_tokens_through() {
    assert_eq!(sh_quote("TestAdd"), "TestAdd");
    assert_eq!(sh_quote("math::add_works"), "math::add_works");
    assert_eq!(sh_quote("./pkg/calc"), "./pkg/calc");
    assert_eq!(sh_quote("^TestAdd$"), "'^TestAdd$'");
}

#[test]
fn sh_quote_wraps_and_escapes_special_chars() {
    assert_eq!(sh_quote(WEIRD), "'a\"b$c`d\\e'\\''f'");
}

#[test]
fn sh_quote_empty_string_is_wrapped() {
    assert_eq!(sh_quote(""), "''");
}

#[test]
fn vitest_quotes_special_chars() {
    let t = test("src/weird.test.ts", &[WEIRD], "vitest", false);
    assert_eq!(
        command_lines(&[t]),
        vec!["vitest run src/weird.test.ts -t 'a\"b$c`d\\e'\\''f'"]
    );
}

#[test]
fn gotest_quotes_special_chars() {
    let t = test("pkg/weird_test.go", &[WEIRD], "gotest", false);
    assert_eq!(
        command_lines(&[t]),
        vec!["go test ./pkg -run '^a\"b\\$c`d\\\\e'\\''f$'"]
    );
}

#[test]
fn cargo_quotes_special_chars() {
    let t = test("src/lib.rs", &[WEIRD], "cargo", false);
    assert_eq!(
        command_lines(&[t]),
        vec!["cargo test 'a\"b$c`d\\e'\\''f' -- --exact"]
    );
}

#[test]
fn unknown_runner_is_skipped() {
    let t = test("weird.file", &["whatever"], "unknown", false);
    assert!(command_lines(&[t]).is_empty());
}

#[test]
fn dedup_and_deterministic_order() {
    let a = test("src/b.test.ts", &["z"], "vitest", true);
    let b = test("src/a.test.ts", &["y"], "vitest", true);
    // Two distinct computed entries collapse to distinct whole-file
    // lines (different files), but a duplicate input is deduped.
    let c = test("src/a.test.ts", &["y"], "vitest", true);
    let lines = command_lines(&[a, b, c]);
    assert_eq!(
        lines,
        vec!["vitest run src/a.test.ts", "vitest run src/b.test.ts"]
    );
}
