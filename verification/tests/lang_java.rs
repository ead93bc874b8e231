use testless::classify::parse_and_extract;
use testless::graph::DefKind;
use testless::java_index::{source_root_of, Dir};
use testless::lang_java::{simple_type_name, test_id_for, JavaLanguage};
use testless::language::{Extraction, Language, RepoFacts};

fn extract(src: &str) -> Extraction {
    parse_and_extract(&JavaLanguage::default(), "X.java", src).unwrap()
}

const CALC_JAVA: &str = r#"package com.example.calc;

public class Calc {
    public int add(int a, int b) { return a + b; }

    public int mul(int a, int b) { return a * b; }

    public int addTwice(int a, int b) { return add(add(a, b), b); }
}
"#;

const REPORT_JAVA: &str = r#"package com.example.report;

import com.example.calc.Calc;

public class Report {
    private final Calc calc;

    public Report(Calc calc) { this.calc = calc; }

    public String total(int a, int b) { return "total: " + calc.add(a, b); }
}
"#;

const CALC_TEST_JAVA: &str = r#"package com.example.calc;

import static org.junit.jupiter.api.Assertions.assertEquals;

import org.junit.jupiter.api.Nested;
import org.junit.jupiter.api.Test;
import org.junit.jupiter.params.ParameterizedTest;
import org.junit.jupiter.params.provider.ValueSource;

class CalcTest {
    private final Calc calc = new Calc();

    @Test
    void addsNegatives() { assertEquals(-3, calc.add(-1, -2)); }

    @Test
    void multiplies() { assertEquals(6, calc.mul(2, 3)); }

    @ParameterizedTest
    @ValueSource(ints = {1, 2})
    void addsZeroIdentity(int n) { assertEquals(n, calc.add(n, 0)); }

    @Nested
    class WhenDoubling {
        @Test
        void doublesTheSum() { assertEquals(5, calc.addTwice(1, 2)); }
    }
}
"#;

const REPORT_TEST_JAVA: &str = r#"package com.example.report;

import static org.junit.jupiter.api.Assertions.assertEquals;

import com.example.calc.Calc;
import org.junit.jupiter.api.Test;

class ReportTest {
    @Test
    void reportsTheTotal() {
        Report report = new Report(new Calc());
        assertEquals("total: 3", report.total(1, 2));
    }
}
"#;

fn dir(name: &str, dirs: Vec<Dir>, files: &[&str]) -> Dir {
    Dir {
        name: name.to_string(),
        dirs,
        files: files.iter().map(|f| f.to_string()).collect(),
    }
}

/// One source root: `java/com/example` with the packages `calc` and `report`.
fn source_root(calc: &str, report: &str) -> Dir {
    let packages = vec![dir("calc", vec![], &[calc]), dir("report", vec![], &[report])];
    let example = dir("example", packages, &[]);
    dir("java", vec![dir("com", vec![example], &[])], &[])
}

/// A repository with a main and a test source root.
fn java_app() -> Dir {
    let main = dir("main", vec![source_root("Calc.java", "Report.java")], &[]);
    let test = dir("test", vec![source_root("CalcTest.java", "ReportTest.java")], &[]);
    dir("", vec![dir("src", vec![main, test], &[])], &["pom.xml"])
}

#[test]
fn extracts_classes_and_methods() {
    let ex = extract(CALC_JAVA);
    let names: Vec<(&str, DefKind)> = ex.defs.iter().map(|d| (d.name.as_str(), d.kind)).collect();
    assert!(names.contains(&("Calc", DefKind::Class)));
    assert!(names.contains(&("Calc.add", DefKind::Method)));
    assert!(names.contains(&("Calc.addTwice", DefKind::Method)));
    assert!(names.contains(&("<module>", DefKind::ModuleInit)));
    // Nothing in a non-test class should be a TestCase.
    assert!(!names.iter().any(|(_, k)| *k == DefKind::TestCase));
}

#[test]
fn constructors_are_methods() {
    let ex = extract(REPORT_JAVA);
    let names: Vec<&str> = ex.defs.iter().map(|d| d.name.as_str()).collect();
    assert!(names.contains(&"Report.Report"));
}

#[test]
fn extracts_junit_tests_with_fqcn_test_ids() {
    let ex = extract(CALC_TEST_JAVA);
    let ids: Vec<Vec<String>> = ex
        .defs
        .iter()
        .filter(|d| d.kind == DefKind::TestCase)
        .map(|d| d.test_id.clone().unwrap())
        .collect();

    assert!(ids.contains(&vec![
        "com.example.calc.CalcTest".to_string(),
        "addsNegatives".to_string()
    ]));
    assert!(ids.contains(&vec![
        "com.example.calc.CalcTest".to_string(),
        "multiplies".to_string()
    ]));
    // A @ParameterizedTest is still filterable by method name.
    assert!(ids.contains(&vec![
        "com.example.calc.CalcTest".to_string(),
        "addsZeroIdentity".to_string()
    ]));
    // A @Nested class contributes its simple name as a middle segment.
    assert!(ids.contains(&vec![
        "com.example.calc.CalcTest".to_string(),
        "WhenDoubling".to_string(),
        "doublesTheSum".to_string()
    ]));
}

/// Java test identity is always a static method name — there is no
/// template-literal equivalent — so nothing should ever come back
/// `computed_name`, including the parameterized and nested cases.
#[test]
fn java_tests_are_never_computed() {
    let ex = extract(CALC_TEST_JAVA);
    assert!(ex
        .defs
        .iter()
        .filter(|d| d.kind == DefKind::TestCase)
        .all(|d| !d.computed_name));
}

#[test]
fn fully_qualified_test_annotation_still_counts() {
    let src = r#"package com.foo;
class BarTest {
    @org.junit.jupiter.api.Test
    void works() {}
}
"#;
    let ex = extract(src);
    let ids: Vec<Vec<String>> = ex
        .defs
        .iter()
        .filter(|d| d.kind == DefKind::TestCase)
        .map(|d| d.test_id.clone().unwrap())
        .collect();
    assert_eq!(ids, vec![vec!["com.foo.BarTest", "works"]]);
}

/// An unannotated method in a test class is a plain `Method`, not a test:
/// selecting it as a runnable test would print a command that matches
/// nothing.
#[test]
fn helper_methods_in_test_classes_are_not_tests() {
    let src = r#"package com.foo;
import org.junit.jupiter.api.Test;
class BarTest {
    private int helper() { return 1; }
    @Test
    void works() {}
}
"#;
    let ex = extract(src);
    let tests: Vec<&str> = ex
        .defs
        .iter()
        .filter(|d| d.kind == DefKind::TestCase)
        .map(|d| d.name.as_str())
        .collect();
    assert_eq!(tests, vec!["BarTest.works"]);
    assert!(ex
        .defs
        .iter()
        .any(|d| d.name == "BarTest.helper" && d.kind == DefKind::Method));
}

#[test]
fn default_package_test_id_has_no_prefix() {
    let src = r#"import org.junit.jupiter.api.Test;
class BarTest {
    @Test
    void works() {}
}
"#;
    let ex = extract(src);
    let ids: Vec<Vec<String>> = ex
        .defs
        .iter()
        .filter(|d| d.kind == DefKind::TestCase)
        .map(|d| d.test_id.clone().unwrap())
        .collect();
    assert_eq!(ids, vec![vec!["BarTest", "works"]]);
}

#[test]
fn collects_imports_including_wildcard_and_static() {
    let src = r#"package com.foo;

import com.foo.core.Calc;
import com.foo.util.*;
import static org.junit.jupiter.api.Assertions.assertEquals;

class BarTest {}
"#;
    let ex = extract(src);
    let raws: Vec<&str> = ex.imports.iter().map(|i| i.raw.as_str()).collect();
    assert_eq!(
        raws,
        vec![
            "com.foo.core.Calc",
            "com.foo.util.*",
            "org.junit.jupiter.api.Assertions.assertEquals"
        ]
    );
}

/// The `@Test` annotation names a JUnit type, not a symbol this file
/// references; treating it as a read would attach a bogus edge to every
/// test method.
#[test]
fn annotation_names_are_not_reads() {
    let src = r#"package com.foo;
import org.junit.jupiter.api.Test;
class BarTest {
    @Test
    void works() {}
}
"#;
    let ex = extract(src);
    assert!(
        !ex.reads.iter().any(|r| r.name == "Test"),
        "annotation name leaked into reads: {:?}",
        ex.reads
    );
}

/// An annotation's *arguments*, unlike its name, hold real references —
/// `@ExtendWith(MockitoExtension.class)` is a genuine dependency.
#[test]
fn annotation_arguments_are_still_scanned() {
    let src = r#"package com.foo;
import org.junit.jupiter.api.extension.ExtendWith;
class BarTest {
    @ExtendWith(MockitoExtension.class)
    void works() {}
}
"#;
    let ex = extract(src);
    assert!(
        ex.reads.iter().any(|r| r.name == "MockitoExtension"),
        "annotation argument type was dropped: {:?}",
        ex.reads
    );
}

#[test]
fn package_key_spans_parallel_source_roots() {
    let lang = JavaLanguage::default();
    let main = lang.package_key("src/main/java/com/example/calc/Calc.java");
    let test = lang.package_key("src/test/java/com/example/calc/CalcTest.java");
    assert_eq!(main, test);
    assert_eq!(main, Some("com/example/calc".to_string()));
}

#[test]
fn package_key_keeps_modules_apart() {
    let lang = JavaLanguage::default();
    let billing = lang.package_key("services/billing/src/main/java/com/foo/A.java");
    let ledger = lang.package_key("services/ledger/src/main/java/com/foo/A.java");
    assert_ne!(billing, ledger);
    assert_eq!(billing, Some("services/billing/com/foo".to_string()));
}

#[test]
fn package_key_falls_back_to_directory_outside_source_roots() {
    let lang = JavaLanguage::default();
    assert_eq!(
        lang.package_key("scripts/Tool.java"),
        Some("scripts".to_string())
    );
}

fn parent_name(ex: &Extraction, name: &str) -> Option<String> {
    let d = ex.defs.iter().find(|d| d.name == name)?;
    d.parent.map(|p| ex.defs[p].name.clone())
}

/// A framework-annotated member is invoked by a container, never by name, so
/// it must hang off its class — otherwise a change to it reaches no test at
/// all.
#[test]
fn framework_annotated_members_parent_to_their_class() {
    let src = r#"package com.foo;
class Config {
    @Bean
    JsonFactory jsonFactory() { return new JsonFactory(); }

    @Autowired
    private Helper helper;
}
"#;
    let ex = extract(src);
    assert_eq!(
        parent_name(&ex, "Config.jsonFactory").as_deref(),
        Some("Config")
    );
    assert_eq!(parent_name(&ex, "Config#helper").as_deref(), Some("Config"));
}

/// `@Override` is on a huge share of Java methods and means nothing to any
/// runtime, so it must NOT imply container invocation.
#[test]
fn inert_annotations_do_not_imply_containment() {
    let src = r#"package com.foo;
class Impl {
    @Override
    public String toString() { return "x"; }

    @SuppressWarnings("unchecked")
    void unchecked() {}

    void plain() {}
}
"#;
    let ex = extract(src);
    for m in ["Impl.toString", "Impl.unchecked", "Impl.plain"] {
        assert_eq!(parent_name(&ex, m), None, "{m} should not parent to class");
    }
}

/// Fields become defs, named `Class#field` rather than `Class.field`: the
/// indexer keys on the segment after the last `.`, so the dotted form would
/// be indexed as bare `field` and two classes' same-named fields would
/// cross-link.
#[test]
fn fields_become_class_scoped_defs() {
    let src = r#"package com.foo;
class T {
    private final Runner contextRunner = new Runner();
    private int a = 1, b = 2;
}
"#;
    let ex = extract(src);
    let names: Vec<&str> = ex.defs.iter().map(|d| d.name.as_str()).collect();
    assert!(names.contains(&"T#contextRunner"), "{names:?}");
    // One def per declarator, not per statement.
    assert!(names.contains(&"T#a"), "{names:?}");
    assert!(names.contains(&"T#b"), "{names:?}");
}

#[test]
fn extracts_qualified_method_calls() {
    let ex = extract(CALC_TEST_JAVA);
    let from = ex
        .defs
        .iter()
        .position(|d| d.name == "CalcTest.addsNegatives")
        .unwrap();
    assert!(
        ex.calls.iter().any(|c| c.name == "add"
            && c.qualifier.as_deref() == Some("calc")
            && c.from_def == from),
        "calls: {:?}",
        ex.calls
    );
}

/// `new Calc()` is both a constructor call and a dependency on the class,
/// recorded under the type's simple name so it matches the `Class` def.
#[test]
fn object_creation_is_a_call_on_the_type() {
    let ex = extract(REPORT_TEST_JAVA);
    let names: Vec<&str> = ex.calls.iter().map(|c| c.name.as_str()).collect();
    assert!(names.contains(&"Calc"), "calls: {:?}", ex.calls);
    assert!(names.contains(&"Report"), "calls: {:?}", ex.calls);
}

#[test]
fn qualified_object_creation_uses_simple_name() {
    let src = r#"package com.foo;
class A {
    void go() { Object x = new com.example.calc.Calc(); }
}
"#;
    let ex = extract(src);
    assert!(
        ex.calls.iter().any(|c| c.name == "Calc"),
        "calls: {:?}",
        ex.calls
    );
}

/// A field or parameter *type* is a real structural dependency even when no
/// method of it is called by name — this is the edge that makes
/// dependency-injected Java code visible to the graph at all.
#[test]
fn field_and_parameter_types_are_reads() {
    let ex = extract(REPORT_JAVA);
    assert!(
        ex.reads.iter().any(|r| r.name == "Calc"),
        "reads: {:?}",
        ex.reads
    );
}

#[test]
fn injected_type_is_seen_even_with_no_call() {
    let src = r#"package com.foo;
class Service {
    private final Repo repo;
    Service(Repo repo) { this.repo = repo; }
}
"#;
    let ex = extract(src);
    assert!(
        ex.reads.iter().any(|r| r.name == "Repo"),
        "reads: {:?}",
        ex.reads
    );
}

/// Refs must attribute to the enclosing method, not to the class or to
/// `<module>`, or impact would widen to every test in the file.
#[test]
fn refs_attribute_to_the_enclosing_method() {
    let ex = extract(CALC_TEST_JAVA);
    let multiplies = ex
        .defs
        .iter()
        .position(|d| d.name == "CalcTest.multiplies")
        .unwrap();
    let mul_call = ex
        .calls
        .iter()
        .find(|c| c.name == "mul")
        .expect("mul call missing");
    assert_eq!(mul_call.from_def, multiplies);
}

#[test]
fn nested_class_method_refs_attribute_to_the_nested_method() {
    let ex = extract(CALC_TEST_JAVA);
    let nested = ex
        .defs
        .iter()
        .position(|d| d.name == "WhenDoubling.doublesTheSum")
        .unwrap();
    let call = ex
        .calls
        .iter()
        .find(|c| c.name == "addTwice")
        .expect("addTwice call missing");
    assert_eq!(call.from_def, nested);
}

#[test]
fn resolves_same_module_import_to_the_class_file() {
    let lang = JavaLanguage::for_repo(&java_app());
    let resolved = lang.resolve_import(
        "src/test/java/com/example/report/ReportTest.java",
        "com.example.calc.Calc",
        &RepoFacts::new(None),
    );
    assert_eq!(
        resolved,
        Some("src/main/java/com/example/calc/Calc.java".to_string())
    );
}

/// The importing file's own source root is tried first, but a class that
/// only exists in the *other* root must still resolve — that cross-root
/// hop is how every test reaches the code it tests.
#[test]
fn resolves_across_source_roots() {
    let lang = JavaLanguage::for_repo(&java_app());
    let resolved = lang.resolve_import(
        "src/main/java/com/example/report/Report.java",
        "com.example.calc.Calc",
        &RepoFacts::new(None),
    );
    assert_eq!(
        resolved,
        Some("src/main/java/com/example/calc/Calc.java".to_string())
    );
}

#[test]
fn resolves_wildcard_import_to_the_package_directory() {
    let lang = JavaLanguage::for_repo(&java_app());
    let resolved = lang.resolve_import(
        "src/test/java/com/example/report/ReportTest.java",
        "com.example.calc.*",
        &RepoFacts::new(None),
    );
    assert_eq!(
        resolved,
        Some("src/main/java/com/example/calc".to_string())
    );
}

/// `import static a.b.C.member` names a member, so the last segment has to
/// be dropped before the file probe can hit `C.java`.
#[test]
fn resolves_static_member_import_to_its_owning_class() {
    let lang = JavaLanguage::for_repo(&java_app());
    let resolved = lang.resolve_import(
        "src/test/java/com/example/report/ReportTest.java",
        "com.example.calc.Calc.add",
        &RepoFacts::new(None),
    );
    assert_eq!(
        resolved,
        Some("src/main/java/com/example/calc/Calc.java".to_string())
    );
}

#[test]
fn external_imports_do_not_resolve() {
    let lang = JavaLanguage::for_repo(&java_app());
    for raw in [
        "java.util.List",
        "org.junit.jupiter.api.Test",
        "com.nope.Missing",
    ] {
        assert_eq!(
            lang.resolve_import(
                "src/test/java/com/example/calc/CalcTest.java",
                raw,
                &RepoFacts::new(None),
            ),
            None,
            "{raw} should not resolve"
        );
    }
}

/// The JUnit fixture-field shape: the dependency lives on a field
/// initializer and every test reaches it through `this.<field>`. Without
/// both halves — a def for the field, and extraction of `this.x` — the
/// chain from the fixture to the tests does not exist.
#[test]
fn this_field_access_links_methods_to_the_fixture_field() {
    let src = r#"package com.foo;
import org.junit.jupiter.api.Test;

class BarTest {
    private final Runner contextRunner = Auto.of(Subject.class);

    @Test
    void usesFixture() {
        this.contextRunner.run();
    }

    @Test
    void usesFixtureUnqualified() {
        contextRunner.run();
    }
}
"#;
    let ex = extract(src);
    let field = ex
        .defs
        .iter()
        .position(|d| d.name == "BarTest#contextRunner")
        .expect("field def missing");
    // The initializer's dependency attributes to the field, not the class.
    assert!(
        ex.reads
            .iter()
            .any(|r| r.name == "Subject" && r.from_def == field),
        "reads: {:?}",
        ex.reads
    );
    // Both `this.x` and bare `x` link their method to the field def.
    for method in ["BarTest.usesFixture", "BarTest.usesFixtureUnqualified"] {
        let idx = ex.defs.iter().position(|d| d.name == method).unwrap();
        assert!(
            ex.reads
                .iter()
                .any(|r| r.name == "BarTest#contextRunner" && r.from_def == idx),
            "{method} did not read the fixture field: {:?}",
            ex.reads
        );
    }
}

/// Two classes each holding a same-named field must not link together: a
/// bare field name resolves in its own class, never a sibling's.
#[test]
fn same_named_fields_in_different_classes_do_not_collide() {
    let src = r#"package com.foo;
class A {
    private final Gson gson = new Gson();
    void useA() { gson.toJson(1); }
}
class B {
    private final Gson gson = new Gson();
    void useB() { gson.toJson(2); }
}
"#;
    let ex = extract(src);
    let use_a = ex.defs.iter().position(|d| d.name == "A.useA").unwrap();
    let use_b = ex.defs.iter().position(|d| d.name == "B.useB").unwrap();
    assert!(ex
        .reads
        .iter()
        .any(|r| r.name == "A#gson" && r.from_def == use_a));
    assert!(ex
        .reads
        .iter()
        .any(|r| r.name == "B#gson" && r.from_def == use_b));
    // Neither method may reference the other class's field.
    assert!(!ex
        .reads
        .iter()
        .any(|r| r.name == "B#gson" && r.from_def == use_a));
    assert!(!ex
        .reads
        .iter()
        .any(|r| r.name == "A#gson" && r.from_def == use_b));
}

/// An *inherited* field isn't in this file's own class, so it must fall back
/// to bare-name matching rather than resolving to nothing — over-approximate
/// rather than miss the declaration.
#[test]
fn inherited_field_falls_back_to_bare_name() {
    let src = r#"package com.foo;
import org.junit.jupiter.api.Test;

class ChildTest extends AbstractBaseTest {
    @Test
    void usesInherited() { gson.toJson(1); }
}
"#;
    let ex = extract(src);
    let idx = ex
        .defs
        .iter()
        .position(|d| d.name == "ChildTest.usesInherited")
        .unwrap();
    // Not `ChildTest#gson` — the class doesn't declare it — but the bare
    // name must still be recorded so the superclass's field is reachable.
    assert!(
        !ex.reads
            .iter()
            .any(|r| r.name == "ChildTest#gson" && r.from_def == idx),
        "reads: {:?}",
        ex.reads
    );
}

#[test]
fn source_root_of_finds_conventional_layout() {
    assert_eq!(
        source_root_of("services/billing/src/test/java/com/foo/BarTest.java"),
        Some("services/billing/src/test/java".to_string())
    );
    assert_eq!(
        source_root_of("src/main/java/com/foo/Bar.java"),
        Some("src/main/java".to_string())
    );
    assert_eq!(source_root_of("java/com/foo/Bar.java"), None);
}

#[test]
fn simple_type_name_strips_package_and_generics() {
    assert_eq!(simple_type_name("Calc"), "Calc");
    assert_eq!(simple_type_name("com.foo.Calc"), "Calc");
    assert_eq!(simple_type_name("List<String>"), "List");
    assert_eq!(simple_type_name("java.util.List<String>"), "List");
}

#[test]
fn test_id_qualifies_outer_class_and_keeps_nesting() {
    let package = Some("com.foo".to_string());
    assert_eq!(
        test_id_for(&package, &vec!["BarTest".to_string()], "adds"),
        vec!["com.foo.BarTest", "adds"]
    );
    assert_eq!(
        test_id_for(
            &package,
            &vec!["BarTest".to_string(), "WhenEmpty".to_string()],
            "throws"
        ),
        vec!["com.foo.BarTest", "WhenEmpty", "throws"]
    );
    // Default package: no prefix to qualify with.
    assert_eq!(
        test_id_for(&None, &vec!["BarTest".to_string()], "adds"),
        vec!["BarTest", "adds"]
    );
}
