use testless::java_index::{package_of, pick, source_root_of, Dir, RepoIndex};

fn dir(name: &str, dirs: Vec<Dir>, files: &[&str]) -> Dir {
    Dir {
        name: name.to_string(),
        dirs,
        files: files.iter().map(|f| f.to_string()).collect(),
    }
}

fn root(kind: &str, package: &str, files: &[&str]) -> Dir {
    dir(kind, vec![dir("java", vec![dir(package, vec![], files)], &[])], &[])
}

fn module(name: &str, roots: Vec<Dir>) -> Dir {
    dir(name, vec![dir("src", roots, &[])], &[])
}

/// Two modules that both declare `p.A`, one of them in both of its roots.
fn two_modules() -> Dir {
    dir(
        "",
        vec![
            module("one", vec![root("main", "p", &["A.java"]), root("test", "p", &["A.java", "ATest.java"])]),
            module("two", vec![root("main", "p", &["A.java", "B.java", "notes.txt"])]),
            dir("node_modules", vec![module("dep", vec![root("main", "p", &["C.java"])])], &[]),
        ],
        &[],
    )
}

#[test]
fn names_resolve_to_the_nearest_declaration() {
    let index = RepoIndex::of(&two_modules());
    let at = |from: &str, raw: &str| index.resolve(from, raw);
    assert_eq!(
        at("two/src/main/java/p/B.java", "p.A"),
        Some("two/src/main/java/p/A.java".to_string())
    );
    assert_eq!(
        at("one/src/test/java/p/ATest.java", "p.A"),
        Some("one/src/main/java/p/A.java".to_string())
    );
    // Only the other module declares it.
    assert_eq!(
        at("one/src/main/java/p/A.java", "p.B"),
        Some("two/src/main/java/p/B.java".to_string())
    );
    assert_eq!(
        at("one/src/main/java/p/A.java", "p.*"),
        Some("one/src/main/java/p".to_string())
    );
    assert_eq!(at("one/src/main/java/p/A.java", "p.notes"), None);
    // What dependencies bring along is not indexed.
    assert_eq!(at("one/src/main/java/p/A.java", "p.C"), None);
}

#[test]
fn an_empty_index_resolves_nothing() {
    assert_eq!(RepoIndex::new().resolve("src/main/java/p/A.java", "p.A"), None);
}

#[test]
fn the_nearest_candidate_is_picked() {
    let candidates: Vec<String> = [
        "two/src/main/java/p/A.java",
        "one/src/test/java/p/A.java",
        "one/src/main/java/p/A.java",
    ]
    .iter()
    .map(|s| s.to_string())
    .collect();
    let from = |f: &str| pick(&candidates, f).unwrap();
    assert_eq!(from("one/src/test/java/p/T.java"), "one/src/main/java/p/A.java");
    assert_eq!(from("two/src/test/java/p/T.java"), "two/src/main/java/p/A.java");
    assert_eq!(from("three/src/test/java/p/T.java"), "two/src/main/java/p/A.java");
    assert_eq!(pick(&vec![], "one/src/main/java/p/A.java"), None);
}

#[test]
fn a_class_and_its_test_share_their_package() {
    for module in ["", "services/billing/"] {
        let class = format!("{module}src/main/java/com/foo/A.java");
        let test = format!("{module}src/test/java/com/foo/ATest.java");
        assert_eq!(package_of(&class), package_of(&test));
    }
    assert_eq!(package_of("src/main/java/A.java"), "");
    assert_eq!(source_root_of("src/it/java/A.java"), Some("src/it/java".to_string()));
}
