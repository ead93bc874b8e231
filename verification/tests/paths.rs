use std::path::Path;
use testless::paths::{
    canonical_path, directory, extension, file_name, file_stem, is_same_path, join_path, parent,
    path_before,
};

const PATHS: [&str; 22] = [
    "", "/", ".", "..", "a", "a/", "./a", "a/.", "a/..", "a//b", "a/./b", "/a", "/a/b/", "//a",
    "../a", "a.b", "a.b.c", ".a", ".a.b", "a.", "src/main/x.ts", "/.",
];

fn text(p: &Path) -> String {
    p.to_str().unwrap().to_string()
}

#[test]
fn names_and_extensions_are_those_of_the_file_system() {
    for p in PATHS {
        let path = Path::new(p);
        let name = path.file_name().map(|s| s.to_str().unwrap().to_string());
        assert_eq!(file_name(p), name, "file name of {p:?}");
        let stem = path.file_stem().map(|s| s.to_str().unwrap().to_string());
        assert_eq!(file_stem(p), stem, "stem of {p:?}");
        let ext = path.extension().map(|s| s.to_str().unwrap().to_string());
        assert_eq!(extension(p), ext, "extension of {p:?}");
    }
}

#[test]
fn parents_are_those_of_the_file_system() {
    for p in PATHS {
        let known = Path::new(p).parent();
        match (parent(p), known) {
            (Some(ours), Some(theirs)) => {
                assert!(is_same_path(&ours, &text(theirs)), "parent of {p:?}: {ours:?}");
            }
            (None, None) => {}
            other => panic!("parent of {p:?}: {other:?}"),
        }
    }
    assert_eq!(directory("a/b.ts"), "a");
    assert_eq!(directory("b.ts"), "");
}

#[test]
fn paths_compare_as_those_of_the_file_system() {
    for a in PATHS {
        for b in PATHS {
            let (x, y) = (Path::new(a), Path::new(b));
            assert_eq!(is_same_path(a, b), x == y, "{a:?} and {b:?}");
            assert_eq!(path_before(a, b), x < y, "{a:?} before {b:?}");
            assert_eq!(
                canonical_path(a) == canonical_path(b),
                x == y,
                "spellings of {a:?} and {b:?}"
            );
        }
    }
}

#[test]
fn joined_paths_are_those_of_the_file_system() {
    for a in PATHS {
        for b in PATHS {
            assert_eq!(join_path(a, b), text(&Path::new(a).join(b)), "{a:?} with {b:?}");
        }
    }
}

#[test]
fn spelling_a_path_out_twice_changes_nothing() {
    for p in PATHS {
        let once = canonical_path(p);
        assert_eq!(canonical_path(&once), once);
        assert!(is_same_path(&once, p));
    }
    assert_eq!(canonical_path("a//./b/"), "a/b");
}
