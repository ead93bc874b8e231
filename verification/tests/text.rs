use testless::text::{
    before, begins, cat, cat3, copy_all, cut_prefix, cut_suffix, ends, insert_line, is_space,
    join_with, number, occurs, same_all, split_on, tail_after, trimmed,
};

fn words(of: &[&str]) -> Vec<String> {
    of.iter().map(|s| s.to_string()).collect()
}

#[test]
fn splitting_and_joining_are_inverse() {
    for s in ["", "/", "a", "a/b", "/a//b/", "ä/ö"] {
        assert_eq!(join_with(&split_on(s, '/'), "/"), s);
    }
    assert_eq!(split_on("", '/'), words(&[""]));
    assert_eq!(split_on("a//b", '/'), words(&["a", "", "b"]));
}

#[test]
fn beginnings_ends_and_parts() {
    assert!(begins("TestAdd", "Test"));
    assert!(!begins("Te", "Test"));
    assert!(ends("a.test.ts", ".ts"));
    assert!(!ends("ts", ".ts"));
    assert!(occurs("a > b", ">"));
    assert!(occurs("a", ""));
    assert!(!occurs("", "a"));
    assert_eq!(cut_prefix("mod math", "mod "), Some("math".to_string()));
    assert_eq!(cut_prefix("use math", "mod "), None);
    assert_eq!(cut_suffix("math.js", ".js"), Some("math".to_string()));
    assert_eq!(cut_suffix("math.ts", ".js"), None);
    assert_eq!(tail_after("a.b.c", '.'), "c");
    assert_eq!(tail_after("abc", '.'), "abc");
}

#[test]
fn white_space_is_trimmed_at_both_ends() {
    assert_eq!(trimmed(" \t a b \n"), "a b");
    assert_eq!(trimmed("\u{2003}x\u{a0}"), "x");
    assert_eq!(trimmed("   "), "");
    for n in 0..=0x3100u32 {
        if let Some(c) = char::from_u32(n) {
            assert_eq!(is_space(c), c.is_whitespace(), "{n:#x}");
        }
    }
}

#[test]
fn order_is_by_code_points() {
    assert!(before("a", "b"));
    assert!(before("a", "ab"));
    assert!(before("Z", "a"));
    assert!(!before("a", "a"));
    assert!(before("", "a"));
    assert!(before("z", "é"));
}

#[test]
fn lines_are_kept_in_order_and_once() {
    let mut lines = vec![];
    for l in ["b", "a", "c", "a"] {
        insert_line(&mut lines, l.to_string());
    }
    assert_eq!(lines, words(&["a", "b", "c"]));
}

#[test]
fn numbers_are_written_in_decimal() {
    assert_eq!(number(0), "0");
    assert_eq!(number(7), "7");
    assert_eq!(number(1050), "1050");
    assert_eq!(number(u64::MAX), "18446744073709551615");
}

#[test]
fn texts_are_put_together_and_copied() {
    assert_eq!(cat("a", "b"), "ab");
    assert_eq!(cat3("a", "", "c"), "ac");
    let v = words(&["x", "y"]);
    assert!(same_all(&copy_all(&v), &v));
    assert!(!same_all(&v, &words(&["x"])));
    assert!(!same_all(&v, &words(&["x", "z"])));
}
