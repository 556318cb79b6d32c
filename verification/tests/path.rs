//! Paths and texts.

use diskscour::path::{
    components, file_name, is_absolute, join, normalized, parent, path_starts_with, same_path,
    strip_prefix, PathSet,
};
use diskscour::text::{
    align_right, comes_before, decimal_string, join_by, parse_i32, parse_u64, split_lines,
    split_words, to_lower, trim,
};

#[test]
fn paths_are_their_components() {
    assert_eq!(components("/a//b/./c/"), vec!["/", "a", "b", "c"]);
    assert_eq!(components("./a/.."), vec![".", "a", ".."]);
    assert!(components("").is_empty());
    assert!(same_path("/a/b", "/a//b/"));
    assert!(!same_path("/a/b", "a/b"));
    assert!(path_starts_with("/a/b/c", "/a/b"));
    assert!(!path_starts_with("/a/bc", "/a/b"));
    assert_eq!(normalized("/a//b/./c/"), "/a/b/c");
    assert!(is_absolute("/x") && !is_absolute("x"));
}

#[test]
fn paths_are_taken_apart_and_put_together() {
    assert_eq!(parent("/a/b").as_deref(), Some("/a"));
    assert_eq!(parent("/a").as_deref(), Some("/"));
    assert_eq!(parent("/"), None);
    assert_eq!(file_name("/a/b/").as_deref(), Some("b"));
    assert_eq!(file_name("/a/.."), None);
    assert_eq!(file_name("/"), None);
    assert_eq!(strip_prefix("/a/b/c", "/a").as_deref(), Some("b/c"));
    assert_eq!(strip_prefix("/a", "/a").as_deref(), Some(""));
    assert_eq!(strip_prefix("/ab", "/a"), None);
    assert_eq!(join("/a", "b"), "/a/b");
    assert_eq!(join("/a/", "b"), "/a/b");
    assert_eq!(join("/a", "/b"), "/b");
    assert_eq!(join("", "b"), "b");
}

#[test]
fn sets_of_paths_know_equal_paths() {
    let mut s = PathSet::new();
    assert!(s.insert("/a/b"));
    assert!(!s.insert("/a//b/"));
    assert!(s.contains("/a/./b"));
    assert_eq!(s.len(), 1);
}

#[test]
fn texts_are_read_and_laid_out() {
    assert_eq!(split_words(" a \t b\u{a0}c "), vec!["a", "b", "c"]);
    assert_eq!(split_lines("a\r\nb\n\nc"), vec!["a", "b", "", "c"]);
    assert_eq!(trim("\n x y\u{3000}"), "x y");
    assert_eq!(to_lower("AbÉ"), "abÉ");
    assert_eq!(decimal_string(u64::MAX), "18446744073709551615");
    assert_eq!(parse_u64("+18446744073709551615"), Some(u64::MAX));
    assert_eq!(parse_u64("18446744073709551616"), None);
    assert_eq!(parse_u64("-1"), None);
    assert_eq!(parse_i32("-2147483648"), Some(i32::MIN));
    assert_eq!(parse_i32("2147483648"), None);
    assert_eq!(align_right("é", 3), "  é");
    assert_eq!(align_right("abcd", 3), "abcd");
    assert_eq!(join_by(&vec!["a".to_string(), "b".to_string()], ", "), "a, b");
    assert_eq!(join_by(&vec![], ", "), "");
    assert!(comes_before("a", "b") && comes_before("a", "ab") && !comes_before("b", "a"));
    assert!(comes_before("z", "é") && !comes_before("a", "a"));
}
