use excel_parser::path_utils::{is_safe_path, normalize_dir, normalize_path, parent_dir, validate_path};
use excel_parser::ZipFsError;
use std::borrow::Cow;

#[test]
fn normalize_keeps_canonical_path_borrowed() {
    let r = normalize_path("xl/workbook.xml");
    assert!(matches!(r, Cow::Borrowed(_)));
    assert_eq!(r, "xl/workbook.xml");
}

#[test]
fn normalize_strips_leading_slashes_and_backslashes() {
    assert_eq!(normalize_path("///xl/styles.xml"), "xl/styles.xml");
    assert_eq!(normalize_path("xl\\worksheets\\sheet1.xml"), "xl/worksheets/sheet1.xml");
    assert_eq!(normalize_path("/a\\b"), "a/b");
    assert_eq!(normalize_path(""), "");
    assert_eq!(normalize_path("///"), "");
}

#[test]
fn normalize_is_idempotent_on_examples() {
    for p in ["a/b", "/a/b", "//a\\b\\c", "x", "", "a//b/", "\\a", "\\/\\x"] {
        let once = normalize_path(p).into_owned();
        let twice = normalize_path(&once).into_owned();
        assert_eq!(once, twice);
    }
}

#[test]
fn normalize_converts_backslashes_before_stripping() {
    assert_eq!(normalize_path("\\a"), "a");
    assert_eq!(normalize_path("/\\/a\\b"), "a/b");
    assert_eq!(normalize_dir("\\a\\"), "a");
    assert!(matches!(normalize_path("/a/b"), Cow::Borrowed(_)));
    assert!(matches!(normalize_path("a\\b"), Cow::Owned(_)));
}

#[test]
fn normalize_dir_strips_both_ends() {
    assert_eq!(normalize_dir("/a/b/"), "a/b");
    assert_eq!(normalize_dir("a"), "a");
    assert_eq!(normalize_dir("///"), "");
    assert_eq!(normalize_dir(""), "");
    assert_eq!(normalize_dir("a\\c\\"), "a/c");
    assert!(matches!(normalize_dir("a/c"), Cow::Borrowed(_)));
}

#[test]
fn parent_dir_takes_text_before_last_slash() {
    assert_eq!(parent_dir("a/b/c.txt"), "a/b");
    assert_eq!(parent_dir("c.txt"), "");
    assert_eq!(parent_dir("a/"), "a");
    assert_eq!(parent_dir("/x"), "");
    assert_eq!(parent_dir(""), "");
}

#[test]
fn is_safe_path_refuses_empty_and_dot_dot() {
    assert!(is_safe_path("a/b.txt"));
    assert!(is_safe_path("a/.hidden"));
    assert!(!is_safe_path(""));
    assert!(!is_safe_path("../etc/passwd"));
    assert!(!is_safe_path("a/../b"));
    assert!(!is_safe_path("file..txt"));
    assert!(!is_safe_path(".."));
}

#[test]
fn validate_path_normalizes_or_refuses() {
    assert_eq!(validate_path("/xl\\a.xml").unwrap(), "xl/a.xml");
    assert!(matches!(validate_path(""), Err(ZipFsError::InvalidPattern(_))));
    assert!(matches!(validate_path("///"), Err(ZipFsError::InvalidPattern(_))));
    assert!(matches!(validate_path("a/../b"), Err(ZipFsError::InvalidPattern(_))));
    assert!(matches!(validate_path("/..\\x"), Err(ZipFsError::InvalidPattern(_))));
    assert_eq!(validate_path("\\a").unwrap(), "a");
}
