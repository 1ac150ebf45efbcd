use excel_parser::{FilterSet, ZipFsError};

fn rules(exact: &[&str], globs: &[&str]) -> FilterSet {
    let mut f = FilterSet::new();
    for e in exact {
        f.add_exact(e).unwrap();
    }
    for g in globs {
        f.add_glob(g).unwrap();
    }
    f
}

#[test]
fn fresh_filter_set_is_empty() {
    assert!(FilterSet::new().is_empty());
    assert!(FilterSet::default().is_empty());
}

#[test]
fn filter_set_not_empty_after_adding() {
    assert!(!rules(&["a.txt"], &[]).is_empty());
    assert!(!rules(&[], &["*.xml"]).is_empty());
}

#[test]
fn filter_set_refuses_dot_dot() {
    let mut f = FilterSet::new();
    assert!(matches!(f.add_exact("a/../b"), Err(ZipFsError::InvalidPattern(_))));
    assert!(matches!(f.add_glob("../*.xml"), Err(ZipFsError::InvalidPattern(_))));
    assert!(matches!(f.add_exact(""), Err(ZipFsError::InvalidPattern(_))));
    assert!(matches!(f.add_glob("/"), Err(ZipFsError::InvalidPattern(_))));
    assert!(f.is_empty());
}

#[test]
fn refused_rule_keeps_earlier_rules() {
    let mut f = rules(&["a.txt"], &["*.xml"]);
    assert!(f.add_exact("../b.txt").is_err());
    assert!(f.add_glob("x/../*.txt").is_err());
    assert!(f.matches_str("a.txt"));
    assert!(f.matches_str("s.xml"));
    assert!(!f.matches_str("b.txt"));
}

#[test]
fn filter_set_accepts_brace_groups() {
    let f = rules(&[], &["a/{b,c}.xml"]);
    assert!(f.matches_str("a/b.xml"));
    assert!(f.matches_str("a/c.xml"));
    assert!(!f.matches_str("a/d.xml"));
}

#[test]
fn filter_set_refuses_too_many_braces() {
    let mut f = FilterSet::new();
    assert!(f.add_glob("{a}{b}{c}{d}{e}{f}{g}{h}{i}{j}").is_ok());
    assert!(matches!(f.add_glob("{a}{b}{c}{d}{e}{f}{g}{h}{i}{j}{k}"), Err(ZipFsError::InvalidPattern(_))));
    assert!(f.matches_str("abcdefghij"));
}

#[test]
fn filter_set_matches_exact_and_glob() {
    let f = rules(&["a/b.txt"], &["a/*.xml"]);
    assert!(f.matches_str("a/b.txt"));
    assert!(f.matches_str("a/c.xml"));
    // `*` does not cross a path separator.
    assert!(!f.matches_str("a/b/c.xml"));
    assert!(!f.matches_str("z.txt"));
    assert!(!f.matches_str("a/b.txt.bak"));
}

#[test]
fn filter_set_normalizes_rules() {
    let f = rules(&["/xl\\workbook.xml"], &["\\xl\\worksheets\\*.xml"]);
    assert!(f.matches_str("xl/workbook.xml"));
    assert!(f.matches_str("xl/worksheets/sheet1.xml"));
    assert!(!f.matches_str("xl/styles.xml"));
}

#[test]
fn filter_set_question_mark_and_globstar() {
    let f = rules(&[], &["a/?.txt", "b/**/*.xml"]);
    assert!(f.matches_str("a/x.txt"));
    assert!(!f.matches_str("a/xy.txt"));
    assert!(f.matches_str("b/c/d/e.xml"));
}

#[test]
fn empty_filter_set_matches_nothing() {
    let f = FilterSet::new();
    assert!(!f.matches_str("a.txt"));
}
