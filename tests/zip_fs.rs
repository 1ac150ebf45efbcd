use excel_parser::zipfs::{admit_entry, entry_outcome};
use excel_parser::{FilterSet, ZipFs, ZipFsError};
use std::io::{Cursor, Write};
use zip::write::SimpleFileOptions;
use zip::{CompressionMethod, ZipWriter};

fn build_zip(entries: &[(&str, &[u8])], dirs: &[&str]) -> Vec<u8> {
    let mut w = ZipWriter::new(Cursor::new(Vec::new()));
    let stored = SimpleFileOptions::default().compression_method(CompressionMethod::Stored);
    for d in dirs {
        w.add_directory(*d, stored).unwrap();
    }
    for (name, data) in entries {
        w.start_file(*name, stored).unwrap();
        w.write_all(data).unwrap();
    }
    w.finish().unwrap().into_inner()
}

fn sample() -> Vec<u8> {
    build_zip(
        &[
            ("a/b.txt", b"hello"),
            ("a/c/d.txt", b"deep"),
            ("root.txt", b"top"),
            ("a/e.xml", b"<x/>"),
        ],
        &["a/", "a/c/"],
    )
}

#[test]
fn loads_every_file_without_filter() {
    let fs = ZipFs::new(sample(), None, None).unwrap();
    assert_eq!(fs.get_file("a/b.txt"), Some(&b"hello"[..]));
    assert_eq!(fs.get_file("a/c/d.txt"), Some(&b"deep"[..]));
    assert_eq!(fs.get_file("root.txt"), Some(&b"top"[..]));
    assert_eq!(fs.get_file("missing.txt"), None);
}

#[test]
fn get_file_normalizes_its_argument() {
    let fs = ZipFs::new(sample(), None, None).unwrap();
    assert_eq!(fs.get_file("/a\\b.txt"), Some(&b"hello"[..]));
}

#[test]
fn list_files_gives_immediate_children_only() {
    let fs = ZipFs::new(sample(), None, None).unwrap();
    assert_eq!(fs.list_files("a"), vec!["a/b.txt", "a/e.xml"]);
    assert_eq!(fs.list_files("a/c"), vec!["a/c/d.txt"]);
    assert_eq!(fs.list_files("/a/c/"), vec!["a/c/d.txt"]);
    assert_eq!(fs.list_files(""), vec!["root.txt"]);
    assert!(fs.list_files("nope").is_empty());
}

#[test]
fn listed_files_are_found() {
    let fs = ZipFs::new(sample(), None, None).unwrap();
    for d in ["", "a", "a/c"] {
        for p in fs.list_files(d) {
            assert!(fs.get_file(p).is_some());
        }
    }
}

#[test]
fn directories_are_not_files() {
    let fs = ZipFs::new(sample(), None, None).unwrap();
    assert_eq!(fs.get_file("a/"), None);
    assert_eq!(fs.get_file("a"), None);
}

#[test]
fn filter_selects_entries() {
    let mut f = FilterSet::new();
    f.add_exact("a/b.txt").unwrap();
    f.add_glob("a/*.xml").unwrap();
    let fs = ZipFs::new(sample(), Some(f), None).unwrap();
    assert_eq!(fs.get_file("a/b.txt"), Some(&b"hello"[..]));
    assert_eq!(fs.get_file("a/e.xml"), Some(&b"<x/>"[..]));
    assert_eq!(fs.get_file("root.txt"), None);
    assert_eq!(fs.get_file("a/c/d.txt"), None);
    assert!(fs.list_files("a/c").is_empty());
}

#[test]
fn empty_filter_loads_nothing() {
    let fs = ZipFs::new(sample(), Some(FilterSet::new()), None).unwrap();
    assert!(fs.list_files("").is_empty());
    assert!(fs.list_files("a").is_empty());
    assert_eq!(fs.get_file("a/b.txt"), None);
}

#[test]
fn size_ceiling_refuses_large_archive() {
    let data = sample();
    let len = data.len() as u64;
    match ZipFs::new(data, None, Some(len - 1)) {
        Err(ZipFsError::ArchiveTooLarge(actual, limit)) => {
            assert_eq!(actual, len);
            assert_eq!(limit, len - 1);
        }
        _ => panic!("expected ArchiveTooLarge"),
    }
}

#[test]
fn size_ceiling_admits_archive_at_limit() {
    let data = sample();
    let len = data.len() as u64;
    let fs = ZipFs::new(data, None, Some(len)).unwrap();
    assert!(fs.get_file("a/b.txt").is_some());
}

#[test]
fn malformed_archive_is_refused() {
    let r = ZipFs::new(b"this is not a zip archive".to_vec(), None, None);
    assert!(matches!(r, Err(ZipFsError::Zip(_))));
    let r = ZipFs::new(Vec::new(), None, Some(10));
    assert!(matches!(r, Err(ZipFsError::Zip(_))));
}

#[test]
fn unsafe_and_backslash_names() {
    let data = build_zip(
        &[
            ("../evil.txt", b"x"),
            ("dir\\win.txt", b"w"),
            ("/abs.txt", b"a"),
            ("\\lead.txt", b"l"),
            ("d//twice.txt", b"t"),
        ],
        &[],
    );
    let fs = ZipFs::new(data, None, None).unwrap();
    assert_eq!(fs.get_file("../evil.txt"), None);
    assert_eq!(fs.get_file("evil.txt"), None);
    assert_eq!(fs.get_file("dir/win.txt"), Some(&b"w"[..]));
    assert_eq!(fs.list_files("dir"), vec!["dir/win.txt"]);
    assert_eq!(fs.list_files(""), vec!["abs.txt", "lead.txt"]);
    assert_eq!(fs.get_file("lead.txt"), Some(&b"l"[..]));
    assert_eq!(fs.get_file("\\lead.txt"), Some(&b"l"[..]));
    // A file whose directory ends in `/` is loaded and found again.
    assert_eq!(fs.get_file("d//twice.txt"), Some(&b"t"[..]));
    for d in ["", "dir", "d", "d/"] {
        for p in fs.list_files(d) {
            assert!(fs.get_file(p).is_some());
        }
    }
}

#[test]
fn corrupted_entry_is_skipped() {
    let mut data = build_zip(&[("one.txt", b"1111"), ("two.txt", b"2222"), ("three.txt", b"3333")], &[]);
    // Break the local header signature of the second entry.
    let sig = [0x50u8, 0x4b, 0x03, 0x04];
    let starts: Vec<usize> = (0..data.len() - 3).filter(|&i| data[i..i + 4] == sig).collect();
    assert_eq!(starts.len(), 3);
    data[starts[1]] = 0;
    let fs = ZipFs::new(data, None, None).unwrap();
    assert_eq!(fs.get_file("one.txt"), Some(&b"1111"[..]));
    assert_eq!(fs.get_file("two.txt"), None);
    assert_eq!(fs.get_file("three.txt"), Some(&b"3333"[..]));
    assert_eq!(fs.list_files(""), vec!["one.txt", "three.txt"]);
}

#[test]
fn duplicate_names_are_listed_once() {
    let mut w = ZipWriter::new(Cursor::new(Vec::new()));
    let stored = SimpleFileOptions::default().compression_method(CompressionMethod::Stored);
    w.start_file("x.txt", stored).unwrap();
    w.write_all(b"first").unwrap();
    w.start_file("/x.txt", stored).unwrap();
    w.write_all(b"second").unwrap();
    let data = w.finish().unwrap().into_inner();
    let fs = ZipFs::new(data, None, None).unwrap();
    assert_eq!(fs.list_files(""), vec!["x.txt"]);
    assert_eq!(fs.get_file("x.txt"), Some(&b"second"[..]));
}

#[test]
fn admit_entry_decides_per_name() {
    assert_eq!(admit_entry("/a\\b.txt", None), Some("a/b.txt".to_string()));
    assert_eq!(admit_entry("a/", None), None);
    assert_eq!(admit_entry("a\\", None), None);
    assert_eq!(admit_entry("../x", None), None);
    assert_eq!(admit_entry("", None), None);
    let mut f = FilterSet::new();
    f.add_glob("*.xml").unwrap();
    assert_eq!(admit_entry("a//b.txt", None), Some("a//b.txt".to_string()));
    assert_eq!(admit_entry("\\a.txt", None), Some("a.txt".to_string()));
    assert_eq!(admit_entry("s.xml", Some(&f)), Some("s.xml".to_string()));
    assert_eq!(admit_entry("s.txt", Some(&f)), None);
}

#[test]
fn entry_outcome_needs_every_part() {
    let p = || Some("a.txt".to_string());
    let c = || Some(b"xy".to_vec());
    assert_eq!(entry_outcome(p(), 2, true, c()), Some(("a.txt".to_string(), b"xy".to_vec())));
    assert_eq!(entry_outcome(None, 2, true, c()), None);
    assert_eq!(entry_outcome(p(), 2, false, c()), None);
    assert_eq!(entry_outcome(p(), 2, true, None), None);
    assert_eq!(entry_outcome(p(), 0, true, Some(Vec::new())), Some(("a.txt".to_string(), Vec::new())));
}
