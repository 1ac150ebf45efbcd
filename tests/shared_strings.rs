use excel_parser::shared_strings::{rank_matches, SharedStringsBuilder, XmlEvent};
use excel_parser::SharedStrings;

const XML: &str = "<?xml version=\"1.0\"?><sst count=\"3\"><si><t>First string</t></si><si><t>Second </t><t>string</t></si><si><r><t xml:space=\"preserve\">  spaced  </t></r></si></sst>";

#[test]
fn load_reads_each_item() {
    let s = SharedStrings::load(XML.as_bytes()).unwrap();
    assert_eq!(s.len(), 3);
    assert_eq!(s.get(0), Some("First string"));
    assert_eq!(s.get(1), Some("Second string"));
    assert_eq!(s.get(2), Some("  spaced  "));
    assert_eq!(s.get(3), None);
}

#[test]
fn load_of_empty_table() {
    let s = SharedStrings::load(b"<sst></sst>").unwrap();
    assert_eq!(s.len(), 0);
    assert_eq!(s.get(0), None);
    let s = SharedStrings::load(b"").unwrap();
    assert_eq!(s.len(), 0);
}

#[test]
fn load_replaces_invalid_utf8() {
    let s = SharedStrings::load(b"<sst><si><t>a\xffb</t></si></sst>").unwrap();
    assert_eq!(s.get(0), Some("a\u{fffd}b"));
}

#[test]
fn load_refuses_malformed_xml() {
    assert!(SharedStrings::load(b"<sst><si><t>x</t></si").is_err());
}

#[test]
fn builder_follows_events() {
    let mut b = SharedStringsBuilder::new();
    b.feed(XmlEvent::Text(b"ignored".to_vec()));
    b.feed(XmlEvent::Start(b"si".to_vec()));
    b.feed(XmlEvent::Text(b"outside t".to_vec()));
    b.feed(XmlEvent::Start(b"t".to_vec()));
    b.feed(XmlEvent::Text(b"ab".to_vec()));
    b.feed(XmlEvent::End(b"t".to_vec()));
    b.feed(XmlEvent::Other);
    b.feed(XmlEvent::Start(b"t".to_vec()));
    b.feed(XmlEvent::Text(b"cd".to_vec()));
    b.feed(XmlEvent::End(b"t".to_vec()));
    b.feed(XmlEvent::End(b"si".to_vec()));
    b.feed(XmlEvent::Eof);
    let s = b.finish();
    assert_eq!(s.len(), 1);
    assert_eq!(s.get(0), Some("abcd"));
}

#[test]
fn rank_matches_orders_by_score_then_index() {
    let scores = vec![Some(5), None, Some(9), Some(5), Some(1), Some(9)];
    assert_eq!(rank_matches(&scores, 2), vec![(2, 9), (5, 9), (0, 5), (3, 5)]);
    assert_eq!(rank_matches(&scores, 0), vec![(2, 9), (5, 9), (0, 5), (3, 5), (4, 1)]);
    assert!(rank_matches(&scores, 10).is_empty());
    assert!(rank_matches(&Vec::new(), 0).is_empty());
}

#[test]
fn fuzzy_find_ranks_matches() {
    let xml = "<sst><si><t>mathematics</t></si><si><t>history</t></si><si><t>math</t></si></sst>";
    let s = SharedStrings::load(xml.as_bytes()).unwrap();
    let found = s.fuzzy_find("math", 0);
    let idx: Vec<usize> = found.iter().map(|p| p.0).collect();
    assert!(idx.contains(&0));
    assert!(idx.contains(&2));
    assert!(!idx.contains(&1));
    for w in found.windows(2) {
        assert!(w[0].1 >= w[1].1);
    }
    assert_eq!(s.fuzzy_find_indices("math", 0), idx);
    assert!(s.fuzzy_find("zzz", 0).is_empty());
}

#[test]
fn fuzzy_find_threshold_filters() {
    let xml = "<sst><si><t>math</t></si></sst>";
    let s = SharedStrings::load(xml.as_bytes()).unwrap();
    let all = s.fuzzy_find("math", 0);
    assert_eq!(all.len(), 1);
    let score = all[0].1;
    assert!(s.fuzzy_find("math", score + 1).is_empty());
    assert_eq!(s.fuzzy_find("math", score), all);
}
