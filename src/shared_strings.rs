//! The shared-string table of a spreadsheet package, and fuzzy search over it.

use fuzzy_matcher::skim::SkimMatcherV2;
use fuzzy_matcher::FuzzyMatcher;
use quick_xml::events::Event;
use quick_xml::Reader;
use std::io::Cursor;
use vstd::prelude::*;
use vstd::string::StringExecFns;

verus! {

/// quick_xml's pull reader, used only through the wrappers below.
#[verifier::external_type_specification]
#[verifier::external_body]
#[verifier::reject_recursive_types(R)]
pub struct ExXmlReader<R>(quick_xml::Reader<R>);

/// quick_xml's error type, handed back to the caller unopened.
#[verifier::external_type_specification]
#[verifier::external_body]
pub struct ExXmlError(quick_xml::Error);

/// fuzzy_matcher's skim matcher, used only through the wrappers below.
#[verifier::external_type_specification]
#[verifier::external_body]
pub struct ExSkimMatcherV2(fuzzy_matcher::skim::SkimMatcherV2);

/// What `String::from_utf8_lossy` makes of `bytes`.
pub uninterp spec fn utf8_lossy(bytes: Seq<u8>) -> Seq<char>;

/// Relies on String::from_utf8_lossy: the text of `bytes`, each invalid
/// sequence replaced by U+FFFD; it depends on the bytes alone.
#[verifier::external_body]
fn decode_lossy(bytes: &[u8]) -> (r: String)
    ensures
        r@ == utf8_lossy(bytes@),
{
    String::from_utf8_lossy(bytes).into_owned()
}

/// The events the reader yields on `xml`, in order, up to and including the
/// end of the document (`Eof`) or the first error (`None`).
pub uninterp spec fn xml_events(xml: Seq<u8>) -> Seq<Option<XmlEvent>>;

/// The events a reader has still to yield.
pub uninterp spec fn pending_events(reader: Reader<Cursor<Vec<u8>>>) -> Seq<Option<XmlEvent>>;

/// `events` is a run of a reader: it is not empty, it stops at the first end
/// of document or error, and only there.
pub open spec fn is_event_run(events: Seq<Option<XmlEvent>>) -> bool {
    &&& events.len() > 0
    &&& forall|k: int| 0 <= k < events.len() - 1 ==> #[trigger] events[k] is Some && !(events[k]->0 is Eof)
    &&& events.last() is None || events.last()->0 is Eof
}

/// Relies on quick_xml::Reader::from_reader and its configuration: a reader
/// over `xml` that keeps all whitespace, does not check end tag names and
/// does not split empty elements. Reading ends, at the end of the input with
/// `Eof` or earlier with an error.
#[verifier::external_body]
fn xml_reader(xml: &[u8]) -> (r: Reader<Cursor<Vec<u8>>>)
    ensures
        pending_events(r) == xml_events(xml@),
        is_event_run(pending_events(r)),
{
    let mut reader = Reader::from_reader(Cursor::new(xml.to_vec()));
    let config = reader.config_mut();
    config.trim_text(false);
    config.check_end_names = false;
    config.expand_empty_elements = false;
    reader
}

/// Relies on quick_xml::Reader::read_event_into: the next event, with the
/// name of a start or end tag and the raw bytes of a text.
#[verifier::external_body]
fn next_event(reader: &mut Reader<Cursor<Vec<u8>>>, buf: &mut Vec<u8>) -> (r: Result<XmlEvent, quick_xml::Error>)
    requires
        pending_events(*old(reader)).len() > 0,
    ensures
        pending_events(*final(reader)) == pending_events(*old(reader)).drop_first(),
        match r {
            Ok(e) => pending_events(*old(reader))[0] == Some(e),
            Err(_) => pending_events(*old(reader))[0] is None,
        },
{
    match reader.read_event_into(buf) {
        Ok(Event::Start(e)) => Ok(XmlEvent::Start(e.name().as_ref().to_vec())),
        Ok(Event::End(e)) => Ok(XmlEvent::End(e.name().as_ref().to_vec())),
        Ok(Event::Text(e)) => Ok(XmlEvent::Text(e.to_vec())),
        Ok(Event::Eof) => Ok(XmlEvent::Eof),
        Ok(_) => Ok(XmlEvent::Other),
        Err(e) => Err(e),
    }
}

/// Relies on SkimMatcherV2::default: a matcher with the crate's default
/// scoring and smart case.
#[verifier::external_body]
fn default_matcher() -> (r: SkimMatcherV2) {
    SkimMatcherV2::default()
}

/// What a skim matcher with default settings scores `choice` against
/// `pattern`: nothing when it does not match.
pub uninterp spec fn skim_score(choice: Seq<char>, pattern: Seq<char>) -> Option<i64>;

/// A skim matcher that keeps its default settings: it is made only by
/// `SkimMatcherV2::default` and never reconfigured.
struct DefaultMatcher {
    matcher: SkimMatcherV2,
}

/// Relies on FuzzyMatcher::fuzzy_match of a default SkimMatcherV2: the score
/// of `choice` against `pattern`, which depends on the two strings alone
/// (the matcher's caches change only how fast it answers).
#[verifier::external_body]
fn default_score(m: &DefaultMatcher, choice: &str, pattern: &str) -> (r: Option<i64>)
    ensures
        r == skim_score(choice@, pattern@),
{
    m.matcher.fuzzy_match(choice, pattern)
}

/// Relies on FuzzyMatcher::fuzzy_match of SkimMatcherV2: the score of
/// `choice` against `pattern` under the matcher's own settings, or nothing
/// when it does not match.
#[verifier::external_body]
fn match_score(matcher: &SkimMatcherV2, choice: &str, pattern: &str) -> (r: Option<i64>) {
    matcher.fuzzy_match(choice, pattern)
}

/// One event of the XML reader, as far as the table reads it.
#[derive(Debug)]
pub enum XmlEvent {
    /// A start tag, with its name.
    Start(Vec<u8>),
    /// An end tag, with its name.
    End(Vec<u8>),
    /// Text between tags, as raw bytes.
    Text(Vec<u8>),
    /// The end of the document.
    Eof,
    /// Anything else: empty elements, comments, declarations.
    Other,
}

/// The tag name `si`, a string item.
pub open spec fn si_tag() -> Seq<u8> {
    seq![115u8, 105u8]
}

/// The tag name `t`, a text run.
pub open spec fn t_tag() -> Seq<u8> {
    seq![116u8]
}

fn is_si(name: &Vec<u8>) -> (r: bool)
    ensures
        r == (name@ == si_tag()),
{
    let r = name.len() == 2 && name[0] == 115u8 && name[1] == 105u8;
    proof {
        if r {
            assert(name@ =~= si_tag());
        }
    }
    r
}

fn is_t(name: &Vec<u8>) -> (r: bool)
    ensures
        r == (name@ == t_tag()),
{
    let r = name.len() == 1 && name[0] == 116u8;
    proof {
        if r {
            assert(name@ =~= t_tag());
        }
    }
    r
}

/// The state of a table being read: the strings so far, the string being
/// built, and whether the reader is inside a string item and a text run.
pub struct TableState {
    pub strings: Seq<Seq<char>>,
    pub current: Seq<char>,
    pub in_si: bool,
    pub in_text: bool,
}

/// The state after `event`: a string item starts empty and is added to the
/// table when it ends; the text runs inside it are appended to it.
pub open spec fn next_state(s: TableState, event: XmlEvent) -> TableState {
    match event {
        XmlEvent::Start(n) => if n@ == si_tag() {
            TableState { in_si: true, current: Seq::empty(), ..s }
        } else if n@ == t_tag() && s.in_si {
            TableState { in_text: true, ..s }
        } else {
            s
        },
        XmlEvent::End(n) => if n@ == si_tag() {
            TableState { in_si: false, strings: s.strings.push(s.current), current: Seq::empty(), ..s }
        } else if n@ == t_tag() && s.in_text {
            TableState { in_text: false, ..s }
        } else {
            s
        },
        XmlEvent::Text(b) => if s.in_text {
            TableState { current: s.current + utf8_lossy(b@), ..s }
        } else {
            s
        },
        XmlEvent::Eof => s,
        XmlEvent::Other => s,
    }
}

/// The state before any event.
pub open spec fn initial_state() -> TableState {
    TableState { strings: Seq::empty(), current: Seq::empty(), in_si: false, in_text: false }
}

/// The state after the events of `events`; an error leaves it as it is.
pub open spec fn state_after(events: Seq<Option<XmlEvent>>) -> TableState
    decreases events.len(),
{
    if events.len() == 0 {
        initial_state()
    } else {
        match events.last() {
            Some(e) => next_state(state_after(events.drop_last()), e),
            None => state_after(events.drop_last()),
        }
    }
}

/// A shared-string table being read, one event at a time.
pub struct SharedStringsBuilder {
    strings: Vec<String>,
    current: String,
    in_si: bool,
    in_text: bool,
}

impl View for SharedStringsBuilder {
    type V = TableState;

    closed spec fn view(&self) -> TableState {
        TableState {
            strings: self.strings@.map_values(|s: String| s@),
            current: self.current@,
            in_si: self.in_si,
            in_text: self.in_text,
        }
    }
}

impl SharedStringsBuilder {
    /// A builder with no strings, outside any string item.
    pub fn new() -> (r: Self)
        ensures
            r@ == (TableState {
                strings: Seq::empty(),
                current: Seq::empty(),
                in_si: false,
                in_text: false,
            }),
    {
        let r = SharedStringsBuilder {
            strings: Vec::new(),
            current: String::new(),
            in_si: false,
            in_text: false,
        };
        assert(r@.strings =~= Seq::<Seq<char>>::empty());
        r
    }

    /// Takes one event into account.
    pub fn feed(&mut self, event: XmlEvent)
        ensures
            final(self)@ == next_state(old(self)@, event),
    {
        let ghost e = event;
        match event {
            XmlEvent::Start(n) => {
                if is_si(&n) {
                    self.in_si = true;
                    self.current = String::new();
                } else if is_t(&n) && self.in_si {
                    self.in_text = true;
                }
            },
            XmlEvent::End(n) => {
                if is_si(&n) {
                    self.in_si = false;
                    let mut done = String::new();
                    std::mem::swap(&mut done, &mut self.current);
                    self.strings.push(done);
                    assert(self@.strings =~= old(self)@.strings.push(old(self)@.current));
                } else if is_t(&n) && self.in_text {
                    self.in_text = false;
                }
            },
            XmlEvent::Text(b) => {
                if self.in_text {
                    let decoded = decode_lossy(b.as_slice());
                    self.current.append(decoded.as_str());
                }
            },
            XmlEvent::Eof => {},
            XmlEvent::Other => {},
        }
        assert(self@ == next_state(old(self)@, e));
    }

    /// The finished table.
    pub fn finish(self) -> (r: SharedStrings)
        ensures
            r@ == self@.strings,
    {
        SharedStrings { strings: self.strings }
    }
}

/// The table of shared strings of a workbook, indexed from zero in document
/// order.
#[derive(Debug)]
pub struct SharedStrings {
    strings: Vec<String>,
}

impl View for SharedStrings {
    type V = Seq<Seq<char>>;

    closed spec fn view(&self) -> Seq<Seq<char>> {
        self.strings@.map_values(|s: String| s@)
    }
}

/// The default skim scores of each of `strings` against `query`.
pub open spec fn default_scores(strings: Seq<Seq<char>>, query: Seq<char>) -> Seq<Option<i64>> {
    strings.map_values(|s: Seq<char>| skim_score(s, query))
}

/// Entry `i` of `scores` is a match scoring at least `threshold`.
pub open spec fn qualifies(scores: Seq<Option<i64>>, threshold: i64, i: int) -> bool {
    0 <= i < scores.len() && scores[i] is Some && scores[i]->0 >= threshold
}

/// `a` comes before `b` in a ranking: a higher score, or the same score and
/// a smaller index.
pub open spec fn ranked_before(a: (usize, i64), b: (usize, i64)) -> bool {
    a.1 > b.1 || (a.1 == b.1 && a.0 < b.0)
}

/// `r` lists each qualifying entry of `scores` once, with its score, by
/// descending score; equal scores keep the order of the table.
pub open spec fn is_ranking(r: Seq<(usize, i64)>, scores: Seq<Option<i64>>, threshold: i64) -> bool {
    &&& forall|k: int|
        0 <= k < r.len() ==> qualifies(scores, threshold, #[trigger] r[k].0 as int) && scores[r[k].0 as int]
            == Some(r[k].1)
    &&& forall|i: int|
        qualifies(scores, threshold, i) ==> exists|k: int| 0 <= k < r.len() && #[trigger] r[k].0 == i
    &&& forall|a: int, b: int| 0 <= a < b < r.len() ==> ranked_before(#[trigger] r[a], #[trigger] r[b])
}

/// Ranks the matches among `scores` that score at least `threshold`: by
/// descending score, and in table order among equal scores.
pub fn rank_matches(scores: &Vec<Option<i64>>, threshold: i64) -> (r: Vec<(usize, i64)>)
    ensures
        is_ranking(r@, scores@, threshold),
{
    let mut r: Vec<(usize, i64)> = Vec::new();
    for i in 0..scores.len()
        invariant
            forall|k: int|
                0 <= k < r.len() ==> #[trigger] r@[k].0 < i && qualifies(scores@, threshold, r@[k].0 as int)
                    && scores@[r@[k].0 as int] == Some(r@[k].1),
            forall|j: int|
                0 <= j < i && qualifies(scores@, threshold, j) ==> exists|k: int|
                    0 <= k < r.len() && #[trigger] r@[k].0 == j,
            forall|a: int, b: int| 0 <= a < b < r.len() ==> ranked_before(#[trigger] r@[a], #[trigger] r@[b]),
    {
        if let Some(s) = scores[i] {
            if s >= threshold {
                let mut pos: usize = 0;
                while pos < r.len() && r[pos].1 >= s
                    invariant
                        pos <= r.len(),
                        forall|k: int| 0 <= k < pos ==> #[trigger] r@[k].1 >= s,
                    decreases r.len() - pos,
                {
                    pos += 1;
                }
                let ghost old_r = r@;
                r.insert(pos, (i, s));
                proof {
                    assert(r@ == old_r.insert(pos as int, (i, s)));
                    assert forall|k: int| pos <= k < old_r.len() implies #[trigger] old_r[k].1 < s by {
                        if k > pos {
                            assert(ranked_before(old_r[pos as int], old_r[k]));
                        }
                    }
                    assert forall|a: int, b: int| 0 <= a < b < r.len() implies ranked_before(
                        #[trigger] r@[a],
                        #[trigger] r@[b],
                    ) by {
                        if b < pos {
                            assert(ranked_before(old_r[a], old_r[b]));
                        } else if b == pos {
                            assert(r@[a] == old_r[a]);
                        } else if a == pos {
                            assert(r@[b] == old_r[b - 1]);
                        } else if a < pos {
                            assert(ranked_before(old_r[a], old_r[b - 1]));
                        } else {
                            assert(ranked_before(old_r[a - 1], old_r[b - 1]));
                        }
                    }
                    assert forall|j: int|
                        0 <= j < i + 1 && qualifies(scores@, threshold, j) implies exists|k: int|
                        0 <= k < r.len() && #[trigger] r@[k].0 == j by {
                        if j == i {
                            assert(r@[pos as int].0 == j);
                        } else {
                            let k = choose|k: int| 0 <= k < old_r.len() && #[trigger] old_r[k].0 == j;
                            if k < pos {
                                assert(r@[k].0 == j);
                            } else {
                                assert(r@[k + 1].0 == j);
                            }
                        }
                    }
                }
            }
        }
    }
    r
}

impl SharedStrings {
    /// Reads the table from the XML of a shared-strings part: one string per
    /// `<si>` item, the concatenation of the `<t>` runs inside it, with all
    /// whitespace kept. Fails with the reader's error on malformed XML.
    pub fn load(xml: &[u8]) -> (r: Result<Self, quick_xml::Error>)
        ensures
            r is Ok <==> xml_events(xml@).last() is Some,
            r is Ok ==> r->Ok_0@ == state_after(xml_events(xml@)).strings,
    {
        let mut reader = xml_reader(xml);
        let ghost events = pending_events(reader);
        let mut buf: Vec<u8> = Vec::new();
        let mut builder = SharedStringsBuilder::new();
        let ghost mut k: int = 0;
        assert(events.take(0) =~= Seq::<Option<XmlEvent>>::empty());
        loop
            invariant_except_break
                0 <= k < events.len(),
                pending_events(reader) == events.skip(k),
                builder@ == state_after(events.take(k)),
            invariant
                is_event_run(events),
                events == xml_events(xml@),
            ensures
                events.last() is Some,
                builder@ == state_after(events),
            decreases events.len() - k,
        {
            assert(events.skip(k)[0] == events[k]);
            let event = match next_event(&mut reader, &mut buf) {
                Ok(e) => e,
                Err(e) => {
                    proof {
                        if k < events.len() - 1 {
                            assert(events[k] is Some);
                        }
                        assert(events.last() is None);
                    }
                    return Err(e);
                },
            };
            proof {
                assert(events.take(k + 1).drop_last() =~= events.take(k));
                assert(events.skip(k).drop_first() =~= events.skip(k + 1));
            }
            if let XmlEvent::Eof = event {
                proof {
                    if k < events.len() - 1 {
                        assert(!(events[k]->0 is Eof));
                    }
                    assert(k == events.len() - 1);
                    assert(events.take(k + 1) =~= events);
                }
                break;
            }
            builder.feed(event);
            buf.clear();
            proof {
                k = k + 1;
            }
        }
        Ok(builder.finish())
    }

    /// The string at `index`, if there is one.
    pub fn get(&self, index: usize) -> (r: Option<&str>)
        ensures
            match r {
                Some(s) => index < self@.len() && s@ == self@[index as int],
                None => index >= self@.len(),
            },
    {
        if index < self.strings.len() {
            Some(self.strings[index].as_str())
        } else {
            None
        }
    }

    /// The number of strings in the table.
    pub fn len(&self) -> (r: usize)
        ensures
            r == self@.len(),
    {
        self.strings.len()
    }

    /// The fuzzy scores of every string against `query`, in table order.
    fn scores_with(&self, matcher: &SkimMatcherV2, query: &str) -> (r: Vec<Option<i64>>)
        ensures
            r@.len() == self@.len(),
    {
        let mut scores: Vec<Option<i64>> = Vec::new();
        for i in 0..self.strings.len()
            invariant
                scores@.len() == i,
        {
            scores.push(match_score(matcher, self.strings[i].as_str(), query));
        }
        scores
    }

    /// The strings that `matcher` matches against `query` with a score of at
    /// least `threshold`, as `(index, score)` pairs by descending score.
    pub fn fuzzy_find_with_matcher(&self, matcher: &SkimMatcherV2, query: &str, threshold: i64) -> (r: Vec<
        (usize, i64),
    >)
        ensures
            exists|scores: Seq<Option<i64>>|
                scores.len() == self@.len() && #[trigger] is_ranking(r@, scores, threshold),
    {
        let scores = self.scores_with(matcher, query);
        rank_matches(&scores, threshold)
    }

    /// The default skim scores of every string against `query`, in table order.
    fn default_scores_of(&self, query: &str) -> (r: Vec<Option<i64>>)
        ensures
            r@ == default_scores(self@, query@),
    {
        let m = DefaultMatcher { matcher: default_matcher() };
        let mut scores: Vec<Option<i64>> = Vec::new();
        for i in 0..self.strings.len()
            invariant
                scores@.len() == i,
                forall|j: int| 0 <= j < i ==> #[trigger] scores@[j] == skim_score(self@[j], query@),
        {
            scores.push(default_score(&m, self.strings[i].as_str(), query));
        }
        assert(scores@ =~= default_scores(self@, query@));
        scores
    }

    /// Fuzzy search with the default skim matcher: the strings that match
    /// `query` with a score of at least `threshold`, as `(index, score)`
    /// pairs by descending score, in table order among equal scores.
    pub fn fuzzy_find(&self, query: &str, threshold: i64) -> (r: Vec<(usize, i64)>)
        ensures
            is_ranking(r@, default_scores(self@, query@), threshold),
    {
        let scores = self.default_scores_of(query);
        rank_matches(&scores, threshold)
    }

    /// The indices found by [`SharedStrings::fuzzy_find`], in its order.
    pub fn fuzzy_find_indices(&self, query: &str, threshold: i64) -> (r: Vec<usize>)
        ensures
            exists|found: Seq<(usize, i64)>|
                #[trigger] is_ranking(found, default_scores(self@, query@), threshold)
                    && r@ == found.map_values(|p: (usize, i64)| p.0),
    {
        let found = self.fuzzy_find(query, threshold);
        let mut r: Vec<usize> = Vec::new();
        for i in 0..found.len()
            invariant
                r@.len() == i,
                forall|j: int| 0 <= j < i ==> #[trigger] r@[j] == found@[j].0,
        {
            r.push(found[i].0);
        }
        assert(r@ =~= found@.map_values(|p: (usize, i64)| p.0));
        r
    }
}

} // verus!
