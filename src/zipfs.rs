//! The archive filesystem: entries loaded once from a ZIP archive, indexed
//! by path and by parent directory.

use crate::filters::FilterSet;
use crate::path_utils::{
    is_safe, is_safe_path, lemma_normalized_shape, normalize_dir, normalize_path, normalized,
    law_normalize_idempotent, normalized_dir, parent_dir, parent_of, strip_leading, strip_trailing, with_forward_slashes,
};
use std::borrow::Cow;
use std::io::Cursor;
use std::io::Read;
use vstd::hash_map::StringHashMap;
use vstd::prelude::*;
use vstd::string::StrSliceExecFns;
use vstd::string::StringExecFns;
use zip::result::ZipError;
use zip::ZipArchive;

verus! {

/// zip's error type, carried through unopened.
#[verifier::external_type_specification]
#[verifier::external_body]
pub struct ExZipError(zip::result::ZipError);

/// std's I/O error, carried through unopened.
#[verifier::external_type_specification]
#[verifier::external_body]
pub struct ExIoError(std::io::Error);

/// An opened archive of the zip crate, used only through the wrappers below.
#[verifier::external_type_specification]
#[verifier::external_body]
#[verifier::reject_recursive_types(R)]
pub struct ExZipArchive<R>(zip::ZipArchive<R>);

/// std's in-memory reader, the byte source of an opened archive.
#[verifier::external_type_specification]
#[verifier::external_body]
#[verifier::reject_recursive_types(T)]
pub struct ExCursor<T>(std::io::Cursor<T>);

/// What can go wrong while building a filter or loading an archive.
#[derive(Debug)]
pub enum ZipFsError {
    /// The archive's central directory could not be read.
    Zip(ZipError),
    /// The archive is larger than the ceiling: its length, then the ceiling.
    ArchiveTooLarge(u64, u64),
    /// A path or glob pattern is empty, holds `..`, or is otherwise refused.
    InvalidPattern(String),
    /// The byte source could not be read.
    Io(std::io::Error),
}

/// An entry as an archive holds it: its name and declared uncompressed size
/// when its local header can be read, and its decompressed bytes when the
/// whole entry can be read.
pub type EntryView = (Option<(Seq<char>, u64)>, Option<Seq<u8>>);

/// The entries of the ZIP archive in `data`, as the zip crate reads them:
/// in central-directory order, except that entries with the same stored
/// name are merged into one, at the place of the first, holding the last;
/// nothing when the central directory cannot be parsed.
pub uninterp spec fn zip_entries(data: Seq<u8>) -> Option<Seq<EntryView>>;

/// The entries of an opened archive.
pub uninterp spec fn archive_entries(archive: ZipArchive<Cursor<Vec<u8>>>) -> Seq<EntryView>;

/// Relies on zip::ZipArchive::new: reads the central directory of an
/// archive held in memory; an error exactly when it cannot be parsed.
#[verifier::external_body]
fn open_archive(data: Vec<u8>) -> (r: Result<ZipArchive<Cursor<Vec<u8>>>, ZipError>)
    ensures
        r is Ok <==> zip_entries(data@) is Some,
        r is Ok ==> archive_entries(r->Ok_0) == zip_entries(data@)->0,
{
    ZipArchive::new(Cursor::new(data))
}

/// Relies on zip::ZipArchive::len: the number of entries of the central
/// directory.
#[verifier::external_body]
fn entry_count(archive: &ZipArchive<Cursor<Vec<u8>>>) -> (r: usize)
    ensures
        r == archive_entries(*archive).len(),
{
    archive.len()
}

/// Relies on zip::ZipArchive::by_index, then ZipFile::name and
/// ZipFile::size: the name and declared uncompressed size of entry `i`, or
/// nothing when its local header cannot be read.
#[verifier::external_body]
fn entry_header(archive: &mut ZipArchive<Cursor<Vec<u8>>>, i: usize) -> (r: Option<(String, u64)>)
    requires
        i < archive_entries(*old(archive)).len(),
    ensures
        archive_entries(*final(archive)) == archive_entries(*old(archive)),
        match r {
            Some(h) => archive_entries(*old(archive))[i as int].0 == Some((h.0@, h.1)),
            None => archive_entries(*old(archive))[i as int].0 is None,
        },
{
    match archive.by_index(i) {
        Ok(file) => Some((file.name().to_string(), file.size())),
        Err(_) => None,
    }
}

/// Relies on zip::ZipArchive::by_index, then std::io::Read::read_to_end on
/// the entry: decompresses entry `i` and appends its bytes to `buf`; false
/// when the entry cannot be opened or read.
#[verifier::external_body]
fn read_entry(archive: &mut ZipArchive<Cursor<Vec<u8>>>, i: usize, buf: &mut Vec<u8>) -> (r: bool)
    requires
        i < archive_entries(*old(archive)).len(),
    ensures
        archive_entries(*final(archive)) == archive_entries(*old(archive)),
        r == archive_entries(*old(archive))[i as int].1 is Some,
        r ==> final(buf)@ == old(buf)@ + archive_entries(*old(archive))[i as int].1->0,
{
    match archive.by_index(i) {
        Ok(mut file) => file.read_to_end(buf).is_ok(),
        Err(_) => false,
    }
}

/// `p` is not empty and ends in `/`.
pub open spec fn ends_in_slash(p: Seq<char>) -> bool {
    p.len() > 0 && p.last() == '/'
}

/// A path that may be a key of the filesystem: safe, canonical (no
/// backslash, no leading `/`), and not a directory name.
pub open spec fn is_file_key(p: Seq<char>) -> bool {
    &&& is_safe(p)
    &&& !p.contains('\\')
    &&& p[0] != '/'
    &&& !ends_in_slash(p)
}

/// `filter`, when present, is well formed.
pub open spec fn filter_ok(filter: Option<&FilterSet>) -> bool {
    match filter {
        Some(f) => f.wf(),
        None => true,
    }
}

/// `path` passes `filter`: there is none, or it admits the path.
pub open spec fn filter_admits(filter: Option<&FilterSet>, path: Seq<char>) -> bool {
    match filter {
        Some(f) => f.admits(path),
        None => true,
    }
}

/// Whether an entry named `name` is to be loaded: its normalized name is a
/// safe path that does not end in `/`, and `filter` admits it.
pub open spec fn admitted(name: Seq<char>, filter: Option<&FilterSet>) -> bool {
    &&& is_safe(normalized(name))
    &&& !ends_in_slash(normalized(name))
    &&& filter_admits(filter, normalized(name))
}

/// `filter` as a reference.
pub open spec fn filter_ref(filter: &Option<FilterSet>) -> Option<&FilterSet> {
    match filter {
        Some(f) => Some(f),
        None => None,
    }
}

/// What loading entry `e` yields when memory can be reserved for it: its
/// canonical path and its bytes, when it is admitted, its declared size fits
/// in memory and it can be read.
pub open spec fn entry_load(e: EntryView, filter: Option<&FilterSet>) -> Option<(Seq<char>, Seq<u8>)> {
    match e.0 {
        Some(h) => if admitted(h.0, filter) && h.1 <= usize::MAX && e.1 is Some {
            Some((normalized(h.0), e.1->0))
        } else {
            None
        },
        None => None,
    }
}

/// What the last of `entries` yields, unless the last of `skips` says that
/// no memory could be reserved for it.
pub open spec fn last_load(entries: Seq<EntryView>, skips: Seq<bool>, filter: Option<&FilterSet>) -> Option<
    (Seq<char>, Seq<u8>),
> {
    if skips.len() > 0 && skips.last() {
        None
    } else {
        entry_load(entries.last(), filter)
    }
}

/// The files loaded from `entries`, in order: a path met again takes the
/// later content.
pub open spec fn loaded_files(entries: Seq<EntryView>, skips: Seq<bool>, filter: Option<&FilterSet>) -> Map<
    Seq<char>,
    Seq<u8>,
>
    decreases entries.len(),
{
    if entries.len() == 0 {
        Map::empty()
    } else {
        let prev = loaded_files(entries.drop_last(), skips.drop_last(), filter);
        match last_load(entries, skips, filter) {
            Some(pc) => prev.insert(pc.0, pc.1),
            None => prev,
        }
    }
}

/// The files of directory `d` loaded from `entries`, in the order each path
/// was first loaded.
pub open spec fn loaded_listing(
    entries: Seq<EntryView>,
    skips: Seq<bool>,
    filter: Option<&FilterSet>,
    d: Seq<char>,
) -> Seq<Seq<char>>
    decreases entries.len(),
{
    if entries.len() == 0 {
        Seq::empty()
    } else {
        let prev = loaded_listing(entries.drop_last(), skips.drop_last(), filter, d);
        match last_load(entries, skips, filter) {
            Some(pc) => if parent_of(pc.0) == d && !loaded_files(
                entries.drop_last(),
                skips.drop_last(),
                filter,
            ).contains_key(pc.0) {
                prev.push(pc.0)
            } else {
                prev
            },
            None => prev,
        }
    }
}

/// `skips` marks only entries that would have loaded: a skip stands for a
/// failed memory reservation and nothing else.
pub open spec fn skips_ok(entries: Seq<EntryView>, skips: Seq<bool>, filter: Option<&FilterSet>) -> bool {
    &&& skips.len() == entries.len()
    &&& forall|j: int| 0 <= j < skips.len() && #[trigger] skips[j] ==> entry_load(entries[j], filter) is Some
}

/// Whether `s` ends with `/`.
fn ends_with_slash(s: &str) -> (r: bool)
    ensures
        r == (s@.len() > 0 && s@.last() == '/'),
{
    let n = s.unicode_len();
    n > 0 && s.get_char(n - 1) == '/'
}

/// Decides whether an archive entry named `name` is loaded, and under which
/// path: its normalized name, when that is a safe path that does not end in
/// `/` and `filter`, if any, admits it.
pub fn admit_entry(name: &str, filter: Option<&FilterSet>) -> (r: Option<String>)
    requires
        filter_ok(filter),
    ensures
        r is Some <==> admitted(name@, filter),
        r is Some ==> r->0@ == normalized(name@),
{
    let normalized = normalize_path(name);
    let s: &str = match &normalized {
        Cow::Borrowed(b) => b,
        Cow::Owned(o) => o.as_str(),
    };
    if ends_with_slash(s) || !is_safe_path(s) {
        return None;
    }
    proof {
        lemma_normalized_shape(name@);
    }
    if let Some(f) = filter {
        if !f.matches_str(s) {
            return None;
        }
    }
    Some(String::from_str(s))
}

/// What is stored for an entry, given the path it is admitted under (if
/// any), its declared size, whether memory for that size could be reserved,
/// and its bytes (if they could be read): the path and the bytes when all of
/// these are there and the size fits in memory, else nothing.
pub fn entry_outcome(path: Option<String>, size: u64, reserved: bool, content: Option<Vec<u8>>) -> (r: Option<
    (String, Vec<u8>),
>)
    ensures
        r is Some <==> (path is Some && size <= usize::MAX && reserved && content is Some),
        match r {
            Some(pc) => pc.0@ == path->0@ && pc.1@ == content->0@,
            None => true,
        },
{
    if size > usize::MAX as u64 || !reserved {
        return None;
    }
    match (path, content) {
        (Some(p), Some(c)) => Some((p, c)),
        _ => None,
    }
}

/// An in-memory filesystem loaded once from a ZIP archive.
///
/// It maps each loaded path to its bytes, and each directory to the files
/// that are its immediate children, in archive order. Both indexes are built
/// at construction and never change afterwards.
pub struct ZipFs {
    files: StringHashMap<Vec<u8>>,
    dir_index: StringHashMap<usize>,
    buckets: Vec<Vec<String>>,
}

/// `new` holds the same files and listings as `old`.
pub open spec fn unchanged(new: ZipFs, old: ZipFs) -> bool {
    &&& new.files_view() == old.files_view()
    &&& forall|d: Seq<char>| #[trigger] new.listing(d) == old.listing(d)
}

/// `new` is `old` with `content` stored under `path`: a path met for the
/// first time is appended to the listing of its parent directory.
pub open spec fn stored(new: ZipFs, old: ZipFs, path: Seq<char>, content: Seq<u8>) -> bool {
    &&& new.files_view() == old.files_view().insert(path, content)
    &&& forall|d: Seq<char>|
        #[trigger] new.listing(d) == if d == parent_of(path) && !old.files_view().contains_key(path) {
            old.listing(d).push(path)
        } else {
            old.listing(d)
        }
}

/// Every path loaded from `entries` is a file key that `filter` admits.
proof fn lemma_loaded_admitted(entries: Seq<EntryView>, skips: Seq<bool>, filter: Option<&FilterSet>, p: Seq<char>)
    requires
        loaded_files(entries, skips, filter).contains_key(p),
    ensures
        filter_admits(filter, p),
    decreases entries.len(),
{
    if entries.len() > 0 {
        match last_load(entries, skips, filter) {
            Some(pc) => {
                if pc.0 != p {
                    lemma_loaded_admitted(entries.drop_last(), skips.drop_last(), filter, p);
                }
            },
            None => {
                lemma_loaded_admitted(entries.drop_last(), skips.drop_last(), filter, p);
            },
        }
    }
}

impl ZipFs {
    /// The loaded files: path to content.
    pub closed spec fn files_view(&self) -> Map<Seq<char>, Seq<u8>> {
        self.files@.map_values(|v: Vec<u8>| v@)
    }

    /// The files that are immediate children of directory `d`, in load order.
    pub closed spec fn listing(&self, d: Seq<char>) -> Seq<Seq<char>> {
        if self.dir_index@.contains_key(d) && self.dir_index@[d] < self.buckets@.len() {
            self.buckets@[self.dir_index@[d] as int]@.map_values(|s: String| s@)
        } else {
            Seq::<Seq<char>>::empty()
        }
    }

    /// The two indexes agree: each loaded path stands once in the listing of
    /// its parent directory and nowhere else, and each listed path is loaded.
    pub closed spec fn wf(&self) -> bool {
        &&& forall|d: Seq<char>| #[trigger]
            self.dir_index@.contains_key(d) ==> self.dir_index@[d] < self.buckets@.len()
        &&& forall|d1: Seq<char>, d2: Seq<char>|
            #![trigger self.dir_index@[d1], self.dir_index@[d2]]
            self.dir_index@.contains_key(d1) && self.dir_index@.contains_key(d2) && d1 != d2
                ==> self.dir_index@[d1] != self.dir_index@[d2]
        &&& forall|p: Seq<char>| #[trigger]
            self.files@.contains_key(p) ==> is_file_key(p) && self.listing(parent_of(p)).contains(
                p,
            )
        &&& forall|d: Seq<char>, i: int|
            0 <= i < self.listing(d).len() ==> self.files@.contains_key(#[trigger] self.listing(d)[i])
                && parent_of(self.listing(d)[i]) == d
        &&& forall|d: Seq<char>| #[trigger] self.listing(d).no_duplicates()
    }

    fn empty() -> (r: Self)
        ensures
            r.wf(),
            r.files_view() == Map::<Seq<char>, Seq<u8>>::empty(),
            forall|d: Seq<char>| #[trigger] r.listing(d) == Seq::<Seq<char>>::empty(),
    {
        let r = ZipFs { files: StringHashMap::new(), dir_index: StringHashMap::new(), buckets: Vec::new() };
        assert(r.files_view() =~= Map::<Seq<char>, Seq<u8>>::empty());
        r
    }

    /// Records `content` under `path`. A path met for the first time is
    /// appended to the listing of its parent directory; a path met again
    /// only has its content replaced.
    fn insert_file(&mut self, path: String, content: Vec<u8>)
        requires
            old(self).wf(),
            is_file_key(path@),
        ensures
            final(self).wf(),
            stored(*final(self), *old(self), path@, content@),
    {
        let ghost p = path@;
        let ghost c = content@;
        let ghost d0 = parent_of(p);
        if self.files.contains_key(path.as_str()) {
            self.files.insert(path, content);
            proof {
                assert(self.files_view() =~= old(self).files_view().insert(p, c));
                assert forall|d: Seq<char>| #[trigger] self.listing(d) == old(self).listing(d) by {}
                assert forall|q: Seq<char>| #[trigger] self.files@.contains_key(q) implies is_file_key(q)
                    && self.listing(parent_of(q)).contains(q) by {
                    assert(old(self).files@.contains_key(q));
                }
                assert forall|d: Seq<char>, i: int| 0 <= i < self.listing(d).len() implies
                    self.files@.contains_key(#[trigger] self.listing(d)[i])
                    && parent_of(self.listing(d)[i]) == d by {
                    assert(old(self).listing(d)[i] == self.listing(d)[i]);
                }
            }
            return;
        }
        proof {
            assert(!old(self).files_view().contains_key(p));
        }
        let key = path.clone();
        self.files.insert(key, content);
        let parent: &str = parent_dir(path.as_str());
        match self.dir_index.get(parent) {
            Some(b) => {
                let b: usize = *b;
                self.buckets[b].push(path);
            },
            None => {
                let dir = String::from_str(parent);
                let n: usize = self.buckets.len();
                self.dir_index.insert(dir, n);
                let mut bucket: Vec<String> = Vec::new();
                bucket.push(path);
                self.buckets.push(bucket);
            },
        }
        proof {
            assert(self.files_view() =~= old(self).files_view().insert(p, c));
            assert(self.listing(d0) =~= old(self).listing(d0).push(p));
            assert forall|d: Seq<char>| d != d0 implies #[trigger] self.listing(d) == old(self).listing(d) by {
                if old(self).dir_index@.contains_key(d) {
                    assert(self.dir_index@[d] == old(self).dir_index@[d]);
                    assert(self.buckets@[self.dir_index@[d] as int] == old(self).buckets@[self.dir_index@[d] as int]);
                }
            }
            assert(!old(self).listing(d0).contains(p));
            assert forall|q: Seq<char>| #[trigger] self.files@.contains_key(q) implies is_file_key(q)
                && self.listing(parent_of(q)).contains(q) by {
                if q != p {
                    assert(old(self).files@.contains_key(q));
                    let j = choose|j: int| 0 <= j < old(self).listing(parent_of(q)).len()
                        && old(self).listing(parent_of(q))[j] == q;
                    assert(self.listing(parent_of(q))[j] == q);
                } else {
                    assert(self.listing(d0)[self.listing(d0).len() - 1] == p);
                }
            }
            assert forall|d: Seq<char>, i: int| 0 <= i < self.listing(d).len() implies
                self.files@.contains_key(#[trigger] self.listing(d)[i])
                && parent_of(self.listing(d)[i]) == d by {
                if d != d0 || i < old(self).listing(d).len() {
                    assert(old(self).listing(d)[i] == self.listing(d)[i]);
                }
            }
            assert forall|d: Seq<char>| #[trigger] self.listing(d).no_duplicates() by {
                if d == d0 {
                    assert(old(self).listing(d0).no_duplicates());
                }
            }
        }
    }

    /// Loads every entry of `archive` that `filter` admits, in archive
    /// order, skipping entries whose header or content cannot be read and
    /// entries too large for memory.
    fn load_entries(&mut self, archive: &mut ZipArchive<Cursor<Vec<u8>>>, filter: Option<&FilterSet>)
        requires
            old(self).wf(),
            filter_ok(filter),
            old(self).files_view() == Map::<Seq<char>, Seq<u8>>::empty(),
            forall|d: Seq<char>| #[trigger] old(self).listing(d) == Seq::<Seq<char>>::empty(),
        ensures
            final(self).wf(),
            exists|skips: Seq<bool>|
                skips_ok(archive_entries(*old(archive)), skips, filter)
                    && #[trigger] loaded_files(archive_entries(*old(archive)), skips, filter)
                    == final(self).files_view() && forall|d: Seq<char>| #[trigger]
                    final(self).listing(d) == loaded_listing(archive_entries(*old(archive)), skips, filter, d),
    {
        let ghost entries = archive_entries(*archive);
        let ghost mut skips: Seq<bool> = Seq::empty();
        let n = entry_count(archive);
        proof {
            assert(entries.take(0) =~= Seq::<EntryView>::empty());
        }
        for i in 0..n
            invariant
                self.wf(),
                filter_ok(filter),
                n == entries.len(),
                archive_entries(*archive) == entries,
                skips_ok(entries.take(i as int), skips, filter),
                self.files_view() == loaded_files(entries.take(i as int), skips, filter),
                forall|d: Seq<char>| #[trigger]
                    self.listing(d) == loaded_listing(entries.take(i as int), skips, filter, d),
        {
            let ghost before = *self;
            let skipped = self.load_entry(archive, i, filter);
            proof {
                let es = entries.take(i + 1);
                let old_skips = skips;
                assert(es.drop_last() =~= entries.take(i as int));
                assert(es.last() == entries[i as int]);
                skips = skips.push(skipped@);
                assert(skips.drop_last() =~= old_skips);
                assert(skips.last() == skipped@);
                assert forall|j: int| 0 <= j < skips.len() && #[trigger] skips[j] implies entry_load(
                    es[j],
                    filter,
                ) is Some by {
                    if j < i {
                        assert(old_skips[j] == skips[j]);
                        assert(es[j] == entries.take(i as int)[j]);
                    }
                }
                assert(self.files_view() == loaded_files(es, skips, filter));
                assert forall|d: Seq<char>| #[trigger] self.listing(d) == loaded_listing(es, skips, filter, d) by {
                    assert(before.listing(d) == loaded_listing(entries.take(i as int), old_skips, filter, d));
                }
            }
        }
        proof {
            assert(entries.take(n as int) =~= entries);
        }
    }

    /// Loads entry `i` of `archive` when `filter` admits it; an entry whose
    /// header or content cannot be read, or that cannot be held in memory,
    /// is skipped. The result tells whether an entry that would have loaded
    /// was skipped for want of memory.
    fn load_entry(&mut self, archive: &mut ZipArchive<Cursor<Vec<u8>>>, i: usize, filter: Option<&FilterSet>) -> (skipped: Ghost<bool>)
        requires
            old(self).wf(),
            filter_ok(filter),
            i < archive_entries(*old(archive)).len(),
        ensures
            final(self).wf(),
            archive_entries(*final(archive)) == archive_entries(*old(archive)),
            skipped@ ==> entry_load(archive_entries(*old(archive))[i as int], filter) is Some,
            match entry_load(archive_entries(*old(archive))[i as int], filter) {
                Some(pc) => if skipped@ {
                    unchanged(*final(self), *old(self))
                } else {
                    stored(*final(self), *old(self), pc.0, pc.1)
                },
                None => unchanged(*final(self), *old(self)),
            },
    {
        let ghost e = archive_entries(*archive)[i as int];
        let (name, size) = match entry_header(archive, i) {
            Some(h) => h,
            None => {
                assert(unchanged(*self, *old(self)));
                return Ghost(false);
            },
        };
        let path = match admit_entry(name.as_str(), filter) {
            Some(p) => p,
            None => {
                assert(unchanged(*self, *old(self)));
                return Ghost(false);
            },
        };
        if size > usize::MAX as u64 {
            assert(unchanged(*self, *old(self)));
            return Ghost(false);
        }
        let mut buf: Vec<u8> = Vec::new();
        let reserved = buf.try_reserve(size as usize).is_ok();
        let mut content: Option<Vec<u8>> = None;
        if reserved && read_entry(archive, i, &mut buf) {
            content = Some(buf);
        }
        match entry_outcome(Some(path), size, reserved, content) {
            Some((p, c)) => {
                proof {
                    lemma_normalized_shape(name@);
                    assert(c@ =~= e.1->0);
                }
                self.insert_file(p, c);
                Ghost(false)
            },
            None => {
                assert(unchanged(*self, *old(self)));
                Ghost(entry_load(e, filter) is Some)
            },
        }
    }

    /// Loads the entries of the ZIP archive held in `data`.
    ///
    /// With a ceiling, an archive longer than it is refused with
    /// `ArchiveTooLarge` before anything is read. An archive whose central
    /// directory cannot be parsed is refused with `Zip`. Otherwise every
    /// entry is loaded, in archive order, when its normalized name is a safe
    /// file path (not a directory) that the filter, if any, admits, and its
    /// bytes can be read; a name met again takes the later bytes. Entries
    /// that cannot be read are skipped, and so are entries for which no
    /// memory can be reserved.
    pub fn new(data: Vec<u8>, filter: Option<FilterSet>, max_archive_size: Option<u64>) -> (r: Result<Self, ZipFsError>)
        requires
            filter_ok(filter_ref(&filter)),
        ensures
            match max_archive_size {
                Some(c) => data@.len() > c ==> r == Err::<Self, ZipFsError>(
                    ZipFsError::ArchiveTooLarge(data@.len() as u64, c),
                ),
                None => true,
            },
            (max_archive_size is None || data@.len() <= max_archive_size->0) ==> (r is Ok
                <==> zip_entries(data@) is Some),
            match r {
                Ok(fs) => {
                    &&& fs.wf()
                    &&& zip_entries(data@) is Some
                    &&& forall|p: Seq<char>| #[trigger]
                        fs.files_view().contains_key(p) ==> is_file_key(p) && filter_admits(filter_ref(&filter), p)
                    &&& exists|skips: Seq<bool>|
                        skips_ok(zip_entries(data@)->0, skips, filter_ref(&filter))
                            && #[trigger] loaded_files(zip_entries(data@)->0, skips, filter_ref(&filter))
                            == fs.files_view() && forall|d: Seq<char>| #[trigger]
                            fs.listing(d) == loaded_listing(zip_entries(data@)->0, skips, filter_ref(&filter), d)
                },
                Err(e) => e is Zip || (e is ArchiveTooLarge && max_archive_size is Some
                    && data@.len() > max_archive_size->0),
            },
    {
        let size = data.len() as u64;
        if let Some(limit) = max_archive_size {
            if size > limit {
                return Err(ZipFsError::ArchiveTooLarge(size, limit));
            }
        }
        let ghost bytes = data@;
        let mut archive = match open_archive(data) {
            Ok(a) => a,
            Err(e) => return Err(ZipFsError::Zip(e)),
        };
        let mut fs = ZipFs::empty();
        let f = filter.as_ref();
        assert(f == filter_ref(&filter));
        fs.load_entries(&mut archive, f);
        proof {
            assert forall|p: Seq<char>| #[trigger] fs.files_view().contains_key(p) implies is_file_key(p)
                && filter_admits(f, p) by {
                assert(fs.files@.contains_key(p));
                let skips = choose|skips: Seq<bool>|
                    skips_ok(zip_entries(bytes)->0, skips, f)
                        && #[trigger] loaded_files(zip_entries(bytes)->0, skips, f) == fs.files_view()
                        && forall|d: Seq<char>| #[trigger]
                        fs.listing(d) == loaded_listing(zip_entries(bytes)->0, skips, f, d);
                lemma_loaded_admitted(zip_entries(bytes)->0, skips, f, p);
            }
        }
        Ok(fs)
    }

    /// The full paths of the files that are immediate children of
    /// `dir_path`, in the order they were loaded; empty for an unknown
    /// directory. Subdirectories are not entered.
    pub fn list_files(&self, dir_path: &str) -> (r: Vec<&str>)
        ensures
            r@.map_values(|s: &str| s@) == self.listing(normalized_dir(dir_path@)),
    {
        let normalized = normalize_dir(dir_path);
        let d: &str = match &normalized {
            Cow::Borrowed(b) => b,
            Cow::Owned(o) => o.as_str(),
        };
        let mut out: Vec<&str> = Vec::new();
        if let Some(b) = self.dir_index.get(d) {
            let b: usize = *b;
            if b < self.buckets.len() {
                let bucket = &self.buckets[b];
                for i in 0..bucket.len()
                    invariant
                        bucket@ == self.buckets@[b as int]@,
                        out@.len() == i,
                        forall|j: int| 0 <= j < i ==> #[trigger] out@[j]@ == bucket@[j]@,
                {
                    out.push(bucket[i].as_str());
                }
            }
        }
        proof {
            assert(out@.map_values(|s: &str| s@) =~= self.listing(normalized_dir(dir_path@)));
        }
        out
    }

    /// The content of the file at `path`, normalized first, if it was loaded.
    pub fn get_file(&self, path: &str) -> (r: Option<&[u8]>)
        ensures
            match r {
                Some(b) => self.files_view().contains_key(normalized(path@)) && b@
                    == self.files_view()[normalized(path@)],
                None => !self.files_view().contains_key(normalized(path@)),
            },
    {
        let normalized = normalize_path(path);
        let p: &str = match &normalized {
            Cow::Borrowed(b) => b,
            Cow::Owned(o) => o.as_str(),
        };
        match self.files.get(p) {
            Some(v) => Some(v.as_slice()),
            None => None,
        }
    }
}

/// The two indexes agree: a path is loaded exactly when the listing of its
/// parent directory holds it; whatever a directory lists is loaded and has
/// that directory as parent; no listing holds a path twice. So the listings
/// together hold each loaded path once, and nothing else.
pub proof fn law_index_consistency(fs: &ZipFs, d: Seq<char>, p: Seq<char>)
    requires
        fs.wf(),
    ensures
        fs.files_view().contains_key(p) <==> fs.listing(parent_of(p)).contains(p),
        fs.listing(d).contains(p) ==> fs.files_view().contains_key(p) && parent_of(p) == d,
        fs.listing(d).no_duplicates(),
{
    if fs.listing(d).contains(p) {
        let i = choose|i: int| 0 <= i < fs.listing(d).len() && fs.listing(d)[i] == p;
        assert(fs.files@.contains_key(fs.listing(d)[i]));
    }
    if fs.listing(parent_of(p)).contains(p) {
        let i = choose|i: int|
            0 <= i < fs.listing(parent_of(p)).len() && fs.listing(parent_of(p))[i] == p;
        assert(fs.files@.contains_key(fs.listing(parent_of(p))[i]));
    }
    if fs.files_view().contains_key(p) {
        assert(fs.files@.contains_key(p));
    }
}

/// Each listed path is found again under that same path: it is canonical,
/// and loaded.
pub proof fn law_listed_files_found(fs: &ZipFs, d: Seq<char>, p: Seq<char>)
    requires
        fs.wf(),
        fs.listing(d).contains(p),
    ensures
        normalized(p) == p,
        fs.files_view().contains_key(normalized(p)),
{
    let i = choose|i: int| 0 <= i < fs.listing(d).len() && fs.listing(d)[i] == p;
    assert(fs.files@.contains_key(fs.listing(d)[i]));
    assert(is_file_key(p));
    assert(with_forward_slashes(p) =~= p);
    assert(strip_leading(p) == p);
}

/// Looking up a path or its canonical form finds the same file: both
/// normalize to the same key.
pub proof fn law_lookup_of_normalized(fs: &ZipFs, p: Seq<char>)
    ensures
        fs.files_view().contains_key(normalized(normalized(p))) == fs.files_view().contains_key(
            normalized(p),
        ),
{
    law_normalize_idempotent(p);
}

proof fn lemma_parent_prefix(p: Seq<char>)
    ensures
        parent_of(p).len() <= p.len(),
        parent_of(p) == p.take(parent_of(p).len() as int),
    decreases p.len(),
{
    if p.len() == 0 {
        assert(p.take(0) =~= p);
    } else if p.last() == '/' {
        assert(p.drop_last() =~= p.take(p.len() - 1));
    } else {
        lemma_parent_prefix(p.drop_last());
        assert(p.drop_last().take(parent_of(p).len() as int) =~= p.take(parent_of(p).len() as int));
    }
}

/// Entry `e` loads, under the path `p`.
pub open spec fn loads_as(e: EntryView, filter: Option<&FilterSet>, p: Seq<char>) -> bool {
    match entry_load(e, filter) {
        Some(pc) => pc.0 == p,
        None => false,
    }
}

/// The paths loaded from `entries` are exactly those of the entries that
/// load and are not skipped: an entry that cannot be read adds nothing, and
/// takes nothing from the others. With no skip (every memory reservation
/// granted), an archive of N loadable entries with distinct paths and any
/// number of unreadable ones gives exactly those N files.
pub proof fn law_loaded_keys(entries: Seq<EntryView>, skips: Seq<bool>, filter: Option<&FilterSet>, p: Seq<char>)
    requires
        skips.len() == entries.len(),
    ensures
        loaded_files(entries, skips, filter).contains_key(p) <==> exists|i: int|
            0 <= i < entries.len() && !skips[i] && #[trigger] loads_as(entries[i], filter, p),
    decreases entries.len(),
{
    if entries.len() > 0 {
        let n = entries.len() - 1;
        let es = entries.drop_last();
        let ss = skips.drop_last();
        law_loaded_keys(es, ss, filter, p);
        if loaded_files(entries, skips, filter).contains_key(p) {
            let from_last = match last_load(entries, skips, filter) {
                Some(pc) => pc.0 == p,
                None => false,
            };
            if !from_last {
                let i = choose|i: int| 0 <= i < es.len() && !ss[i] && #[trigger] loads_as(es[i], filter, p);
                assert(es[i] == entries[i] && ss[i] == skips[i]);
            } else {
                assert(loads_as(entries[n], filter, p));
            }
        }
        if exists|i: int| 0 <= i < entries.len() && !skips[i] && #[trigger] loads_as(entries[i], filter, p) {
            let i = choose|i: int| 0 <= i < entries.len() && !skips[i] && #[trigger] loads_as(entries[i], filter, p);
            if i < n {
                assert(es[i] == entries[i] && ss[i] == skips[i]);
                assert(loads_as(es[i], filter, p));
            }
        }
    }
}

/// Every loaded file whose parent does not end in `/` is listed under its
/// directory as `list_files` names it: that parent is its own directory
/// form. (A file such as `a//b.txt`, whose parent `a/` normalizes to `a`, is
/// listed under `a/`, which no directory name reaches; `get_file` still
/// finds it.)
pub proof fn law_loaded_files_listed(fs: &ZipFs, p: Seq<char>)
    requires
        fs.wf(),
        fs.files_view().contains_key(p),
        !ends_in_slash(parent_of(p)),
    ensures
        normalized_dir(parent_of(p)) == parent_of(p),
        fs.listing(normalized_dir(parent_of(p))).contains(p),
{
    assert(fs.files@.contains_key(p));
    let q = parent_of(p);
    lemma_parent_prefix(p);
    assert(!q.contains('\\')) by {
        if q.contains('\\') {
            let j = choose|j: int| 0 <= j < q.len() && q[j] == '\\';
            assert(p[j] == '\\');
        }
    }
    assert(with_forward_slashes(q) =~= q);
    if q.len() > 0 {
        assert(q[0] == p[0]);
    }
    assert(strip_leading(q) == q);
    assert(strip_trailing(q) == q);
}

} // verus!
