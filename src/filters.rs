//! Selective loading: a set of exact paths and glob patterns.

use crate::path_utils::{is_safe, lemma_normalized_shape, normalized, validate_path};
use crate::zipfs::ZipFsError;
use vstd::hash_set::StringHashSet;
use vstd::prelude::*;
use vstd::string::StringExecFns;

verus! {

/// Whether `path` matches the glob `pattern`, as `fast_glob` decides it.
pub uninterp spec fn glob_matches(pattern: Seq<char>, path: Seq<char>) -> bool;

/// The most `{` a glob pattern may hold: fast_glob keeps open brace groups
/// on a stack of this many places.
pub const MAX_BRACES: usize = 10;

/// The number of `{` in `s`.
pub open spec fn brace_count(s: Seq<char>) -> nat
    decreases s.len(),
{
    if s.len() == 0 {
        0
    } else {
        brace_count(s.drop_last()) + if s.last() == '{' {
            1nat
        } else {
            0nat
        }
    }
}

/// Relies on fast_glob::glob_match: whether `path` matches the glob
/// `pattern`. With no backslash in either string (the only character whose
/// reading as a separator differs between platforms) the answer depends on
/// the two strings alone. The pattern holds at most `MAX_BRACES` open
/// braces, so the crate's fixed brace stack cannot overflow.
#[verifier::external_body]
fn glob_match(pattern: &str, path: &str) -> (r: bool)
    requires
        brace_count(pattern@) <= MAX_BRACES,
        !pattern@.contains('\\'),
        !path@.contains('\\'),
    ensures
        r == glob_matches(pattern@, path@),
{
    fast_glob::glob_match(pattern, path)
}

/// The number of `{` in `s`.
fn count_braces(s: &str) -> (r: usize)
    ensures
        r == brace_count(s@),
{
    let cs = crate::path_utils::chars_of(s);
    let mut n: usize = 0;
    let mut i: usize = 0;
    while i < cs.len()
        invariant
            i <= cs.len(),
            cs@ == s@,
            n == brace_count(cs@.take(i as int)),
            n <= i,
        decreases cs.len() - i,
    {
        assert(cs@.take(i + 1).drop_last() =~= cs@.take(i as int));
        if cs[i] == '{' {
            n += 1;
        }
        i += 1;
    }
    assert(cs@.take(cs.len() as int) =~= cs@);
    n
}

/// A set of rules that select archive entries: exact paths and glob
/// patterns, each validated and normalized when added.
///
/// Glob patterns follow `fast_glob`, which matches bytes: `?` matches one
/// byte (so never a whole non-ASCII character), `*` any run
/// of characters within one path segment (it never crosses a `/`), and `**`
/// whole segments. So `a/*.xml` matches `a/c.xml` but not `a/b/c.xml`.
/// Brace groups (`{a,b}`) are accepted, up to `MAX_BRACES` open braces per
/// pattern.
///
/// A set with no rules matches nothing: to load every entry, pass no filter.
pub struct FilterSet {
    exact: StringHashSet,
    globs: Vec<String>,
}

impl FilterSet {
    /// The exact paths of the set.
    pub closed spec fn exact_rules(&self) -> Set<Seq<char>> {
        self.exact@
    }

    /// The glob patterns of the set, in the order they were added.
    pub closed spec fn glob_rules(&self) -> Seq<Seq<char>> {
        self.globs@.map_values(|g: String| g@)
    }

    /// Every rule is safe, and no glob holds more than `MAX_BRACES` braces.
    pub open spec fn wf(&self) -> bool {
        &&& forall|p: Seq<char>| #[trigger] self.exact_rules().contains(p) ==> is_safe(p)
        &&& forall|i: int|
            0 <= i < self.glob_rules().len() ==> is_safe(#[trigger] self.glob_rules()[i])
                && brace_count(self.glob_rules()[i]) <= MAX_BRACES && !self.glob_rules()[i].contains(
                '\\',
            )
    }

    /// No rule has been added.
    pub open spec fn has_no_rules(&self) -> bool {
        self.exact_rules().is_empty() && self.glob_rules().len() == 0
    }

    /// `path` is one of the exact paths or matches one of the globs.
    pub open spec fn admits(&self, path: Seq<char>) -> bool {
        ||| self.exact_rules().contains(path)
        ||| exists|i: int|
            0 <= i < self.glob_rules().len() && glob_matches(#[trigger] self.glob_rules()[i], path)
    }

    /// An empty filter set.
    pub fn new() -> (r: Self)
        ensures
            r.wf(),
            r.has_no_rules(),
            r.exact_rules() == Set::<Seq<char>>::empty(),
            r.glob_rules() == Seq::<Seq<char>>::empty(),
    {
        let r = FilterSet { exact: StringHashSet::new(), globs: Vec::new() };
        assert(r.glob_rules() =~= Seq::<Seq<char>>::empty());
        r
    }

    /// Adds an exact path, normalized first; fails with `InvalidPattern` when
    /// the normalized path is empty or holds `..`, and then leaves the set as
    /// it was.
    pub fn add_exact(&mut self, path: &str) -> (r: Result<(), ZipFsError>)
        requires
            old(self).wf(),
        ensures
            final(self).wf(),
            match r {
                Ok(_) => {
                    &&& is_safe(normalized(path@))
                    &&& !final(self).has_no_rules()
                    &&& final(self).exact_rules() == old(self).exact_rules().insert(normalized(path@))
                    &&& final(self).glob_rules() == old(self).glob_rules()
                },
                Err(e) => {
                    &&& e is InvalidPattern
                    &&& !is_safe(normalized(path@))
                    &&& final(self).exact_rules() == old(self).exact_rules()
                    &&& final(self).glob_rules() == old(self).glob_rules()
                },
            },
    {
        let normalized = match validate_path(path) {
            Ok(n) => n,
            Err(e) => return Err(e),
        };
        self.exact.insert(normalized);
        assert(self.exact_rules().contains(normalized@));
        assert forall|p: Seq<char>| #[trigger] self.exact_rules().contains(p) implies is_safe(p) by {
            if p != normalized@ {
                assert(old(self).exact_rules().contains(p));
            }
        }
        assert(self.glob_rules() == old(self).glob_rules());
        Ok(())
    }

    /// Appends a glob pattern, normalized first; fails with `InvalidPattern`
    /// when the normalized pattern is empty, holds `..` or holds more than
    /// `MAX_BRACES` braces, and then leaves the set as it was.
    pub fn add_glob(&mut self, pattern: &str) -> (r: Result<(), ZipFsError>)
        requires
            old(self).wf(),
        ensures
            final(self).wf(),
            match r {
                Ok(_) => {
                    &&& is_safe(normalized(pattern@))
                    &&& brace_count(normalized(pattern@)) <= MAX_BRACES
                    &&& !final(self).has_no_rules()
                    &&& final(self).exact_rules() == old(self).exact_rules()
                    &&& final(self).glob_rules() == old(self).glob_rules().push(normalized(pattern@))
                },
                Err(e) => {
                    &&& e is InvalidPattern
                    &&& (!is_safe(normalized(pattern@)) || brace_count(normalized(pattern@)) > MAX_BRACES)
                    &&& final(self).exact_rules() == old(self).exact_rules()
                    &&& final(self).glob_rules() == old(self).glob_rules()
                },
            },
    {
        let normalized = match validate_path(pattern) {
            Ok(n) => n,
            Err(e) => return Err(e),
        };
        proof {
            lemma_normalized_shape(pattern@);
        }
        if count_braces(normalized.as_str()) > MAX_BRACES {
            return Err(ZipFsError::InvalidPattern(String::from_str("too many brace groups")));
        }
        self.globs.push(normalized);
        assert(self.glob_rules() =~= old(self).glob_rules().push(normalized@));
        assert(self.glob_rules()[self.glob_rules().len() - 1] == normalized@);
        assert forall|p: Seq<char>| #[trigger] self.exact_rules().contains(p) implies is_safe(p) by {
            assert(old(self).exact_rules().contains(p));
        }
        Ok(())
    }

    /// Whether `path`, already canonical, is one of the exact paths or
    /// matches one of the globs.
    pub fn matches_str(&self, path: &str) -> (r: bool)
        requires
            self.wf(),
            !path@.contains('\\'),
        ensures
            r == self.admits(path@),
    {
        if self.exact.contains(path) {
            return true;
        }
        let mut i: usize = 0;
        while i < self.globs.len()
            invariant
                self.wf(),
                !path@.contains('\\'),
                i <= self.globs.len(),
                forall|j: int| 0 <= j < i ==> !glob_matches(#[trigger] self.glob_rules()[j], path@),
            decreases self.globs.len() - i,
        {
            assert(self.glob_rules()[i as int] == self.globs@[i as int]@);
            if glob_match(self.globs[i].as_str(), path) {
                return true;
            }
            i += 1;
        }
        false
    }

    /// Whether no rule has been added.
    pub fn is_empty(&self) -> (r: bool)
        ensures
            r == self.has_no_rules(),
    {
        self.exact.is_empty() && self.globs.len() == 0
    }
}

impl Default for FilterSet {
    fn default() -> (r: Self)
        ensures
            r.wf(),
            r.has_no_rules(),
    {
        FilterSet::new()
    }
}

} // verus!
