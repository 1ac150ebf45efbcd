//! Canonical entry paths: normalization, traversal checks and parent lookup.
//!
//! A canonical path has no leading `/`, uses `/` as its only separator, is
//! not empty and holds no `..`.

use crate::zipfs::ZipFsError;
use std::borrow::Cow;
use vstd::prelude::*;
use vstd::string::StringExecFns;
use vstd::string::StrSliceExecFns;

verus! {

/// `s` without its leading `/` characters.
pub open spec fn strip_leading(s: Seq<char>) -> Seq<char>
    decreases s.len(),
{
    if s.len() > 0 && s[0] == '/' {
        strip_leading(s.drop_first())
    } else {
        s
    }
}

/// `s` without its trailing `/` characters.
pub open spec fn strip_trailing(s: Seq<char>) -> Seq<char>
    decreases s.len(),
{
    if s.len() > 0 && s.last() == '/' {
        strip_trailing(s.drop_last())
    } else {
        s
    }
}

/// A backslash read as a forward slash.
pub open spec fn forward_slash(c: char) -> char {
    if c == '\\' {
        '/'
    } else {
        c
    }
}

/// Every backslash of `s` turned into a forward slash.
pub open spec fn with_forward_slashes(s: Seq<char>) -> Seq<char> {
    s.map_values(|c: char| forward_slash(c))
}

/// The canonical form of a file path: backslashes turned into slashes,
/// then leading slashes removed.
pub open spec fn normalized(p: Seq<char>) -> Seq<char> {
    strip_leading(with_forward_slashes(p))
}

/// The canonical form of a directory path: as `normalized`, then trailing
/// slashes removed.
pub open spec fn normalized_dir(p: Seq<char>) -> Seq<char> {
    strip_trailing(normalized(p))
}

/// Positions `i` and `i + 1` of `p` both hold a dot.
pub open spec fn dot_dot_at(p: Seq<char>, i: int) -> bool {
    0 <= i && i + 1 < p.len() && p[i] == '.' && p[i + 1] == '.'
}

/// `p` holds two consecutive dots somewhere.
pub open spec fn has_dot_dot(p: Seq<char>) -> bool {
    exists|i: int| #[trigger] dot_dot_at(p, i)
}

/// A path is safe when it is not empty and holds no `..`.
pub open spec fn is_safe(p: Seq<char>) -> bool {
    p.len() > 0 && !has_dot_dot(p)
}

/// The part of `p` before its last `/`; empty when `p` has no `/`.
pub open spec fn parent_of(p: Seq<char>) -> Seq<char>
    decreases p.len(),
{
    if p.len() == 0 {
        p
    } else if p.last() == '/' {
        p.drop_last()
    } else {
        parent_of(p.drop_last())
    }
}

proof fn lemma_strip_leading_at(s: Seq<char>, k: int)
    requires
        0 <= k <= s.len(),
        forall|j: int| 0 <= j < k ==> s[j] == '/',
        k == s.len() || s[k] != '/',
    ensures
        strip_leading(s) == s.skip(k),
    decreases k,
{
    if k == 0 {
        assert(s.skip(0) =~= s);
    } else {
        lemma_strip_leading_at(s.drop_first(), k - 1);
        assert(s.drop_first().skip(k - 1) =~= s.skip(k));
    }
}

proof fn lemma_strip_trailing_at(s: Seq<char>, e: int)
    requires
        0 <= e <= s.len(),
        forall|j: int| e <= j < s.len() ==> s[j] == '/',
        e == 0 || s[e - 1] != '/',
    ensures
        strip_trailing(s) == s.take(e),
    decreases s.len() - e,
{
    if e == s.len() {
        assert(s.take(e) =~= s);
    } else {
        lemma_strip_trailing_at(s.drop_last(), e);
        assert(s.drop_last().take(e) =~= s.take(e));
    }
}

proof fn lemma_parent_at(s: Seq<char>, i: int)
    requires
        0 <= i < s.len(),
        s[i] == '/',
        forall|j: int| i < j < s.len() ==> s[j] != '/',
    ensures
        parent_of(s) == s.take(i),
    decreases s.len(),
{
    if s.last() == '/' {
        assert(s.drop_last() =~= s.take(i));
    } else {
        lemma_parent_at(s.drop_last(), i);
        assert(s.drop_last().take(i) =~= s.take(i));
    }
}

proof fn lemma_parent_none(s: Seq<char>)
    requires
        forall|j: int| 0 <= j < s.len() ==> s[j] != '/',
    ensures
        parent_of(s) == Seq::<char>::empty(),
    decreases s.len(),
{
    if s.len() > 0 {
        lemma_parent_none(s.drop_last());
    }
}

/// The number of leading `/` characters of `s`.
pub open spec fn leading_count(s: Seq<char>) -> nat
    decreases s.len(),
{
    if s.len() > 0 && s[0] == '/' {
        1 + leading_count(s.drop_first())
    } else {
        0
    }
}

proof fn lemma_strip_leading_skips(s: Seq<char>)
    ensures
        leading_count(s) <= s.len(),
        strip_leading(s) == s.skip(leading_count(s) as int),
        forall|j: int| 0 <= j < leading_count(s) ==> s[j] == '/',
        leading_count(s) < s.len() ==> s[leading_count(s) as int] != '/',
    decreases s.len(),
{
    if s.len() > 0 && s[0] == '/' {
        lemma_strip_leading_skips(s.drop_first());
        assert(s.drop_first().skip(leading_count(s.drop_first()) as int) =~= s.skip(
            leading_count(s) as int,
        ));
        assert forall|j: int| 0 <= j < leading_count(s) implies s[j] == '/' by {
            if j > 0 {
                assert(s[j] == s.drop_first()[j - 1]);
            }
        }
    } else {
        assert(s.skip(0) =~= s);
    }
}

/// A canonical form holds no backslash and does not start with `/`.
pub proof fn lemma_normalized_shape(p: Seq<char>)
    ensures
        !normalized(p).contains('\\'),
        normalized(p).len() > 0 ==> normalized(p)[0] != '/',
        normalized(p).len() <= p.len(),
{
    let w = with_forward_slashes(p);
    lemma_strip_leading_skips(w);
    let k = leading_count(w) as int;
    if normalized(p).contains('\\') {
        let j = choose|j: int| 0 <= j < normalized(p).len() && normalized(p)[j] == '\\';
        assert(normalized(p)[j] == w[j + k]);
    }
}

/// Normalizing twice changes nothing: a canonical form is its own
/// canonical form.
pub proof fn law_normalize_idempotent(p: Seq<char>)
    ensures
        normalized(normalized(p)) == normalized(p),
{
    let q = normalized(p);
    lemma_normalized_shape(p);
    assert(with_forward_slashes(q) =~= q);
    assert(strip_leading(q) == q);
}

proof fn lemma_strip_trailing_prefix(s: Seq<char>)
    ensures
        strip_trailing(s).len() <= s.len(),
        strip_trailing(s) == s.take(strip_trailing(s).len() as int),
        strip_trailing(s).len() > 0 ==> strip_trailing(s).last() != '/',
    decreases s.len(),
{
    if s.len() > 0 && s.last() == '/' {
        lemma_strip_trailing_prefix(s.drop_last());
        assert(s.drop_last().take(strip_trailing(s).len() as int) =~= s.take(
            strip_trailing(s).len() as int,
        ));
    } else {
        assert(s.take(s.len() as int) =~= s);
    }
}

/// Normalizing a directory path twice changes nothing.
pub proof fn law_normalize_dir_idempotent(p: Seq<char>)
    ensures
        normalized_dir(normalized_dir(p)) == normalized_dir(p),
{
    let n = normalized(p);
    let q = normalized_dir(p);
    lemma_normalized_shape(p);
    lemma_strip_trailing_prefix(n);
    assert(!q.contains('\\')) by {
        if q.contains('\\') {
            let j = choose|j: int| 0 <= j < q.len() && q[j] == '\\';
            assert(n[j] == '\\');
        }
    }
    assert(with_forward_slashes(q) =~= q);
    if q.len() > 0 {
        assert(q[0] == n[0]);
    }
    assert(strip_leading(q) == q);
    assert(normalized(q) == q);
    assert(strip_trailing(q) == q);
}

/// A path that holds `..` is unsafe, and so is its canonical form: such a
/// path is never accepted as a rule of a filter set.
pub proof fn law_dot_dot_unsafe(p: Seq<char>)
    requires
        has_dot_dot(p),
    ensures
        !is_safe(p),
        !is_safe(normalized(p)),
{
    let i = choose|i: int| dot_dot_at(p, i);
    let w = with_forward_slashes(p);
    lemma_strip_leading_skips(w);
    let k = leading_count(w) as int;
    assert(w[i] == '.');
    assert(i >= k);
    assert(dot_dot_at(normalized(p), i - k));
}

/// Relies on String::push: appends one character at the end.
pub assume_specification[ String::push ](s: &mut String, ch: char)
    ensures
        final(s)@ == old(s)@.push(ch),
;

/// Copies the characters of `s` into a vector.
pub(crate) fn chars_of(s: &str) -> (r: Vec<char>)
    ensures
        r@ == s@,
{
    let mut r: Vec<char> = Vec::new();
    for c in it: s.chars()
        invariant
            r@ == it.seq().take(it.index() as int),
    {
        r.push(c);
    }
    assert(r@ =~= s@);
    r
}

/// The number of leading characters of `cs` that read as slashes.
fn leading_slashes(cs: &Vec<char>) -> (k: usize)
    ensures
        k <= cs.len(),
        strip_leading(with_forward_slashes(cs@)) == with_forward_slashes(cs@).skip(k as int),
        forall|j: int| 0 <= j < k ==> cs@[j] == '/' || cs@[j] == '\\',
{
    let n = cs.len();
    let mut k: usize = 0;
    while k < n && (cs[k] == '/' || cs[k] == '\\')
        invariant
            k <= n,
            n == cs.len(),
            forall|j: int| 0 <= j < k ==> cs@[j] == '/' || cs@[j] == '\\',
        decreases n - k,
    {
        k += 1;
    }
    proof {
        lemma_strip_leading_at(with_forward_slashes(cs@), k as int);
    }
    k
}

/// Whether `cs[from..to]` holds a backslash.
fn has_backslash(cs: &Vec<char>, from: usize, to: usize) -> (r: bool)
    requires
        from <= to <= cs.len(),
    ensures
        r == exists|j: int| from <= j < to && cs@[j] == '\\',
{
    let mut i: usize = from;
    while i < to
        invariant
            from <= i <= to <= cs.len(),
            forall|j: int| from <= j < i ==> cs@[j] != '\\',
        decreases to - i,
    {
        if cs[i] == '\\' {
            return true;
        }
        i += 1;
    }
    false
}

/// `cs[from..to]` with its backslashes turned into slashes, as a string.
fn forward_slashed(cs: &Vec<char>, from: usize, to: usize) -> (r: String)
    requires
        from <= to <= cs.len(),
    ensures
        r@ == with_forward_slashes(cs@.subrange(from as int, to as int)),
{
    let mut out = String::new();
    let mut i: usize = from;
    while i < to
        invariant
            from <= i <= to <= cs.len(),
            out@ == with_forward_slashes(cs@.subrange(from as int, i as int)),
        decreases to - i,
    {
        let c = cs[i];
        if c == '\\' {
            out.push('/');
        } else {
            out.push(c);
        }
        proof {
            assert(with_forward_slashes(cs@.subrange(from as int, i + 1)) =~= with_forward_slashes(
                cs@.subrange(from as int, i as int),
            ).push(forward_slash(c)));
        }
        i += 1;
    }
    out
}

/// The canonical form of `cs[from..to]` given as a view of `s`: borrowed
/// when it holds no backslash.
fn slashed_view<'a>(s: &'a str, cs: &Vec<char>, from: usize, to: usize) -> (r: Cow<'a, str>)
    requires
        cs@ == s@,
        from <= to <= cs.len(),
    ensures
        r@ == with_forward_slashes(cs@.subrange(from as int, to as int)),
        (forall|j: int| from <= j < to ==> cs@[j] != '\\') ==> r is Borrowed,
{
    if has_backslash(cs, from, to) {
        Cow::Owned(forward_slashed(cs, from, to))
    } else {
        let t = s.substring_char(from, to);
        assert(t@ =~= with_forward_slashes(cs@.subrange(from as int, to as int)));
        Cow::Borrowed(t)
    }
}

/// Whether `path` is not empty and holds no `..` anywhere.
///
/// The check is deliberately coarse: a name such as `a..b` is refused too.
pub fn is_safe_path(path: &str) -> (r: bool)
    ensures
        r == is_safe(path@),
{
    let cs = chars_of(path);
    let n = cs.len();
    if n == 0 {
        return false;
    }
    let mut i: usize = 0;
    while i + 1 < n
        invariant
            n == cs.len(),
            cs@ == path@,
            n > 0,
            i < n,
            forall|j: int| 0 <= j < i ==> !#[trigger] dot_dot_at(cs@, j),
        decreases n - i,
    {
        if cs[i] == '.' && cs[i + 1] == '.' {
            assert(dot_dot_at(cs@, i as int));
            return false;
        }
        i += 1;
    }
    true
}

/// Normalizes `path` and checks that the result is a safe, non-empty path.
pub fn validate_path(path: &str) -> (r: Result<String, ZipFsError>)
    ensures
        match r {
            Ok(s) => s@ == normalized(path@) && is_safe(s@),
            Err(e) => e is InvalidPattern && !is_safe(normalized(path@)),
        },
{
    let normalized = normalize_path(path);
    let s: &str = match &normalized {
        Cow::Borrowed(b) => b,
        Cow::Owned(o) => o.as_str(),
    };
    if !is_safe_path(s) {
        if s.unicode_len() == 0 {
            return Err(ZipFsError::InvalidPattern(String::from_str("empty path")));
        }
        return Err(ZipFsError::InvalidPattern(String::from_str("path traversal not allowed")));
    }
    Ok(String::from_str(s))
}

/// The directory part of `path`: what stands before its last `/`, or the
/// empty string (the root) when it has none.
pub fn parent_dir(path: &str) -> (r: &str)
    ensures
        r@ == parent_of(path@),
{
    let cs = chars_of(path);
    let mut i: usize = cs.len();
    while i > 0
        invariant
            i <= cs.len(),
            cs@ == path@,
            forall|j: int| i <= j < cs.len() ==> cs@[j] != '/',
        decreases i,
    {
        if cs[i - 1] == '/' {
            proof {
                lemma_parent_at(cs@, i - 1);
            }
            return path.substring_char(0, i - 1);
        }
        i -= 1;
    }
    proof {
        lemma_parent_none(cs@);
    }
    path.substring_char(0, 0)
}

/// The canonical form of a file path: each `\` turned into `/`, then
/// leading `/` removed. The input is handed back as a borrowed view when
/// that is all it takes.
pub fn normalize_path(path: &str) -> (r: Cow<'_, str>)
    ensures
        r@ == normalized(path@),
        !path@.contains('\\') ==> r is Borrowed,
        path@ == normalized(path@) ==> r is Borrowed,
{
    let cs = chars_of(path);
    let k = leading_slashes(&cs);
    let r = slashed_view(path, &cs, k, cs.len());
    proof {
        assert(with_forward_slashes(cs@).skip(k as int) =~= with_forward_slashes(
            cs@.subrange(k as int, cs.len() as int),
        ));
        lemma_normalized_shape(path@);
        if !path@.contains('\\') {
            assert forall|j: int| k <= j < cs.len() implies cs@[j] != '\\' by {
                assert(path@[j] == cs@[j]);
            }
        }
    }
    r
}

/// The canonical form of a directory path: as [`normalize_path`], and with
/// trailing `/` removed as well.
pub fn normalize_dir(dir: &str) -> (r: Cow<'_, str>)
    ensures
        r@ == normalized_dir(dir@),
        !dir@.contains('\\') ==> r is Borrowed,
{
    let cs = chars_of(dir);
    let n = cs.len();
    let k = leading_slashes(&cs);
    let mut e: usize = n;
    while e > k && (cs[e - 1] == '/' || cs[e - 1] == '\\')
        invariant
            k <= e <= n,
            n == cs.len(),
            forall|j: int| e <= j < n ==> forward_slash(cs@[j]) == '/',
        decreases e,
    {
        e -= 1;
    }
    let r = slashed_view(dir, &cs, k, e);
    proof {
        let t = normalized(dir@);
        assert(t =~= with_forward_slashes(cs@.subrange(k as int, n as int)));
        lemma_strip_trailing_at(t, e - k);
        assert(t.take(e - k) =~= with_forward_slashes(cs@.subrange(k as int, e as int)));
        if !dir@.contains('\\') {
            assert forall|j: int| k <= j < e implies cs@[j] != '\\' by {
                assert(dir@[j] == cs@[j]);
            }
        }
    }
    r
}

} // verus!
