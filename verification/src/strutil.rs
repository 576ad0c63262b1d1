//! Executable string helpers with exact specifications: prefix test,
//! substring search, concatenation, dot counting, depth truncation, and
//! ordered insertion into a vector of strings.

use vstd::prelude::*;

verus! {

use vstd::string::StrSliceExecFns;
use vstd::string::StringExecFns;
use crate::lex::{lex_lt, str_lt, lemma_lex_trichotomy, lemma_lex_lt_transitive};

/// Some element of `v` views to `x`.
pub open spec fn has_view(v: Seq<String>, x: Seq<char>) -> bool {
    exists|i: int| 0 <= i < v.len() && v[i]@ == x
}

/// The views of `v` are strictly ascending, hence duplicate-free.
pub open spec fn views_sorted(v: Seq<String>) -> bool {
    forall|i: int, j: int| 0 <= i < j < v.len() ==> lex_lt(v[i]@, v[j]@)
}

/// `sub` occurs contiguously somewhere in `s`.
pub open spec fn contains_substr(s: Seq<char>, sub: Seq<char>) -> bool {
    exists|i: int| 0 <= i <= s.len() - sub.len() && #[trigger] s.subrange(i, i + sub.len()) == sub
}

/// Number of `'.'` characters in `s`.
pub open spec fn dots(s: Seq<char>) -> nat
    decreases s.len(),
{
    if s.len() == 0 {
        0
    } else {
        (if s[0] == '.' { 1nat } else { 0nat }) + dots(s.skip(1))
    }
}

/// `q` is `p` truncated at depth `t`: a prefix with exactly `t` dots that
/// either is all of `p` or stops right before a dot.
pub open spec fn is_cut(p: Seq<char>, t: int, q: Seq<char>) -> bool {
    &&& q.is_prefix_of(p)
    &&& dots(q) == t
    &&& (q.len() == p.len() || p[q.len() as int] == '.')
}

/// Dot counts add over a split of the sequence.
pub proof fn lemma_dots_split(s: Seq<char>, i: int)
    requires
        0 <= i <= s.len(),
    ensures
        dots(s) == dots(s.take(i)) + dots(s.skip(i)),
    decreases i,
{
    if i == 0 {
        assert(s.take(0) =~= Seq::<char>::empty());
        assert(s.skip(0) =~= s);
    } else {
        assert(s.len() > 0);
        lemma_dots_split(s.skip(1), i - 1);
        assert(s.skip(1).take(i - 1) =~= s.take(i).skip(1));
        assert(s.skip(1).skip(i - 1) =~= s.skip(i));
        assert(s.take(i).len() > 0);
        assert(s.take(i)[0] == s[0]);
    }
}

/// Appending one character changes the dot count by at most one.
pub proof fn lemma_dots_take_succ(s: Seq<char>, i: int)
    requires
        0 <= i < s.len(),
    ensures
        dots(s.take(i + 1)) == dots(s.take(i)) + (if s[i] == '.' { 1int } else { 0int }),
{
    lemma_dots_split(s.take(i + 1), i);
    assert(s.take(i + 1).take(i) =~= s.take(i));
    let single = s.take(i + 1).skip(i);
    assert(single =~= seq![s[i]]);
    assert(single.len() == 1 && single[0] == s[i]);
    assert(single.skip(1) =~= Seq::<char>::empty());
    assert(dots(single.skip(1)) == 0);
    assert(dots(single) == (if s[i] == '.' { 1int } else { 0int }));
}

/// The views of the first `n` elements of `v`, as a set.
pub open spec fn views_upto(v: Seq<String>, n: int) -> Set<Seq<char>> {
    Set::new(|k: Seq<char>| exists|j: int| 0 <= j < n && v[j]@ == k)
}

/// A truncation at depth `t` exists only when `p` has at least `t` dots.
pub proof fn lemma_cut_needs_dots(p: Seq<char>, t: int, q: Seq<char>)
    requires
        is_cut(p, t, q),
    ensures
        dots(p) >= t,
{
    lemma_dots_split(p, q.len() as int);
    assert(p.take(q.len() as int) =~= q);
}

/// At one depth `t`, `p` has at most one truncation.
pub proof fn lemma_cut_unique(p: Seq<char>, t: int, q1: Seq<char>, q2: Seq<char>)
    requires
        is_cut(p, t, q1),
        is_cut(p, t, q2),
    ensures
        q1 == q2,
{
    if q1.len() < q2.len() {
        assert(q1.len() < p.len());
        assert(p[q1.len() as int] == '.');
        lemma_dots_split(q2, q1.len() as int);
        assert(q2.take(q1.len() as int) =~= q1);
        let mid = q2.skip(q1.len() as int);
        assert(mid[0] == q2[q1.len() as int]);
        assert(q2[q1.len() as int] == p[q1.len() as int]);
        assert(dots(mid) >= 1);
    } else if q2.len() < q1.len() {
        assert(q2.len() < p.len());
        assert(p[q2.len() as int] == '.');
        lemma_dots_split(q1, q2.len() as int);
        assert(q1.take(q2.len() as int) =~= q2);
        let mid = q1.skip(q2.len() as int);
        assert(mid[0] == q1[q2.len() as int]);
        assert(q1[q2.len() as int] == p[q2.len() as int]);
        assert(dots(mid) >= 1);
    } else {
        assert(q1 =~= q2);
    }
}

/// Concatenation of two strings.
pub fn str_concat(a: &str, b: &str) -> (r: String)
    ensures
        r@ == a@ + b@,
{
    let mut s = a.to_owned();
    s.append(b);
    s
}

/// Whether `p` opens `s`.
pub fn starts_with_str(s: &str, p: &str) -> (r: bool)
    ensures
        r == p@.is_prefix_of(s@),
{
    let slen = s.unicode_len();
    let plen = p.unicode_len();
    if plen > slen {
        return false;
    }
    let mut i: usize = 0;
    while i < plen
        invariant
            i <= plen,
            plen <= slen,
            slen == s@.len(),
            plen == p@.len(),
            forall|j: int| 0 <= j < i ==> s@[j] == p@[j],
        decreases plen - i,
    {
        if s.get_char(i) != p.get_char(i) {
            assert(!p@.is_prefix_of(s@)) by {
                assert(s@.subrange(0, p@.len() as int)[i as int] == s@[i as int]);
            }
            return false;
        }
        i += 1;
    }
    assert(p@ =~= s@.subrange(0, p@.len() as int));
    true
}

/// The characters of `s` from position `from` on, as a fresh string.
pub fn suffix_from(s: &str, from: usize) -> (r: String)
    requires
        from <= s@.len(),
    ensures
        r@ == s@.skip(from as int),
{
    let len = s.unicode_len();
    let tail = s.substring_char(from, len);
    proof {
        assert(tail@ =~= s@.skip(from as int));
    }
    tail.to_owned()
}

/// Whether the characters of `s` starting at `at` spell `sub`.
fn matches_at(s: &str, sub: &str, at: usize) -> (r: bool)
    requires
        at + sub@.len() <= s@.len(),
    ensures
        r == (s@.subrange(at as int, at + sub@.len()) == sub@),
{
    let slen = s.unicode_len();
    let blen = sub.unicode_len();
    let mut i: usize = 0;
    while i < blen
        invariant
            i <= blen,
            blen == sub@.len(),
            slen == s@.len(),
            at + blen <= s@.len(),
            forall|j: int| 0 <= j < i ==> s@[at + j] == sub@[j],
        decreases blen - i,
    {
        if s.get_char(at + i) != sub.get_char(i) {
            assert(s@.subrange(at as int, at + sub@.len()) != sub@) by {
                assert(s@.subrange(at as int, at + sub@.len())[i as int] == s@[at + i]);
            }
            return false;
        }
        i += 1;
    }
    assert(s@.subrange(at as int, at + sub@.len()) =~= sub@);
    true
}

/// Whether `sub` occurs anywhere in `s`.
pub fn str_contains(s: &str, sub: &str) -> (r: bool)
    ensures
        r == contains_substr(s@, sub@),
{
    let slen = s.unicode_len();
    let blen = sub.unicode_len();
    if blen > slen {
        assert(!contains_substr(s@, sub@));
        return false;
    }
    if blen == 0 {
        assert(contains_substr(s@, sub@)) by {
            assert(s@.subrange(0int, 0int + sub@.len() as int) =~= sub@);
            assert(s@.subrange(0int, 0int + sub@.len() as int) == sub@);
        }
        return true;
    }
    let bound = slen - blen;
    let mut i: usize = 0;
    while i <= bound
        invariant
            1 <= blen <= slen,
            slen == s@.len(),
            blen == sub@.len(),
            bound == slen - blen,
            i <= bound + 1,
            forall|j: int| 0 <= j < i ==> #[trigger] s@.subrange(j, j + sub@.len()) != sub@,
        decreases bound + 1 - i,
    {
        if matches_at(s, sub, i) {
            assert(contains_substr(s@, sub@)) by {
                assert(0 <= i as int <= s@.len() - sub@.len());
                assert(s@.subrange(i as int, i as int + sub@.len()) == sub@);
            }
            return true;
        }
        i += 1;
    }
    false
}

/// Number of `'.'` characters in `s`.
pub fn count_dots(s: &str) -> (r: usize)
    ensures
        r == dots(s@),
{
    let len = s.unicode_len();
    let mut i: usize = 0;
    let mut count: usize = 0;
    while i < len
        invariant
            i <= len,
            len == s@.len(),
            count == dots(s@.take(i as int)),
            count <= i,
        decreases len - i,
    {
        proof {
            lemma_dots_take_succ(s@, i as int);
        }
        if s.get_char(i) == '.' {
            count += 1;
        }
        i += 1;
    }
    proof {
        assert(s@.take(len as int) =~= s@);
    }
    count
}

/// Truncates `p` at depth `t`: the prefix with exactly `t` dots ending at a
/// dot boundary, or all of `p` when `p` has exactly `t` dots, or nothing when
/// `p` has fewer than `t` dots.
pub fn cut_path(p: &str, t: u128) -> (r: Option<String>)
    ensures
        (r is Some) == (dots(p@) >= t),
        r is Some ==> is_cut(p@, t as int, r.unwrap()@),
{
    let len = p.unicode_len();
    let mut i: usize = 0;
    let mut count: usize = 0;
    while i < len
        invariant
            i <= len,
            len == p@.len(),
            count == dots(p@.take(i as int)),
            count <= i,
            (count as u128) <= t,
        decreases len - i,
    {
        proof {
            lemma_dots_take_succ(p@, i as int);
        }
        if p.get_char(i) == '.' {
            if (count as u128) == t {
                let q = p.substring_char(0, i).to_owned();
                proof {
                    assert(q@ =~= p@.take(i as int));
                    assert(q@.is_prefix_of(p@)) by {
                        assert(q@ =~= p@.subrange(0, q@.len() as int));
                    }
                    lemma_dots_split(p@, i as int);
                    assert(dots(p@.skip(i as int)) >= 1) by {
                        assert(p@.skip(i as int)[0] == p@[i as int]);
                    }
                }
                return Some(q);
            }
            count += 1;
        }
        i += 1;
    }
    proof {
        assert(p@.take(len as int) =~= p@);
    }
    if (count as u128) == t {
        let whole = p.to_owned();
        proof {
            assert(whole@.is_prefix_of(p@)) by {
                assert(whole@ =~= p@.subrange(0, whole@.len() as int));
            }
        }
        Some(whole)
    } else {
        None
    }
}

/// Inserts `s` into the strictly ascending vector `v`, keeping it strictly
/// ascending; a string already present is not duplicated.
pub fn insert_sorted(v: &mut Vec<String>, s: String)
    requires
        views_sorted(old(v)@),
    ensures
        views_sorted(final(v)@),
        forall|x: Seq<char>|
            has_view(final(v)@, x) == (has_view(old(v)@, x) || x == s@),
{
    let mut i: usize = 0;
    while i < v.len() && str_lt(v[i].as_str(), s.as_str())
        invariant
            i <= v@.len(),
            v@ == old(v)@,
            forall|j: int| 0 <= j < i ==> lex_lt(v@[j]@, s@),
        decreases v@.len() - i,
    {
        i += 1;
    }
    if i < v.len() {
        let same = !str_lt(s.as_str(), v[i].as_str());
        proof {
            lemma_lex_trichotomy(s@, v@[i as int]@);
        }
        if same {
            assert(v@[i as int]@ == s@);
            assert(forall|x: Seq<char>|
                has_view(v@, x) == (has_view(old(v)@, x) || x == s@));
            return;
        }
    }
    let ghost oldv = v@;
    v.insert(i, s);
    proof {
        assert(forall|j: int| 0 <= j < i ==> v@[j] == oldv[j]);
        assert(forall|j: int| i < j < v@.len() ==> v@[j] == oldv[j - 1]);
        assert(v@[i as int]@ == s@);
        assert forall|a: int, b: int| 0 <= a < b < v@.len() implies lex_lt(v@[a]@, v@[b]@) by {
            if a < i && b == i {
            } else if a == i && b > i {
                if i < oldv.len() {
                    if i < b - 1 {
                        lemma_lex_lt_transitive(s@, oldv[i as int]@, oldv[b - 1]@);
                    }
                }
            } else if a < i && b > i {
                if i < oldv.len() {
                    if i < b - 1 {
                        lemma_lex_lt_transitive(oldv[a]@, oldv[i as int]@, oldv[b - 1]@);
                    }
                } else {
                    assert(b - 1 < oldv.len());
                }
            }
        }
        assert forall|x: Seq<char>|
            has_view(v@, x) == (has_view(oldv, x) || x == s@) by {
            if has_view(v@, x) {
                let k = choose|k: int| 0 <= k < v@.len() && v@[k]@ == x;
                if k < i {
                    assert(oldv[k]@ == x);
                } else if k > i {
                    assert(oldv[k - 1]@ == x);
                }
            }
            if has_view(oldv, x) {
                let k = choose|k: int| 0 <= k < oldv.len() && oldv[k]@ == x;
                if k < i {
                    assert(v@[k]@ == x);
                } else {
                    assert(v@[k + 1]@ == x);
                }
            }
            if x == s@ {
                assert(v@[i as int]@ == x);
            }
        }
    }
}

} // verus!
