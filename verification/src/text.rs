//! Character-level string predicates used by the marker matcher: equality of
//! two string slices and case-sensitive substring containment.

use vstd::prelude::*;

verus! {

/// The needle occurs in the haystack starting at character position `i`.
pub open spec fn is_match_at(hay: Seq<char>, needle: Seq<char>, i: int) -> bool {
    0 <= i && i + needle.len() <= hay.len() && hay.subrange(i, i + needle.len()) == needle
}

/// The needle occurs somewhere in the haystack (substring containment).
pub open spec fn contains_substr(hay: Seq<char>, needle: Seq<char>) -> bool {
    exists|i: int| is_match_at(hay, needle, i)
}

/// Every character sequence contains itself as a substring.
pub proof fn lemma_contains_self(s: Seq<char>)
    ensures
        contains_substr(s, s),
{
    assert(s.subrange(0, s.len() as int) =~= s);
    assert(is_match_at(s, s, 0));
}

/// Character-for-character equality of two string slices.
pub fn str_eq(a: &str, b: &str) -> (r: bool)
    ensures
        r == (a@ == b@),
{
    let la = a.unicode_len();
    let lb = b.unicode_len();
    if la != lb {
        return false;
    }
    let mut i: usize = 0;
    while i < la
        invariant
            la == a@.len(),
            la == b@.len(),
            i <= la,
            forall|t: int| 0 <= t < i ==> a@[t] == b@[t],
        decreases la - i,
    {
        if a.get_char(i) != b.get_char(i) {
            return false;
        }
        i += 1;
    }
    proof {
        assert(a@ =~= b@);
    }
    true
}

/// The needle matches the haystack at position `i`; helper for `str_contains`.
fn match_at(hay: &str, needle: &str, i: usize, h: usize, n: usize) -> (r: bool)
    requires
        h == hay@.len(),
        n == needle@.len(),
        i + n <= h,
    ensures
        r == is_match_at(hay@, needle@, i as int),
{
    let mut j: usize = 0;
    while j < n
        invariant
            h == hay@.len(),
            n == needle@.len(),
            i + n <= h,
            j <= n,
            forall|t: int| 0 <= t < j ==> hay@[i + t] == needle@[t],
        decreases n - j,
    {
        if hay.get_char(i + j) != needle.get_char(j) {
            proof {
                if is_match_at(hay@, needle@, i as int) {
                    assert(hay@.subrange(i as int, i + n)[j as int] == needle@[j as int]);
                }
            }
            return false;
        }
        j += 1;
    }
    proof {
        assert(hay@.subrange(i as int, i + n) =~= needle@);
    }
    true
}

/// The needle occurs in the haystack as a substring of its characters.
pub fn str_contains(hay: &str, needle: &str) -> (r: bool)
    ensures
        r == contains_substr(hay@, needle@),
{
    let h = hay.unicode_len();
    let n = needle.unicode_len();
    if n == 0 {
        proof {
            assert(hay@.subrange(0, 0) =~= needle@);
            assert(is_match_at(hay@, needle@, 0));
        }
        return true;
    }
    if n > h {
        proof {
            assert(forall|i: int| !is_match_at(hay@, needle@, i));
        }
        return false;
    }
    let mut i: usize = 0;
    while i <= h - n
        invariant
            h == hay@.len(),
            n == needle@.len(),
            0 < n <= h,
            i <= h - n + 1,
            forall|t: int| 0 <= t < i ==> !is_match_at(hay@, needle@, t),
        decreases h - n + 1 - i,
    {
        if match_at(hay, needle, i, h, n) {
            return true;
        }
        i += 1;
    }
    proof {
        assert(forall|t: int| is_match_at(hay@, needle@, t) ==> 0 <= t <= h - n);
    }
    false
}

} // verus!
