//! Character-level helpers on string slices: equality and substring search.

use vstd::prelude::*;

verus! {

/// `needle` occurs as a contiguous run of characters inside `hay`.
pub open spec fn spec_contains(hay: Seq<char>, needle: Seq<char>) -> bool {
    exists|i: int|
        0 <= i && i + needle.len() <= hay.len() && #[trigger] hay.subrange(i, i + needle.len())
            == needle
}

/// Character-for-character equality of two string slices.
pub fn str_eq(a: &str, b: &str) -> (r: bool)
    ensures
        r == (a@ == b@),
{
    let alen = a.unicode_len();
    let blen = b.unicode_len();
    if alen != blen {
        return false;
    }
    let mut i: usize = 0;
    while i < alen
        invariant
            alen == a@.len(),
            blen == b@.len(),
            alen == blen,
            i <= alen,
            forall|j: int| 0 <= j < i ==> a@[j] == b@[j],
        decreases alen - i,
    {
        if a.get_char(i) != b.get_char(i) {
            return false;
        }
        i += 1;
    }
    proof {
        assert(a@ =~= b@);
    }
    true
}

/// Substring search by direct comparison at every candidate position.
pub fn contains_sub(hay: &str, needle: &str) -> (r: bool)
    ensures
        r == spec_contains(hay@, needle@),
{
    let hlen = hay.unicode_len();
    let nlen = needle.unicode_len();
    if nlen > hlen {
        return false;
    }
    let mut i: usize = 0;
    while i <= hlen - nlen
        invariant
            hlen == hay@.len(),
            nlen == needle@.len(),
            nlen <= hlen,
            i <= hlen - nlen + 1,
            forall|k: int| 0 <= k < i ==> #[trigger] hay@.subrange(k, k + nlen) != needle@,
        decreases hlen - nlen - i + 1,
    {
        let mut j: usize = 0;
        let mut is_match = true;
        while is_match && j < nlen
            invariant
                hlen == hay@.len(),
                nlen == needle@.len(),
                i + nlen <= hlen,
                j <= nlen,
                is_match ==> forall|t: int| 0 <= t < j ==> hay@[i + t] == needle@[t],
                !is_match ==> j < nlen && hay@[i + j] != needle@[j as int],
            decreases nlen - j, (if is_match { 1int } else { 0int }),
        {
            if hay.get_char(i + j) != needle.get_char(j) {
                is_match = false;
            } else {
                j += 1;
            }
        }
        if is_match {
            proof {
                assert(hay@.subrange(i as int, i + nlen) =~= needle@);
            }
            return true;
        }
        proof {
            assert(hay@.subrange(i as int, i + nlen)[j as int] == hay@[i + j as int]);
        }
        i += 1;
    }
    proof {
        assert forall|k: int|
            0 <= k && k + needle@.len() <= hay@.len() implies #[trigger] hay@.subrange(
            k,
            k + needle@.len(),
        ) != needle@ by {
            assert(k < i);
        }
    }
    false
}

} // verus!
