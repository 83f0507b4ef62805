//! Finding one sequence as a contiguous part of another.

use crate::encoding::lemma_occurrence_in_encoding;
use vstd::prelude::*;

verus! {

/// Whether `needle` stands in `hay` at position `at`, element for element.
pub open spec fn occurs_at<T>(needle: Seq<T>, hay: Seq<T>, at: int) -> bool {
    &&& 0 <= at
    &&& at + needle.len() <= hay.len()
    &&& hay.subrange(at, at + needle.len()) == needle
}

/// Whether `needle` is a contiguous part of `hay`. The empty sequence is a
/// part of every sequence.
pub open spec fn occurs_in<T>(needle: Seq<T>, hay: Seq<T>) -> bool {
    exists|at: int| occurs_at(needle, hay, at)
}

/// Whether the bytes of `needle` stand in `hay` at position `at`.
fn bytes_match_at(hay: &[u8], needle: &[u8], at: usize) -> (found: bool)
    requires
        at + needle@.len() <= hay@.len(),
    ensures
        found == occurs_at(needle@, hay@, at as int),
{
    let len: usize = needle.len();
    let mut k: usize = 0;
    while k < len
        invariant
            k <= len,
            len == needle@.len(),
            at + len <= hay.len(),
            forall|j: int| 0 <= j < k ==> hay@[at + j] == needle@[j],
        decreases len - k,
    {
        if hay[at + k] != needle[k] {
            assert(hay@.subrange(at as int, at + len)[k as int] == hay@[at + k]);
            return false;
        }
        k += 1;
    }
    assert(hay@.subrange(at as int, at + len) =~= needle@);
    true
}

/// Whether the bytes of `needle` are a contiguous part of `hay`.
pub fn bytes_contain(hay: &[u8], needle: &[u8]) -> (found: bool)
    ensures
        found == occurs_in(needle@, hay@),
{
    if needle.len() > hay.len() {
        return false;
    }
    let last: usize = hay.len() - needle.len();
    let mut at: usize = 0;
    loop
        invariant
            at <= last,
            last == hay@.len() - needle@.len(),
            forall|j: int| 0 <= j < at ==> !occurs_at(needle@, hay@, j),
        decreases last - at,
    {
        if bytes_match_at(hay, needle, at) {
            return true;
        }
        if at == last {
            return false;
        }
        at += 1;
    }
}

/// Whether the string `needle` is a contiguous part of the string `hay`,
/// character for character: no folding of case, no normalisation.
pub fn str_contains(hay: &str, needle: &str) -> (found: bool)
    ensures
        found == occurs_in(needle@, hay@),
{
    proof {
        lemma_occurrence_in_encoding(needle@, hay@);
    }
    bytes_contain(hay.as_bytes(), needle.as_bytes())
}

} // verus!
