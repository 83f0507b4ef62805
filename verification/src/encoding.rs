//! Occurrences of one string in another, seen through their UTF-8 encodings.
//!
//! A string is searched byte by byte, while what is promised of the search is
//! stated character by character. The two agree because no character's
//! encoding can begin in the middle of another's.

use crate::search::{occurs_at, occurs_in};
use vstd::prelude::*;
use vstd::utf8::*;

verus! {

/// The encoding of a concatenation is the concatenation of the encodings.
pub proof fn lemma_encode_concat(a: Seq<char>, b: Seq<char>)
    ensures
        encode_utf8(a + b) == encode_utf8(a) + encode_utf8(b),
    decreases a.len(),
{
    if a.len() == 0 {
        assert(a + b =~= b);
        assert(encode_utf8(a) + encode_utf8(b) =~= encode_utf8(b));
    } else {
        lemma_encode_concat(a.drop_first(), b);
        assert((a + b).drop_first() =~= a.drop_first() + b);
        assert(encode_utf8(a + b) =~= encode_utf8(a) + encode_utf8(b));
    }
}

/// Where a valid encoding begins with another valid encoding, the shorter
/// one ends on a character boundary of the longer one.
pub proof fn lemma_prefix_ends_on_boundary(whole: Seq<u8>, prefix: Seq<u8>)
    requires
        valid_utf8(whole),
        valid_utf8(prefix),
        occurs_at(prefix, whole, 0),
    ensures
        is_char_boundary(whole, prefix.len() as int),
    decreases prefix.len(),
{
    if prefix.len() > 0 {
        let width: int = length_of_first_scalar(prefix);
        assert(forall|i: int|
            0 <= i < prefix.len() ==> prefix[i] == whole.subrange(0, prefix.len() as int)[i]);
        assert(width == length_of_first_scalar(whole));
        let rest = pop_first_scalar(prefix);
        let whole_rest = pop_first_scalar(whole);
        assert(whole_rest.subrange(0, rest.len() as int) =~= rest);
        lemma_prefix_ends_on_boundary(whole_rest, rest);
    }
}

/// A string occurs in another exactly when its encoding occurs in the
/// other's encoding.
pub proof fn lemma_occurrence_in_encoding(needle: Seq<char>, hay: Seq<char>)
    ensures
        occurs_in(encode_utf8(needle), encode_utf8(hay)) <==> occurs_in(needle, hay),
{
    broadcast use group_utf8_lib;

    let n = encode_utf8(needle);
    let h = encode_utf8(hay);
    if occurs_in(needle, hay) {
        let at: int = choose|at: int| occurs_at(needle, hay, at);
        let before = hay.subrange(0, at);
        let after = hay.subrange(at + needle.len(), hay.len() as int);
        assert(hay =~= before + needle + after);
        lemma_encode_concat(before + needle, after);
        lemma_encode_concat(before, needle);
        let b = encode_utf8(before);
        assert(h.subrange(b.len() as int, (b.len() + n.len()) as int) =~= n);
        assert(occurs_at(n, h, b.len() as int));
    }
    if occurs_in(n, h) {
        let at: int = choose|at: int| occurs_at(n, h, at);
        if n.len() == 0 {
            assert(needle.len() == 0) by {
                if needle.len() > 0 {
                    encode_utf8_first_scalar(needle);
                }
            }
            assert(hay.subrange(0, 0) =~= needle);
            assert(occurs_at(needle, hay, 0));
        } else {
            let tail = h.subrange(at, h.len() as int);
            assert(n[0] == h.subrange(at, at + n.len())[0]);
            assert(is_char_boundary(n, 0));
            is_char_boundary_iff_not_is_continuation_byte(n, 0);
            is_char_boundary_iff_not_is_continuation_byte(h, at);
            valid_utf8_split(h, at);
            assert(tail.subrange(0, n.len() as int) =~= n);
            lemma_prefix_ends_on_boundary(tail, n);
            decode_utf8_split(h, at);
            decode_utf8_split(tail, n.len() as int);
            let before = decode_utf8(h.subrange(0, at));
            let after = decode_utf8(tail.subrange(n.len() as int, tail.len() as int));
            assert(decode_utf8(n) == needle);
            assert(decode_utf8(h) == hay);
            assert(hay =~= before + (needle + after));
            assert(hay.subrange(before.len() as int, (before.len() + needle.len()) as int)
                =~= needle);
            assert(occurs_at(needle, hay, before.len() as int));
        }
    }
}

} // verus!
