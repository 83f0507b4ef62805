//! Selecting, from a sequence of strings, those that contain a given string.

use crate::search::{occurs_at, occurs_in, str_contains};
use vstd::prelude::*;

verus! {

/// The strings of `haystack` that contain `needle`, in the order in which they
/// stand there.
pub open spec fn containing(haystack: Seq<&str>, needle: Seq<char>) -> Seq<&str> {
    haystack.filter(|hay: &str| occurs_in(needle, hay@))
}

/// Returns the strings of `haystack` that contain `needle`, in the order in
/// which they stand there. The result borrows the strings; it does not copy
/// them. The empty string is contained in every string.
pub fn find_contains<'a>(haystack: &'a [&str], needle: &str) -> (found: Vec<&'a str>)
    ensures
        found@ == containing(haystack@, needle@),
{
    let ghost keep = |hay: &str| occurs_in(needle@, hay@);
    let mut found: Vec<&'a str> = Vec::new();
    let mut i: usize = 0;
    proof {
        reveal(Seq::filter);
        assert(haystack@.subrange(0, 0).filter(keep) =~= Seq::<&str>::empty());
    }
    while i < haystack.len()
        invariant
            i <= haystack@.len(),
            keep == (|hay: &str| occurs_in(needle@, hay@)),
            found@ == haystack@.subrange(0, i as int).filter(keep),
        decreases haystack@.len() - i,
    {
        let hay: &'a str = haystack[i];
        proof {
            reveal(Seq::filter);
            assert(haystack@.subrange(0, i + 1).drop_last() =~= haystack@.subrange(0, i as int));
        }
        if str_contains(hay, needle) {
            found.push(hay);
        }
        i += 1;
    }
    assert(haystack@.subrange(0, i as int) =~= haystack@);
    found
}

/// The empty string is contained in every string, so filtering by it keeps
/// every element.
pub proof fn lemma_empty_needle_keeps_all(haystack: Seq<&str>)
    ensures
        containing(haystack, Seq::empty()) == haystack,
    decreases haystack.len(),
{
    reveal(Seq::filter);
    if haystack.len() > 0 {
        lemma_empty_needle_keeps_all(haystack.drop_last());
        let last = haystack.last();
        assert(occurs_at(Seq::empty(), last@, 0)) by {
            assert(last@.subrange(0, 0) =~= Seq::<char>::empty());
        }
        assert(haystack.drop_last().push(last) =~= haystack);
    }
}

} // verus!
