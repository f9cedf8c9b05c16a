//! Substring search over bytes, through `memchr`.

use vstd::prelude::*;

verus! {

/// The first index at or after `i` where `needle` occurs in `hay`.
pub open spec fn find_from(hay: Seq<u8>, needle: Seq<u8>, i: int) -> Option<int>
    decreases hay.len() + 1 - i,
{
    if i < 0 || i + needle.len() > hay.len() {
        None
    } else if hay.subrange(i, i + needle.len()) == needle {
        Some(i)
    } else {
        find_from(hay, needle, i + 1)
    }
}

/// The index of the first occurrence of `needle` in `hay` (0 for an empty
/// needle), or `None` when it does not occur.
pub open spec fn find_spec(hay: Seq<u8>, needle: Seq<u8>) -> Option<int> {
    find_from(hay, needle, 0)
}

/// `memchr::memmem::find`: the index of the first occurrence of `needle` in
/// `haystack`, or `None` when there is none; an empty needle is found at 0.
#[verifier::external_body]
pub(crate) fn find(haystack: &[u8], needle: &[u8]) -> (r: Option<usize>)
    ensures
        match find_spec(haystack@, needle@) {
            Some(i) => r == Some(i as usize),
            None => r is None,
        },
{
    memchr::memmem::find(haystack, needle)
}

/// What [`find_from`] finds is an occurrence, and none comes before it.
pub proof fn lemma_find_from(hay: Seq<u8>, needle: Seq<u8>, i: int)
    requires
        i >= 0,
    ensures
        match find_from(hay, needle, i) {
            Some(j) => i <= j && j + needle.len() <= hay.len() && hay.subrange(j, j + needle.len())
                == needle && forall|k: int|
                i <= k < j ==> #[trigger] hay.subrange(k, k + needle.len()) != needle,
            None => forall|k: int|
                i <= k && k + needle.len() <= hay.len() ==> #[trigger] hay.subrange(
                    k,
                    k + needle.len(),
                ) != needle,
        },
    decreases hay.len() + 1 - i,
{
    if i + needle.len() <= hay.len() && hay.subrange(i, i + needle.len()) != needle {
        lemma_find_from(hay, needle, i + 1);
    }
}


/// Where two haystacks of one length agree up to the end of the first
/// occurrence found in one, the same occurrence is found in the other.
pub proof fn lemma_find_stable(h1: Seq<u8>, h2: Seq<u8>, needle: Seq<u8>, i: int)
    requires
        i >= 0,
        h1.len() == h2.len(),
        find_from(h1, needle, i) is Some,
        forall|k: int| 0 <= k < find_from(h1, needle, i).unwrap() + needle.len() ==> h1[k] == h2[k],
    ensures
        find_from(h2, needle, i) == find_from(h1, needle, i),
    decreases h1.len() + 1 - i,
{
    let j = find_from(h1, needle, i).unwrap();
    lemma_find_from(h1, needle, i);
    assert(h1.subrange(i, i + needle.len()) =~= h2.subrange(i, i + needle.len()));
    if h1.subrange(i, i + needle.len()) != needle {
        lemma_find_stable(h1, h2, needle, i + 1);
    }
}

} // verus!
