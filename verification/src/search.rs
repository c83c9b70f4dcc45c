//! Byte and substring search, delegated to the `memchr` crate.
//!
//! The three functions at the end of this file are the only places where `memchr` is
//! called. Their bodies are not verified: each contract restates what the crate
//! documents for the function it calls.

use vstd::prelude::*;

verus! {

/// `i` is the first position of `s` that holds `b`.
pub open spec fn is_first(s: Seq<u8>, b: u8, i: int) -> bool {
    &&& 0 <= i < s.len()
    &&& s[i] == b
    &&& forall|j: int| 0 <= j < i ==> s[j] != b
}

/// No position of `s` holds `b`.
pub open spec fn lacks(s: Seq<u8>, b: u8) -> bool {
    forall|j: int| 0 <= j < s.len() ==> s[j] != b
}

/// The number of positions of `s` that hold `b`.
pub open spec fn occurrences(s: Seq<u8>, b: u8) -> nat
    decreases s.len(),
{
    if s.len() == 0 {
        0
    } else {
        occurrences(s.drop_last(), b) + if s.last() == b {
            1nat
        } else {
            0nat
        }
    }
}

/// `needle` stands in `s` at offset `i`.
pub open spec fn matches_at(s: Seq<u8>, needle: Seq<u8>, i: int) -> bool {
    &&& 0 <= i
    &&& i + needle.len() <= s.len()
    &&& s.subrange(i, i + needle.len()) == needle
}

/// `i` is the first offset of `s` at which `needle` stands.
pub open spec fn is_first_match(s: Seq<u8>, needle: Seq<u8>, i: int) -> bool {
    &&& matches_at(s, needle, i)
    &&& forall|j: int| 0 <= j < i ==> !matches_at(s, needle, j)
}

/// `needle` stands nowhere in `s`.
pub open spec fn lacks_match(s: Seq<u8>, needle: Seq<u8>) -> bool {
    forall|j: int| !matches_at(s, needle, j)
}

/// A sequence without `b` holds it zero times.
pub proof fn lemma_occurrences_none(s: Seq<u8>, b: u8)
    requires
        lacks(s, b),
    ensures
        occurrences(s, b) == 0,
    decreases s.len(),
{
    if s.len() > 0 {
        assert forall|j: int| 0 <= j < s.drop_last().len() implies s.drop_last()[j] != b by {
            assert(s.drop_last()[j] == s[j]);
        }
        lemma_occurrences_none(s.drop_last(), b);
    }
}

/// The occurrences in a sequence are those before `k` and those from `k` on.
pub proof fn lemma_occurrences_split(s: Seq<u8>, b: u8, k: int)
    requires
        0 <= k <= s.len(),
    ensures
        occurrences(s, b) == occurrences(s.subrange(0, k), b) + occurrences(
            s.subrange(k, s.len() as int),
            b,
        ),
    decreases s.len(),
{
    let head = s.subrange(0, k);
    let tail = s.subrange(k, s.len() as int);
    if k == s.len() {
        assert(head == s);
        assert(tail.len() == 0);
    } else {
        lemma_occurrences_split(s.drop_last(), b, k);
        assert(s.drop_last().subrange(0, k) == head);
        assert(s.drop_last().subrange(k, s.len() - 1) == tail.drop_last());
        assert(tail.last() == s.last());
    }
}

/// A sequence of one byte holds `b` once or not at all.
pub proof fn lemma_occurrences_one(s: Seq<u8>, b: u8)
    requires
        s.len() == 1,
    ensures
        occurrences(s, b) == if s[0] == b {
            1nat
        } else {
            0nat
        },
{
    assert(s.drop_last().len() == 0);
    assert(occurrences(s.drop_last(), b) == 0);
}

/// Past the first occurrence of `b` there is one occurrence less.
pub proof fn lemma_occurrences_after_first(s: Seq<u8>, b: u8, i: int)
    requires
        is_first(s, b, i),
    ensures
        occurrences(s, b) == 1 + occurrences(s.subrange(i + 1, s.len() as int), b),
{
    lemma_occurrences_split(s, b, i + 1);
    let head = s.subrange(0, i + 1);
    lemma_occurrences_split(head, b, i);
    assert(head.subrange(0, i) == s.subrange(0, i));
    lemma_occurrences_none(s.subrange(0, i), b);
    lemma_occurrences_one(head.subrange(i, i + 1), b);
}

/// Calls `memchr::memchr`. Trusted: the index of the first occurrence of `needle` in
/// `haystack`, or `None` when the byte does not occur.
#[verifier::external_body]
pub(crate) fn find_byte(needle: u8, haystack: &[u8]) -> (r: Option<usize>)
    ensures
        match r {
            Some(i) => is_first(haystack@, needle, i as int),
            None => lacks(haystack@, needle),
        },
{
    memchr::memchr(needle, haystack)
}

/// Calls `memchr::memchr_iter` and `count` on the iterator that it returns, for which
/// the crate has its own implementation. Trusted: the iterator is over all occurrences
/// of `needle` in `haystack`, so the count is their number.
#[verifier::external_body]
pub(crate) fn count_byte(needle: u8, haystack: &[u8]) -> (r: usize)
    ensures
        r == occurrences(haystack@, needle),
{
    memchr::memchr_iter(needle, haystack).count()
}

/// Calls `memchr::memmem::find`. Trusted: the offset of the first occurrence of
/// `needle` in `haystack`, or `None` when it does not occur. Nothing is claimed of the
/// search for an empty needle.
#[verifier::external_body]
pub(crate) fn find_bytes(haystack: &[u8], needle: &[u8]) -> (r: Option<usize>)
    requires
        needle@.len() > 0,
    ensures
        match r {
            Some(i) => is_first_match(haystack@, needle@, i as int),
            None => lacks_match(haystack@, needle@),
        },
{
    memchr::memmem::find(haystack, needle)
}

} // verus!
