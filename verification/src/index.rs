//! Conversions between machine integers and the integers of specifications.

use vstd::prelude::*;

verus! {

/// The element of `s` at position `i`.
pub open spec fn nth<T>(s: Seq<T>, i: usize) -> T {
    s[i as int]
}

/// `s` with the element at position `i` replaced.
pub open spec fn put<T>(s: Seq<T>, i: usize, x: T) -> Seq<T> {
    s.update(i as int, x)
}

/// The successor of a counter.
pub open spec fn succ(n: usize) -> usize {
    (n + 1) as usize
}

/// The successor of a stream position.
pub open spec fn succ64(n: u64) -> u64 {
    (n + 1) as u64
}

/// The element of a non-empty `s` that `word` picks: the one at the position
/// `word` modulo the length.
pub open spec fn pick<T>(s: Seq<T>, word: u32) -> T {
    s[(word as int) % (s.len() as int)]
}

/// A 32-bit word as an index.
pub fn widen(word: u32) -> (i: usize)
    ensures
        i == word,
{
    word as usize
}

} // verus!
