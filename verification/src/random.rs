//! The random stream that the engine draws from.

use rand::{RngCore, SeedableRng};
use rand_chacha::ChaCha8Rng;
use vstd::prelude::*;

verus! {

/// The 32-bit word at `position` of the ChaCha8 stream that `seed` starts.
pub uninterp spec fn chacha8_word(seed: u64, position: u64) -> u32;

/// The place in the stream that lies `offset` words after `base`.
pub open spec fn place(base: u64, offset: int) -> u64 {
    (base + offset) as u64
}

/// Seeds a `rand_chacha::ChaCha8Rng` with `SeedableRng::seed_from_u64`, moves
/// it to `position` with `ChaCha8Rng::set_word_pos` and takes `count` words
/// in a row with `RngCore::next_u32`.
///
/// Trusted: the words are those of the stream of the seed, from the position
/// on. They are a function of the seed and the position alone: the generator
/// is built anew on every call and reads nothing else.
#[verifier::external_body]
pub(crate) fn stream_words(seed: u64, position: u64, count: usize) -> (words: Vec<u32>)
    requires
        position + count <= u64::MAX,
    ensures
        words@.len() == count,
        forall|i: int|
            0 <= i < count ==> #[trigger] words@[i] == chacha8_word(seed, place(position, i)),
{
    let mut rng = ChaCha8Rng::seed_from_u64(seed);
    rng.set_word_pos(u128::from(position));
    (0..count).map(|_| rng.next_u32()).collect()
}

/// Reads the clock with `std::time::SystemTime::elapsed` on `UNIX_EPOCH` and
/// gives the nanoseconds since then, cut to 64 bits; zero where the clock
/// stands before the epoch.
///
/// Trusted: nothing is claimed of the result.
#[verifier::external_body]
pub(crate) fn clock_seed() -> u64 {
    match std::time::UNIX_EPOCH.elapsed() {
        Ok(elapsed) => elapsed.as_nanos() as u64,
        Err(_) => 0,
    }
}

/// How many words are fetched from the stream at a time.
pub const BLOCK_WORDS: usize = 64;

/// Words of a random stream that were fetched ahead: those of one seed, at
/// the places in a row from a base on.
pub struct WordBlock {
    seed: u64,
    base: u64,
    words: Vec<u32>,
}

impl WordBlock {
    #[verifier::type_invariant]
    spec fn fetched(self) -> bool {
        &&& self.base + self.words.len() <= u64::MAX
        &&& forall|i: int|
            0 <= i < self.words.len() ==> #[trigger] self.words[i] == chacha8_word(
                self.seed,
                place(self.base, i),
            )
    }

    /// The block holds the word at `position` of the stream of `seed`.
    pub closed spec fn covers(&self, seed: u64, position: u64) -> bool {
        seed == self.seed && self.base <= position < self.base + self.words.len()
    }

    /// A block that holds no word.
    pub fn empty() -> (b: WordBlock)
        ensures
            forall|seed: u64, position: u64| !b.covers(seed, position),
    {
        WordBlock { seed: 0, base: 0, words: Vec::new() }
    }

    /// Fetches the words of the stream of `seed` from `position` on.
    pub fn fetch(seed: u64, position: u64) -> (b: WordBlock)
        requires
            position < u64::MAX,
        ensures
            b.covers(seed, position),
    {
        let room = u64::MAX - position;
        let count: usize = if room >= BLOCK_WORDS as u64 {
            BLOCK_WORDS
        } else {
            room as usize
        };
        WordBlock { seed, base: position, words: stream_words(seed, position, count) }
    }

    /// Whether the block holds the word at `position` of the stream of
    /// `seed`.
    pub fn holds(&self, seed: u64, position: u64) -> (b: bool)
        ensures
            b == self.covers(seed, position),
    {
        proof {
            use_type_invariant(self);
        }
        seed == self.seed && self.base <= position && position - self.base < self.words.len() as u64
    }

    /// The word at `position` of the stream of `seed`.
    pub fn word(&self, seed: u64, position: u64) -> (w: u32)
        requires
            self.covers(seed, position),
        ensures
            w == chacha8_word(seed, position),
    {
        proof {
            use_type_invariant(self);
        }
        self.words[(position - self.base) as usize]
    }
}

} // verus!
