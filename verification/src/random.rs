//! The random number generator.

use rand::rngs::StdRng;
use rand::seq::SliceRandom;
use rand::{RngExt, SeedableRng};
use vstd::prelude::*;

verus! {

/// `rand::rngs::StdRng`, a generator whose state is carried and never looked into.
#[verifier::external_type_specification]
#[verifier::external_body]
pub struct ExStdRng(rand::rngs::StdRng);

/// The words that a generator holds.
pub uninterp spec fn held_words(rng: StdRng) -> Seq<u64>;

/// The words that a generator holds once it is started from a seed.
pub uninterp spec fn words_of_seed(seed: u64) -> Seq<u64>;

/// `SeedableRng::seed_from_u64` for `StdRng`: a generator started from a seed,
/// which settles what it holds. The numbers that it will give are not stated:
/// its documentation leaves the algorithm open and calls them not portable.
#[verifier::external_body]
pub(crate) fn seeded(seed: u64) -> (rng: StdRng)
    ensures
        held_words(rng) == words_of_seed(seed),
{
    StdRng::seed_from_u64(seed)
}

/// `RngExt::random_range` on `lo..hi`: a number of that range, which must not
/// be empty. Which one is left to chance.
#[verifier::external_body]
pub(crate) fn draw_between(rng: &mut StdRng, lo: usize, hi: usize) -> (r: usize)
    requires
        lo < hi,
    ensures
        lo <= r < hi,
{
    rng.random_range(lo..hi)
}

/// `RngExt::random` for a 64-bit word. Any word may come.
#[verifier::external_body]
pub(crate) fn draw_word(rng: &mut StdRng) -> (r: u64) {
    rng.random()
}

/// `SliceRandom::shuffle`: the items are rearranged, none is lost or added.
/// Which arrangement comes is left to chance.
#[verifier::external_body]
pub(crate) fn shuffle<T>(rng: &mut StdRng, items: &mut Vec<T>)
    ensures
        final(items)@.to_multiset() == old(items)@.to_multiset(),
{
    items.shuffle(rng)
}

} // verus!
