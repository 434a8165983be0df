//! The random number generator that drives maze generation and spawn placement.

use rand::rngs::SmallRng;
use rand::seq::SliceRandom;
use rand::{Rng, SeedableRng};
use vstd::prelude::*;

verus! {

/// The small, seedable generator of the `rand` crate, carried opaquely.
#[verifier::external_type_specification]
#[verifier::external_body]
pub struct ExSmallRng(SmallRng);

/// Calls `SmallRng::seed_from_u64`. Nothing is claimed of the generator it
/// returns: its state is not visible to the proofs.
#[verifier::external_body]
pub(crate) fn seeded_rng(seed: u64) -> (rng: SmallRng) {
    SmallRng::seed_from_u64(seed)
}

/// Calls `Rng::random_range` on the range `0..bound`. `rand` documents that the
/// call panics on an empty range (hence `bound > 0`) and returns a value of the
/// range; which one depends on the generator's state, so only the bound is
/// claimed.
#[verifier::external_body]
pub(crate) fn random_below(rng: &mut SmallRng, bound: usize) -> (r: usize)
    requires
        bound > 0,
    ensures
        r < bound,
{
    rng.random_range(0..bound)
}

/// Calls `SliceRandom::shuffle` on the vector's slice. `rand` shuffles in place
/// by swapping elements, so the result is a permutation of the input: the
/// multiset of items is claimed, their order is not.
#[verifier::external_body]
pub(crate) fn shuffle_offsets(items: &mut Vec<(i32, i32)>, rng: &mut SmallRng)
    ensures
        final(items)@.to_multiset() == old(items)@.to_multiset(),
        final(items)@.len() == old(items)@.len(),
{
    items.shuffle(rng)
}

} // verus!
