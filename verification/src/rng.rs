//! The random source. Its draws are not reproducible from one machine to the
//! next, so the contracts here say only what holds of every draw.

use vstd::prelude::*;
use rand::rngs::SmallRng;
use rand::seq::IndexedRandom;
use rand::Rng;
use rand::SeedableRng;

verus! {

/// `rand::rngs::SmallRng`, the random source. Nothing is known of what it
/// holds.
#[verifier::external_type_specification]
#[verifier::external_body]
pub struct ExSmallRng(SmallRng);

/// `SmallRng::seed_from_u64`: a generator made from `seed`. Nothing is
/// claimed of the generator.
#[verifier::external_body]
pub(crate) fn seeded_rng(seed: u64) -> (rng: SmallRng) {
    SmallRng::seed_from_u64(seed)
}

/// `Rng::random_range` on `0..n`: some index below `n`. The call panics on
/// an empty range, so `n` must not be zero. Which index comes is not said.
#[verifier::external_body]
pub(crate) fn random_index(rng: &mut SmallRng, n: usize) -> (index: usize)
    requires
        n > 0,
    ensures
        index < n,
{
    rng.random_range(0..n)
}

/// `IndexedRandom::choose` on a slice: `None` of an empty slice, else one of
/// its items. Which item comes is not said.
#[verifier::external_body]
pub(crate) fn random_item(items: &Vec<usize>, rng: &mut SmallRng) -> (item: Option<usize>)
    ensures
        items@.len() == 0 ==> item is None,
        items@.len() > 0 ==> item is Some && items@.contains(item->0),
{
    items.choose(rng).copied()
}

} // verus!
