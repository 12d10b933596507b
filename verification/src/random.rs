//! Random numbers, from the crate `rand`.

use rand::seq::SliceRandom;
use rand::RngExt;
use vstd::prelude::*;

verus! {

/// The generator `rand::rngs::StdRng`, whose state stays its own.
#[verifier::external_type_specification]
#[verifier::external_body]
pub struct ExStdRng(rand::rngs::StdRng);

/// A number between two bounds, both included, by `rand::RngExt::random_range`.
/// That it lies between them is all that holds of every outcome.
#[verifier::external_body]
pub(crate) fn between(rng: &mut rand::rngs::StdRng, low: i64, high: i64) -> (r: i64)
    requires
        low <= high,
    ensures
        low <= r <= high,
{
    rng.random_range(low..=high)
}

/// Shuffles in place, by `rand::seq::SliceRandom::shuffle`. The same elements
/// are there afterwards, each as often as before; in which order is up to the
/// generator.
#[verifier::external_body]
pub(crate) fn shuffle(items: &mut Vec<usize>, rng: &mut rand::rngs::StdRng)
    ensures
        final(items)@.to_multiset() == old(items)@.to_multiset(),
{
    items.shuffle(rng);
}

} // verus!
