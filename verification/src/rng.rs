//! The random choices that eviction makes, drawn from a seeded generator.

use rand::rngs::StdRng;
use rand::{Rng, SeedableRng};
use vstd::prelude::*;

verus! {

#[verifier::external_type_specification]
#[verifier::external_body]
pub struct ExStdRng(StdRng);

/// Makes a generator from a seed through `rand::SeedableRng::seed_from_u64`.
/// Nothing is claimed of what the generator yields.
#[verifier::external_body]
pub(crate) fn seeded(seed: u64) -> StdRng {
    StdRng::seed_from_u64(seed)
}

/// Draws one bit through `rand::Rng::gen`. Either value may come back.
#[verifier::external_body]
pub(crate) fn random_bit(rng: &mut StdRng) -> bool {
    rng.gen()
}

/// Draws a number through `rand::Rng::gen_range` with the bounds `0` and
/// `high`: the result lies in the half-open range between them. The call
/// panics on an empty range, which the precondition leaves out.
#[verifier::external_body]
pub(crate) fn random_below(rng: &mut StdRng, high: usize) -> (r: usize)
    requires
        high > 0,
    ensures
        r < high,
{
    rng.gen_range(0, high)
}

} // verus!
