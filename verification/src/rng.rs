//! The random generator behind graph construction (rand's `SmallRng`).
use rand::rngs::SmallRng;
use rand::{Rng, SeedableRng};
use vstd::prelude::*;

verus! {

#[verifier::external_type_specification]
#[verifier::external_body]
pub struct ExSmallRng(SmallRng);

/// Calls `SmallRng::seed_from_u64(seed)` (rand_core's `SeedableRng`).
/// Nothing is stated of the generator it returns.
#[verifier::external_body]
pub(crate) fn small_rng_seeded(seed: u64) -> SmallRng {
    SmallRng::seed_from_u64(seed)
}

/// Calls `rng.gen_range(lo..hi)` (rand's `Rng`) on `usize`.  rand documents
/// that the value lies in the half-open range and that an empty range panics;
/// which value comes out depends on the generator's state and is not stated.
#[verifier::external_body]
pub(crate) fn small_rng_index(rng: &mut SmallRng, lo: usize, hi: usize) -> (r: usize)
    requires
        lo < hi,
    ensures
        lo <= r < hi,
{
    rng.gen_range(lo..hi)
}

} // verus!
