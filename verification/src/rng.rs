//! Trusted declarations for the pseudo-random number generator used by the
//! search: `oorandom::Rand32`, a deterministic 32-bit-output PCG generator.
//!
//! Nothing is assumed about the distribution of the outputs; the contracts
//! state only the ranges that hold of every outcome.

use vstd::prelude::*;

verus! {

#[verifier::external_type_specification]
#[verifier::external_body]
pub struct ExRand32(oorandom::Rand32);

/// Relies on `oorandom::Rand32::new`: builds a generator from a seed.
#[verifier::external_body]
pub(crate) fn rng_new(seed: u64) -> oorandom::Rand32 {
    oorandom::Rand32::new(seed)
}

/// Relies on `oorandom::Rand32::rand_range`: for a non-empty range it returns
/// `start + (m >> 32)` with `m < 2^32 * (end - start)`, hence a value in
/// `[start, end)`.
#[verifier::external_body]
pub(crate) fn rand_range(rng: &mut oorandom::Rand32, lo: u32, hi: u32) -> (r: u32)
    requires
        lo < hi,
    ensures
        lo <= r < hi,
{
    rng.rand_range(lo..hi)
}

} // verus!
