//! Boundary to the outside pseudo-random number generator.
//!
//! The equity simulator draws its shuffle indices from a xoshiro256++
//! generator, a fast counter-based generator with period at least 2^256.
//! The two calls into the `rand` crates stand behind the trusted items
//! below; the simulation itself is verified for every value they return.

use vstd::prelude::*;

verus! {

/// The xoshiro256++ generator of the `rand_xoshiro` crate, declared so that
/// verified code can hold one and thread it through the simulation.
#[verifier::external_type_specification]
#[verifier::external_body]
pub struct ExXoshiro(rand_xoshiro::Xoshiro256PlusPlus);

/// Relies on `Xoshiro256PlusPlus::seed_from_u64` (crate `rand_xoshiro`):
/// expands a 64-bit seed into the generator state with SplitMix64, the same
/// state for the same seed. Nothing is claimed of the state here; the
/// simulator states what holds of every draw.
#[verifier::external_body]
pub(crate) fn rng_from_seed(seed: u64) -> rand_xoshiro::Xoshiro256PlusPlus {
    <rand_xoshiro::Xoshiro256PlusPlus as rand::SeedableRng>::seed_from_u64(seed)
}

/// Relies on `rand::Rng::gen_range` over `lo..hi`: a uniformly distributed
/// integer at least `lo` and below `hi`. The call panics only on an empty
/// range, which the precondition rules out.
#[verifier::external_body]
pub(crate) fn rand_index(rng: &mut rand_xoshiro::Xoshiro256PlusPlus, lo: usize, hi: usize) -> (r:
    usize)
    requires
        lo < hi,
    ensures
        lo <= r < hi,
{
    rand::Rng::gen_range(rng, lo..hi)
}

} // verus!
