//! The source of randomness behind every sampling operation.
//!
//! Sampling is threaded through an explicit `RandomSource` so that a run can
//! be reproduced from a seed. Nothing is assumed about the drawn values
//! beyond their range.

use vstd::prelude::*;

verus! {

#[verifier::external_type_specification]
#[verifier::external_body]
pub struct ExStdRng(rand::rngs::StdRng);

/// A seedable generator of uniformly distributed integers.
pub struct RandomSource {
    rng: rand::rngs::StdRng,
}

impl RandomSource {
    /// Relies on rand::SeedableRng::seed_from_u64: builds a deterministic
    /// generator from a 64-bit seed.
    #[verifier::external_body]
    pub fn from_seed(seed: u64) -> RandomSource {
        RandomSource { rng: <rand::rngs::StdRng as rand::SeedableRng>::seed_from_u64(seed) }
    }

    /// Relies on rand::SeedableRng::from_entropy: builds a generator seeded
    /// from operating-system randomness; it aborts the process if the
    /// operating system provides none.
    #[verifier::external_body]
    pub fn from_entropy() -> RandomSource {
        RandomSource { rng: <rand::rngs::StdRng as rand::SeedableRng>::from_entropy() }
    }

    /// Relies on rand::Rng::gen_range: returns a value uniformly distributed
    /// over `0..=bound`, which is never empty.
    #[verifier::external_body]
    pub fn next_upto(&mut self, bound: u64) -> (r: u64)
        ensures
            r <= bound,
    {
        rand::Rng::gen_range(&mut self.rng, 0..=bound)
    }
}

} // verus!
