//! The explicit random-source handle threaded through every stochastic
//! operation. It wraps the `rand` crate's standard generator so that runs
//! can be seeded and replayed; nothing beyond the range of each draw is
//! assumed about the values it produces.

use vstd::prelude::*;

verus! {

#[verifier::external_type_specification]
#[verifier::external_body]
pub struct ExStdRng(rand::rngs::StdRng);

/// A seedable pseudo-random source. Every stochastic operation of the
/// optimizer draws from one of these, so a fixed seed replays a run.
pub struct RandomSource {
    inner: rand::rngs::StdRng,
}

impl RandomSource {
    /// Relies on rand's `SeedableRng::seed_from_u64` to build the standard
    /// generator from a 64-bit seed.
    #[verifier::external_body]
    pub fn from_seed(seed: u64) -> RandomSource {
        RandomSource { inner: <rand::rngs::StdRng as rand::SeedableRng>::seed_from_u64(seed) }
    }

    /// Relies on rand's `SeedableRng::from_entropy` to build the standard
    /// generator from fresh operating-system entropy.
    #[verifier::external_body]
    pub fn from_entropy() -> RandomSource {
        RandomSource { inner: <rand::rngs::StdRng as rand::SeedableRng>::from_entropy() }
    }

    /// Relies on rand's `Rng::gen_range`: a draw from the non-empty range
    /// `0..bound` lies in that range. Nothing else is assumed of the value.
    #[verifier::external_body]
    pub fn next_below(&mut self, bound: usize) -> (r: usize)
        requires
            bound >= 1,
        ensures
            r < bound,
    {
        rand::Rng::gen_range(&mut self.inner, 0..bound)
    }
}

} // verus!
