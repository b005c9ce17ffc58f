//! Seedable randomness for the engine.
//!
//! Every nondeterministic choice the engine makes (spread jitter, triangle
//! chirality, shuffles, random evasion) draws from one seedable generator, so
//! a round is reproducible given its inputs and the seed.  The generator is
//! an outside one; the two calls into it are the trusted boundary, and every
//! contract downstream holds for all of its outcomes.

use vstd::prelude::*;

verus! {

#[verifier::external_type_specification]
#[verifier::external_body]
pub struct ExStdRng(rand::rngs::StdRng);

/// A seedable source of uniform random numbers.
pub struct GameRng {
    rng: rand::rngs::StdRng,
}

impl GameRng {
    /// Relies on rand's `SeedableRng::seed_from_u64`: builds a generator
    /// deterministically from the seed.
    #[verifier::external_body]
    pub fn new(seed: u64) -> (r: GameRng) {
        GameRng { rng: <rand::rngs::StdRng as rand::SeedableRng>::seed_from_u64(seed) }
    }

    /// Relies on rand's `RngExt::random_range`: returns a member of the
    /// given range, which `n >= 1` keeps nonempty.
    #[verifier::external_body]
    pub fn below(&mut self, n: u64) -> (r: u64)
        requires
            n >= 1,
        ensures
            r < n,
    {
        rand::RngExt::random_range(&mut self.rng, 0..n)
    }

    /// A uniform value of the inclusive range `min..=max`.
    pub fn range(&mut self, min: i16, max: i16) -> (r: i16)
        requires
            min <= max,
        ensures
            min <= r <= max,
    {
        let span: u64 = (max as i64 - min as i64 + 1) as u64;
        let off = self.below(span);
        (min as i64 + off as i64) as i16
    }
}

} // verus!
