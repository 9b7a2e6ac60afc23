//! The run-scoped random source. Generation threads a single seedable
//! handle through every function that draws randomness, so a fixed seed
//! reproduces the same maze.

use vstd::prelude::*;

verus! {

#[verifier::external_type_specification]
#[verifier::external_body]
pub struct ExStdRng(rand::rngs::StdRng);

/// A pseudorandom source for maze generation, built from a seed so runs
/// are reproducible. Nothing is assumed about which values come out, only
/// that each draw stays inside its requested range.
pub struct MazeRng {
    rng: rand::rngs::StdRng,
}

impl MazeRng {
    /// Relies on rand::SeedableRng::seed_from_u64 to construct a StdRng
    /// from a 64-bit seed; it returns a generator and never fails.
    #[verifier::external_body]
    pub fn from_seed(seed: u64) -> (r: MazeRng) {
        MazeRng { rng: <rand::rngs::StdRng as rand::SeedableRng>::seed_from_u64(seed) }
    }

    /// Relies on rand::Rng::gen_range over `0..n`: it panics on an empty
    /// range, and otherwise returns a uniformly drawn value below `n`.
    #[verifier::external_body]
    pub(crate) fn gen_below(&mut self, n: u32) -> (r: u32)
        requires
            n >= 1,
        ensures
            r < n,
    {
        rand::Rng::gen_range(&mut self.rng, 0..n)
    }

    /// Relies on rand::Rng::gen::<bool>, which returns either truth value;
    /// nothing is assumed about which.
    #[verifier::external_body]
    pub(crate) fn gen_coin(&mut self) -> (r: bool) {
        rand::Rng::gen(&mut self.rng)
    }
}

} // verus!
