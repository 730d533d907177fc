use vstd::prelude::*;

verus! {

/// Declares `rand::rngs::StdRng` so it can stand in fields and signatures.
/// The generator itself is opaque: nothing is assumed of its output beyond
/// the ranges stated on the methods below.
#[verifier::external_type_specification]
#[verifier::external_body]
pub struct ExStdRng(rand::rngs::StdRng);

/// A seedable pseudo-random source used to inject simulated hardware faults.
///
/// Two values of this type seeded alike produce the same rolls, which makes
/// fault injection replayable in tests.
pub struct FaultRng {
    inner: rand::rngs::StdRng,
}

impl FaultRng {
    /// Relies on rand's `SeedableRng::seed_from_u64`: builds a deterministic
    /// generator from the given seed.
    #[verifier::external_body]
    pub fn from_seed(seed: u64) -> (r: FaultRng) {
        FaultRng { inner: <rand::rngs::StdRng as rand::SeedableRng>::seed_from_u64(seed) }
    }

    /// Relies on rand's `SeedableRng::from_entropy`: builds a generator
    /// seeded from the operating system's entropy source. Should that
    /// source itself fail, rand aborts the process; callers who cannot
    /// tolerate that environmental abort seed with `from_seed` instead.
    #[verifier::external_body]
    pub fn from_entropy() -> (r: FaultRng) {
        FaultRng { inner: <rand::rngs::StdRng as rand::SeedableRng>::from_entropy() }
    }

    /// Relies on rand's `Rng::gen_range`: returns a value drawn uniformly
    /// from `0..n`; the range is non-empty, so the call cannot panic and the
    /// result is below `n`.
    #[verifier::external_body]
    pub fn roll_below(&mut self, n: u32) -> (r: u32)
        requires
            n > 0,
        ensures
            r < n,
    {
        rand::Rng::gen_range(&mut self.inner, 0..n)
    }

    /// Relies on rand's `Rng::gen`: returns an arbitrary byte. Nothing is
    /// assumed of the value.
    #[verifier::external_body]
    pub fn random_byte(&mut self) -> (r: u8) {
        rand::Rng::gen(&mut self.inner)
    }
}

} // verus!
