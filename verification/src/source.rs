use vstd::prelude::*;

verus! {

/// Fixed-point representation of probability one: a probability is a number
/// of units out of `PROB_ONE`, and a uniform draw from `[0, PROB_ONE)`
/// compared with `<` realizes a Bernoulli trial with that probability.
pub const PROB_ONE: u64 = 0x1_0000_0000;

/// The uniform-random capability the engine consumes. The engine is agnostic
/// to the generator algorithm behind it; it only relies on the stated ranges.
pub trait UniformRandomSource {
    /// A uniform integer in `[0, bound)`.
    fn below(&mut self, bound: u32) -> (r: u32)
        requires
            bound >= 1,
        ensures
            r < bound,
    ;

    /// A uniform fixed-point fraction in `[0, 1)`, in units of `1/PROB_ONE`.
    fn unit(&mut self) -> (r: u64)
        ensures
            r < PROB_ONE,
    ;
}

/// A small deterministic generator (the splitmix64 mixing function), pinned
/// as the reference random source for reproducible runs and regression tests.
pub struct SplitMix64 {
    pub state: u64,
}

impl SplitMix64 {
    pub fn new(seed: u64) -> (r: SplitMix64)
        ensures
            r.state == seed,
    {
        SplitMix64 { state: seed }
    }

    /// One output of the splitmix64 sequence, advancing the state.
    fn next_raw(&mut self) -> u64 {
        let s: u64 = ((self.state as u128 + 0x9E37_79B9_7F4A_7C15u128)
            % 0x1_0000_0000_0000_0000u128) as u64;
        self.state = s;
        let z0: u64 = s ^ (s >> 30);
        let z1: u64 = ((z0 as u128 * 0xBF58_476D_1CE4_E5B9u128) % 0x1_0000_0000_0000_0000u128)
            as u64;
        let z2: u64 = z1 ^ (z1 >> 27);
        let z3: u64 = ((z2 as u128 * 0x94D0_49BB_1331_11EBu128) % 0x1_0000_0000_0000_0000u128)
            as u64;
        z3 ^ (z3 >> 31)
    }
}

impl UniformRandomSource for SplitMix64 {
    fn below(&mut self, bound: u32) -> (r: u32) {
        let v = self.next_raw();
        (v % (bound as u64)) as u32
    }

    fn unit(&mut self) -> (r: u64) {
        let v = self.next_raw();
        v % PROB_ONE
    }
}

#[verifier::external_type_specification]
#[verifier::external_body]
pub struct ExLcg64Xsh32(rand_pcg::Lcg64Xsh32);

/// A uniform source backed by the PCG generator family, the kind of
/// generator a simulation run is usually driven with.
pub struct PcgSource {
    pub rng: rand_pcg::Lcg64Xsh32,
}

impl PcgSource {
    /// Relies on rand_pcg's `SeedableRng::seed_from_u64`: builds a seeded
    /// generator. Nothing is assumed about its output.
    #[verifier::external_body]
    pub fn new(seed: u64) -> PcgSource {
        PcgSource { rng: <rand_pcg::Lcg64Xsh32 as rand::SeedableRng>::seed_from_u64(seed) }
    }
}

/// Relies on rand's `Rng::gen_range` over `0..bound`: it panics only on an
/// empty range, which `bound >= 1` rules out, and samples uniformly below
/// `bound`.
#[verifier::external_body]
fn pcg_below(rng: &mut rand_pcg::Lcg64Xsh32, bound: u32) -> (r: u32)
    requires
        bound >= 1,
    ensures
        r < bound,
{
    rand::Rng::gen_range(rng, 0..bound)
}

/// Relies on rand's `Rng::gen_range` over `0..PROB_ONE`: the sample is
/// uniform and strictly below `PROB_ONE`.
#[verifier::external_body]
fn pcg_unit(rng: &mut rand_pcg::Lcg64Xsh32) -> (r: u64)
    ensures
        r < PROB_ONE,
{
    rand::Rng::gen_range(rng, 0u64..PROB_ONE)
}

impl UniformRandomSource for PcgSource {
    fn below(&mut self, bound: u32) -> (r: u32) {
        pcg_below(&mut self.rng, bound)
    }

    fn unit(&mut self) -> (r: u64) {
        pcg_unit(&mut self.rng)
    }
}

} // verus!
