//! A seedable source of randomness for the heuristics and the engine.
use rand::rngs::StdRng;
use rand::Rng;
use rand::SeedableRng;
use vstd::prelude::*;

verus! {

#[verifier::external_type_specification]
#[verifier::external_body]
pub struct ExStdRng(StdRng);

/// Relies on `StdRng::seed_from_u64`: a generator fixed by the seed.
#[verifier::external_body]
fn seeded_generator(seed: u64) -> StdRng {
    StdRng::seed_from_u64(seed)
}

/// Relies on `StdRng::from_entropy`: a generator seeded by the operating system.
#[verifier::external_body]
fn entropy_generator() -> StdRng {
    StdRng::from_entropy()
}

/// Relies on `Rng::gen_range` over `0..bound`: a value below `bound`; the range
/// must not be empty.
#[verifier::external_body]
fn draw_below(rng: &mut StdRng, bound: usize) -> (r: usize)
    requires
        bound > 0,
    ensures
        r < bound,
{
    rng.gen_range(0..bound)
}

/// Relies on `rand::seq::index::sample`: `amount` distinct indices below
/// `length`; it panics when `amount > length`.
#[verifier::external_body]
fn draw_distinct(rng: &mut StdRng, length: usize, amount: usize) -> (r: Vec<usize>)
    requires
        amount <= length,
    ensures
        r@.len() == amount,
        forall|i: int| 0 <= i < r@.len() ==> r@[i] < length,
        r@.no_duplicates(),
{
    rand::seq::index::sample(rng, length, amount).into_vec()
}

/// Relies on `Rng::gen_ratio`: `true` with chance `numerator / denominator`,
/// never for a zero numerator, always when the two are equal; it panics when
/// `denominator == 0` or `numerator > denominator`.
#[verifier::external_body]
fn draw_ratio(rng: &mut StdRng, numerator: u32, denominator: u32) -> (r: bool)
    requires
        0 < denominator,
        numerator <= denominator,
    ensures
        numerator == 0 ==> !r,
        numerator == denominator ==> r,
{
    rng.gen_ratio(numerator, denominator)
}

/// A source of random choices. Two sources made from the same seed make the
/// same choices, so that runs can be reproduced.
pub struct RandomSource {
    generator: StdRng,
}

impl RandomSource {
    /// A source fixed by `seed`.
    pub fn from_seed(seed: u64) -> RandomSource {
        RandomSource { generator: seeded_generator(seed) }
    }

    /// A source seeded by the operating system.
    pub fn from_entropy() -> RandomSource {
        RandomSource { generator: entropy_generator() }
    }

    /// A uniformly drawn value below `bound`.
    pub fn below(&mut self, bound: usize) -> (r: usize)
        requires
            bound > 0,
        ensures
            r < bound,
    {
        draw_below(&mut self.generator, bound)
    }

    /// `amount` distinct values below `length`, in random order.
    pub fn distinct_below(&mut self, length: usize, amount: usize) -> (r: Vec<usize>)
        requires
            amount <= length,
        ensures
            r@.len() == amount,
            forall|i: int| 0 <= i < r@.len() ==> r@[i] < length,
            r@.no_duplicates(),
    {
        draw_distinct(&mut self.generator, length, amount)
    }

    /// `true` with chance `per_million / 1_000_000`; a value above a million
    /// counts as a million.
    pub fn chance_per_million(&mut self, per_million: u32) -> (r: bool)
        ensures
            per_million == 0 ==> !r,
            per_million >= MILLION ==> r,
    {
        let numerator = if per_million > MILLION { MILLION } else { per_million };
        draw_ratio(&mut self.generator, numerator, MILLION)
    }
}

/// The denominator of a chance given in millionths.
pub const MILLION: u32 = 1_000_000;

} // verus!
