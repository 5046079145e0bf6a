//! The random source of the training loop: a seedable generator from the
//! `rand` crate behind trusted wrappers. Nothing is assumed of a drawn
//! value beyond its range, so everything proved downstream holds for every
//! outcome of the draws.
use vstd::prelude::*;

verus! {

#[verifier::external_type_specification]
#[verifier::external_body]
pub struct ExStdRng(rand::rngs::StdRng);

/// Relies on rand's `SeedableRng::seed_from_u64`: builds a generator from
/// a 64-bit seed. Nothing is claimed of the generator's state.
#[verifier::external_body]
fn stdrng_from_seed(seed: u64) -> (r: rand::rngs::StdRng) {
    <rand::rngs::StdRng as rand::SeedableRng>::seed_from_u64(seed)
}

/// Relies on rand's `Rng::gen_range`: a value sampled from `0..n` lies
/// below `n`; the call panics only on an empty range, which the
/// precondition rules out.
#[verifier::external_body]
fn stdrng_below(rng: &mut rand::rngs::StdRng, n: usize) -> (r: usize)
    requires
        n >= 1,
    ensures
        r < n,
{
    rand::Rng::gen_range(rng, 0..n)
}

/// Relies on rand's `SliceRandom::choose`: on a nonempty slice it returns
/// `Some` of one of the elements, so the result is an entry of the vector.
#[verifier::external_body]
fn stdrng_pick(rng: &mut rand::rngs::StdRng, items: &Vec<usize>) -> (r: usize)
    requires
        items@.len() >= 1,
    ensures
        items@.contains(r),
{
    *rand::seq::SliceRandom::choose(items.as_slice(), rng).unwrap()
}

/// A call-local source of randomness for one training run. Two sources
/// built from the same seed hand out the same draws, so a query that is
/// given a seeded source is reproducible.
pub struct RandomSource {
    rng: rand::rngs::StdRng,
}

impl RandomSource {
    /// A source whose draws are determined by the seed.
    pub fn from_seed(seed: u64) -> RandomSource {
        RandomSource { rng: stdrng_from_seed(seed) }
    }

    /// Wrap a generator made elsewhere, for callers that seed it from the
    /// machine's entropy.
    pub fn from_rng(rng: rand::rngs::StdRng) -> RandomSource {
        RandomSource { rng }
    }

    /// A uniformly drawn value below `n`.
    pub fn next_below(&mut self, n: usize) -> (r: usize)
        requires
            n >= 1,
        ensures
            r < n,
    {
        stdrng_below(&mut self.rng, n)
    }

    /// A uniformly drawn entry of a nonempty vector.
    pub fn pick_from(&mut self, items: &Vec<usize>) -> (r: usize)
        requires
            items@.len() >= 1,
        ensures
            items@.contains(r),
    {
        stdrng_pick(&mut self.rng, items)
    }
}

} // verus!
