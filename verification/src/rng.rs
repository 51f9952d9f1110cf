//! A seedable deterministic random source for the allocator, backed by
//! `rand`'s `StdRng`. Everything the allocator asks of it goes through the
//! small trusted surface below: a Bernoulli trial given as a ratio, and an
//! in-place uniform shuffle of a vector.

use vstd::prelude::*;

use rand::rngs::StdRng;
use rand::seq::SliceRandom;
use rand::Rng;
use rand::SeedableRng;

verus! {

/// Declares `rand::rngs::StdRng` (an opaque value to the verifier) so it
/// can stand in a field.
#[verifier::external_type_specification]
#[verifier::external_body]
pub struct ExStdRng(StdRng);

/// A deterministic random source; the same seed yields the same sequence of
/// draws within one build of this library.
pub struct ShuffleRng {
    rng: StdRng,
}

impl ShuffleRng {
    /// Relies on `rand::SeedableRng::seed_from_u64` for `StdRng`: constructs
    /// a generator whose draws are a function of the seed alone.
    #[verifier::external_body]
    pub fn from_seed(seed: u64) -> ShuffleRng {
        ShuffleRng { rng: StdRng::seed_from_u64(seed) }
    }

    /// Relies on `rand::SeedableRng::from_entropy` for `StdRng`: constructs a
    /// generator seeded from the operating system.
    #[verifier::external_body]
    pub fn from_entropy() -> ShuffleRng {
        ShuffleRng { rng: StdRng::from_entropy() }
    }

    /// Relies on `rand::Rng::gen_ratio`: draws `true` with probability
    /// `numerator / denominator`. Its `Bernoulli::from_ratio` errs (and
    /// `gen_ratio` panics) when the denominator is zero or the ratio exceeds
    /// one, a ratio of one always returns `true`, and a numerator of zero
    /// makes the comparison `v < 0` always `false`.
    #[verifier::external_body]
    pub(crate) fn gen_ratio(&mut self, numerator: u32, denominator: u32) -> (b: bool)
        requires
            0 < denominator,
            numerator <= denominator,
        ensures
            numerator == 0 ==> !b,
            numerator == denominator ==> b,
    {
        self.rng.gen_ratio(numerator, denominator)
    }

    /// Relies on `rand::seq::SliceRandom::shuffle`: a Fisher-Yates pass that
    /// swaps elements in place, so the result holds exactly the elements of
    /// the input, reordered.
    #[verifier::external_body]
    pub(crate) fn shuffle_vec<T>(&mut self, v: &mut Vec<T>)
        ensures
            final(v)@.to_multiset() == old(v)@.to_multiset(),
    {
        v.as_mut_slice().shuffle(&mut self.rng)
    }
}

} // verus!
