//! The random source of an agent.

use rand::rngs::SmallRng;
use rand::{Rng, SeedableRng};
use vstd::prelude::*;

verus! {

/// The generator of the `rand` crate that every agent owns one of.
#[verifier::external_type_specification]
#[verifier::external_body]
pub struct ExSmallRng(SmallRng);

/// A generator from a seed: `SmallRng::seed_from_u64`.
///
/// Nothing is claimed of the generator. Its algorithm depends on the width of
/// a pointer, so that the same seed gives another stream on another machine.
#[verifier::external_body]
pub(crate) fn seeded(seed: u64) -> SmallRng {
    SmallRng::seed_from_u64(seed)
}

/// A fair coin: `Rng::gen` for `bool`.
///
/// Nothing is claimed of the outcome: it is drawn from the generator.
#[verifier::external_body]
pub(crate) fn coin(rng: &mut SmallRng) -> bool {
    rng.gen::<bool>()
}

} // verus!
