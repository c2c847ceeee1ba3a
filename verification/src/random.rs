//! The random draws that the generator makes, from a generator that the
//! caller owns and may seed.

use rand::rngs::StdRng;
use rand::Rng;
use vstd::prelude::*;

verus! {

/// rand's standard generator. Proofs know nothing of its state.
#[verifier::external_type_specification]
#[verifier::external_body]
pub struct ExStdRng(StdRng);

/// Calls `Rng::gen_range` on the inclusive range from 0 to `high`, which
/// draws a number of that range. Which one is not known to proofs.
#[verifier::external_body]
pub(crate) fn draw_up_to(rng: &mut StdRng, high: usize) -> (drawn: usize)
    ensures
        drawn <= high,
{
    rng.gen_range(0..=high)
}

/// Calls `Rng::gen_ratio`, which returns `true` with a probability of
/// `numerator` in `denominator`. It panics on a ratio above one or with a
/// zero denominator, so those are excluded. Nothing is claimed of the
/// outcome.
#[verifier::external_body]
pub(crate) fn draw_ratio(rng: &mut StdRng, numerator: u32, denominator: u32) -> (outcome: bool)
    requires
        denominator > 0,
        numerator <= denominator,
{
    rng.gen_ratio(numerator, denominator)
}

} // verus!
