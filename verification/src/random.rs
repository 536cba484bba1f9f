//! The random source of a search and the two draws the engine makes from it.
//!
//! Nothing is proved about the generator. The contracts below state only what
//! holds of every outcome of a draw.

use rand::rngs::StdRng;
use rand::seq::IteratorRandom;
use rand::Rng;
use vstd::prelude::*;

verus! {

/// `rand::rngs::StdRng`, a seedable generator; opaque to the verifier.
#[verifier::external_type_specification]
#[verifier::external_body]
pub struct ExStdRng(rand::rngs::StdRng);

/// Calls `rand::Rng::gen_range` on the half-open range from `low` to `high`.
/// The contract claims that the value drawn lies in that range; the call
/// panics on an empty range, which the precondition excludes.
#[verifier::external_body]
pub(crate) fn draw_between(rng: &mut StdRng, low: u64, high: u64) -> (value: u64)
    requires
        low < high,
    ensures
        low <= value < high,
{
    rng.gen_range(low..high)
}

/// Calls `rand::seq::IteratorRandom::choose` on the half-open range of
/// indices from `low` to `high`. The contract claims what the method
/// documents: nothing is chosen exactly when the range is empty, and what is
/// chosen is one of its indices.
#[verifier::external_body]
pub(crate) fn choose_between(rng: &mut StdRng, low: usize, high: usize) -> (picked: Option<usize>)
    ensures
        picked is None <==> low >= high,
        picked matches Some(i) ==> low <= i < high,
{
    (low..high).choose(rng)
}

} // verus!
