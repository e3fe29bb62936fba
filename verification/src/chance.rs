//! The source of randomness: the thread-local generator of the `rand`
//! crate behind two draws.

use vstd::prelude::*;

verus! {

/// Declares the generator type `rand::rngs::ThreadRng`. Nothing is known
/// of what it holds.
#[verifier::external_type_specification]
#[verifier::external_body]
pub struct ExThreadRng(rand::rngs::ThreadRng);

/// Obtains the thread-local generator from `rand::rng`. Nothing is
/// claimed of the generator.
#[verifier::external_body]
pub(crate) fn thread_generator() -> (rng: rand::rngs::ThreadRng) {
    rand::rng()
}

/// Draws a number below `bound` with `rand::Rng::random_range` over
/// `0..bound`. The range is not empty, so the call returns, and the
/// draw lies in the range.
#[verifier::external_body]
pub(crate) fn random_below(rng: &mut rand::rngs::ThreadRng, bound: usize) -> (draw: usize)
    requires
        bound > 0,
    ensures
        draw < bound,
{
    rand::Rng::random_range(rng, 0..bound)
}

/// Flips a coin with `rand::Rng::random`. Nothing is claimed of the
/// outcome.
#[verifier::external_body]
pub(crate) fn random_flag(rng: &mut rand::rngs::ThreadRng) -> (heads: bool) {
    rand::Rng::random(rng)
}

} // verus!
