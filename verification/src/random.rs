//! The source of random numbers that the simulations draw from.

use rand::rngs::StdRng;
use rand::Rng;
use vstd::prelude::*;

verus! {

/// The standard seedable generator of the `rand` crate. Its state is opaque
/// to the proofs.
#[verifier::external_type_specification]
#[verifier::external_body]
pub struct ExStdRng(StdRng);

/// Draws an index below `n` with `Rng::random_range(0..n)`.
///
/// Trusted: `random_range` returns a value of the range it is given, and
/// panics only when the range is empty, which `n > 0` excludes. Nothing is
/// claimed about which value comes out.
#[verifier::external_body]
pub(crate) fn draw_below(rng: &mut StdRng, n: usize) -> (i: usize)
    requires
        n > 0,
    ensures
        i < n,
{
    rng.random_range(0..n)
}

/// Tosses a coin that comes up true `numerator` times in `denominator`, with
/// `Rng::random_ratio`.
///
/// Trusted: `random_ratio` panics only when the denominator is 0 or the
/// numerator exceeds it, which the `requires` excludes; it always returns true
/// when the two are equal and always false when the numerator is 0. Nothing is
/// claimed about the outcome otherwise.
#[verifier::external_body]
pub(crate) fn toss(rng: &mut StdRng, numerator: u32, denominator: u32) -> (r: bool)
    requires
        denominator > 0,
        numerator <= denominator,
    ensures
        numerator == denominator ==> r,
        numerator == 0 ==> !r,
{
    rng.random_ratio(numerator, denominator)
}

/// Draws an integer of the inclusive range `[min, max]` with
/// `stdt::utils::random::integer_in`, which seeds itself from the clock and
/// the thread.
///
/// Trusted: `integer_in` panics only when `min > max`, which the `requires`
/// excludes, and returns a value of the range. Nothing is claimed about which
/// value comes out.
#[verifier::external_body]
pub(crate) fn integer_in(min: i128, max: i128) -> (r: i128)
    requires
        min <= max,
    ensures
        min <= r <= max,
{
    stdt::utils::random::integer_in(min, max)
}

} // verus!
