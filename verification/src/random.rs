//! The random draws that the simulation makes, taken from the `rand` crate.
use rand::RngExt;
use vstd::prelude::*;

verus! {

/// Draws a number uniformly from `lo..hi` with `rand`'s thread-local
/// generator (`rand::rng().random_range(lo..hi)`). Trusted: the result lies
/// in the half-open range, as `rand` documents; which value comes out is
/// left open, since it rests on chance.
#[verifier::external_body]
pub(crate) fn random_between(lo: usize, hi: usize) -> (r: usize)
    requires
        lo < hi,
    ensures
        lo <= r < hi,
{
    rand::rng().random_range(lo..hi)
}

/// Draws a boolean that is true with probability `numerator / denominator`
/// (`rand::rng().random_ratio(numerator, denominator)`). Trusted: `rand`
/// documents that the result is always true when the two are equal and
/// always false when the numerator is zero; otherwise it rests on chance.
#[verifier::external_body]
pub(crate) fn random_ratio(numerator: u32, denominator: u32) -> (b: bool)
    requires
        0 < denominator,
        numerator <= denominator,
    ensures
        numerator == denominator ==> b,
        numerator == 0 ==> !b,
{
    rand::rng().random_ratio(numerator, denominator)
}

} // verus!
