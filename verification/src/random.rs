use vstd::prelude::*;

verus! {

/// Calls `rand::random_ratio`, which draws from the thread-local generator.
///
/// The crate documents the result as `true` with probability
/// `numerator / denominator`, always `false` for a zero numerator, always `true`
/// when numerator and denominator are equal, and a panic for a zero denominator or
/// a numerator above it. Which value comes back otherwise is left open.
#[verifier::external_body]
pub(crate) fn random_ratio(numerator: u32, denominator: u32) -> (b: bool)
    requires
        0 < denominator,
        numerator <= denominator,
    ensures
        numerator == 0 ==> !b,
        numerator == denominator ==> b,
{
    rand::random_ratio(numerator, denominator)
}

/// Calls `rand::random_range` with the range `..bound`, drawing from the
/// thread-local generator.
///
/// The crate documents a uniformly drawn value of the range and a panic for an
/// empty range; only that the value lies in the range is stated.
#[verifier::external_body]
pub(crate) fn random_below(bound: usize) -> (r: usize)
    requires
        0 < bound,
    ensures
        r < bound,
{
    rand::random_range(..bound)
}

} // verus!
