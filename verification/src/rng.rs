//! Random draws from the thread-local generator of the `rand` crate.
//!
//! Nothing is promised of the values drawn beyond the range they fall in:
//! every verified function that consumes one of them is specified for every
//! value it could be.
use vstd::prelude::*;
use rand::Rng;

verus! {

/// The per-thread generator handed out by `rand::rng()`.
#[verifier::external_type_specification]
#[verifier::external_body]
pub struct ExThreadRng(rand::rngs::ThreadRng);

/// Calls `rand::rng()`, which returns a handle to the thread-local generator.
/// Nothing is claimed of the handle.
#[verifier::external_body]
pub(crate) fn thread_rng() -> rand::rngs::ThreadRng {
    rand::rng()
}

/// Calls `Rng::random::<bool>()`: a fair coin. No claim is made on which
/// value comes back.
#[verifier::external_body]
pub(crate) fn random_bool(rng: &mut rand::rngs::ThreadRng) -> bool {
    rng.random::<bool>()
}

/// Calls `Rng::random::<u8>()`: any byte. No claim is made on which value
/// comes back.
#[verifier::external_body]
pub(crate) fn random_u8(rng: &mut rand::rngs::ThreadRng) -> u8 {
    rng.random::<u8>()
}

/// Calls `Rng::random_range(lo..hi)` on `u8`. The `rand` documentation
/// promises a value in the half-open range and a panic when the range is
/// empty; the latter is excluded by `requires`.
#[verifier::external_body]
pub(crate) fn random_range_u8(rng: &mut rand::rngs::ThreadRng, lo: u8, hi: u8) -> (r: u8)
    requires
        lo < hi,
    ensures
        lo <= r < hi,
{
    rng.random_range(lo..hi)
}

/// Calls `Rng::random_range(lo..hi)` on `u32`: a value in the half-open
/// range; an empty range (a panic) is excluded by `requires`.
#[verifier::external_body]
pub(crate) fn random_range_u32(rng: &mut rand::rngs::ThreadRng, lo: u32, hi: u32) -> (r: u32)
    requires
        lo < hi,
    ensures
        lo <= r < hi,
{
    rng.random_range(lo..hi)
}

/// Calls `Rng::random_range(lo..hi)` on `i32`: a value in the half-open
/// range; an empty range (a panic) is excluded by `requires`.
#[verifier::external_body]
pub(crate) fn random_range_i32(rng: &mut rand::rngs::ThreadRng, lo: i32, hi: i32) -> (r: i32)
    requires
        lo < hi,
    ensures
        lo <= r < hi,
{
    rng.random_range(lo..hi)
}

/// Calls `Rng::random_ratio(numerator, denominator)`: `true` with chance
/// `numerator / denominator`. The `rand` source guarantees `false` when the
/// numerator is 0 and `true` when it equals the denominator, and panics
/// when the denominator is 0 or smaller than the numerator; `requires`
/// excludes the panics.
#[verifier::external_body]
pub(crate) fn random_ratio(rng: &mut rand::rngs::ThreadRng, numerator: u32, denominator: u32) -> (b: bool)
    requires
        0 < denominator,
        numerator <= denominator,
    ensures
        numerator == 0 ==> !b,
        numerator == denominator ==> b,
{
    rng.random_ratio(numerator, denominator)
}

} // verus!
