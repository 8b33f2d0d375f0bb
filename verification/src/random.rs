//! The random draws that the simulation rules take, from the thread-local
//! generator of the `rand` crate.
use vstd::prelude::*;
use rand::Rng;

verus! {

/// A value of `rand::random::<u8>()`: any `u8`, uniformly distributed.
/// Nothing is promised of which value comes back.
#[verifier::external_body]
pub(crate) fn random_u8() -> (r: u8) {
    rand::random::<u8>()
}

/// A value of `rand::random::<usize>()`: any `usize`, uniformly distributed.
/// Nothing is promised of which value comes back.
#[verifier::external_body]
pub(crate) fn random_usize() -> (r: usize) {
    rand::random::<usize>()
}

/// A value of `rand::random::<i32>()`: any `i32`, uniformly distributed.
/// Nothing is promised of which value comes back.
#[verifier::external_body]
pub(crate) fn random_i32() -> (r: i32) {
    rand::random::<i32>()
}

/// `rand::thread_rng().gen_range(0..upper)`: the source asserts that the range
/// is not empty and samples from the half-open range, so the value is below
/// `upper`. Which value comes back is left open.
#[verifier::external_body]
pub(crate) fn random_below(upper: u32) -> (r: u32)
    requires
        upper > 0,
    ensures
        r < upper,
{
    rand::thread_rng().gen_range(0..upper)
}

} // verus!
