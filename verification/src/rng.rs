//! The engine's only sources of randomness, each a thin trusted wrapper
//! around the `rand` crate. Nothing beyond the documented range of a sample
//! is assumed of any draw: every caller is verified for every value these
//! can return.

use vstd::prelude::*;

verus! {

/// Relies on rand::random_range over `0..n`: a sample strictly below `n`.
/// The range must be non-empty, or the call would panic.
#[verifier::external_body]
pub(crate) fn random_below(n: usize) -> (r: usize)
    requires
        n >= 1,
    ensures
        r < n,
{
    rand::random_range(0..n)
}

/// Relies on rand::random for `u64`: an independent draw; nothing is
/// promised of the value.
#[verifier::external_body]
pub(crate) fn random_u64() -> (r: u64) {
    rand::random()
}

} // verus!
