//! The source of randomness that sampling consumes.
use rand::Rng;
use vstd::prelude::*;

verus! {

/// Draws an integer below `bound` from the thread-local generator of the
/// `rand` crate, by `rand::Rng::gen_range` on the range `0..bound`.
///
/// Trusted: `gen_range` returns a value inside the range it is given and
/// panics on an empty range, which `bound > 0` rules out. Nothing is
/// claimed about which value inside the range a call returns.
#[verifier::external_body]
pub(crate) fn uniform_below(bound: u64) -> (draw: u64)
    requires
        bound > 0,
    ensures
        draw < bound,
{
    rand::thread_rng().gen_range(0..bound)
}

} // verus!
