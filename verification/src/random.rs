//! The one place where this crate draws random numbers.

use rand::Rng;
use vstd::prelude::*;

verus! {

/// Draws an integer from `0..bound` with the calling thread's generator,
/// by `rand::thread_rng` and `rand::Rng::gen_range`.
///
/// Trusted: `gen_range` returns a value inside the range it is given, and
/// panics only when that range is empty, which `bound > 0` rules out.
/// Nothing is claimed about which value comes back.
#[verifier::external_body]
pub(crate) fn uniform_below(bound: u64) -> (r: u64)
    requires
        bound > 0,
    ensures
        r < bound,
{
    rand::thread_rng().gen_range(0..bound)
}

} // verus!
