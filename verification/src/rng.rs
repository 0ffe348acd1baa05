//! The one source of randomness: both cell-value collapse and the
//! entropy tie-break draw a uniformly random index through it.

use vstd::prelude::*;

verus! {

/// Relies on rand's `Rng::gen_range` over `rand::thread_rng()`: for a
/// non-empty range `0..n` it returns a uniformly random value in that
/// range (and panics only on an empty range, which `n > 0` rules out).
/// Nothing more can be promised of a random draw than its bound.
#[verifier::external_body]
pub(crate) fn random_below(n: usize) -> (r: usize)
    requires
        n > 0,
    ensures
        r < n,
{
    rand::Rng::gen_range(&mut rand::thread_rng(), 0..n)
}

} // verus!
