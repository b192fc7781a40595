//! Draws from the thread-local random generator of the `rand` crate.

use vstd::prelude::*;
use rand::Rng;

verus! {

/// Relies on `rand::Rng::gen_range` over `min..=max` on `thread_rng()`: a
/// uniform draw from the inclusive range. It panics when the range is empty.
#[verifier::external_body]
pub fn random_int(min: usize, max: usize) -> (r: usize)
    requires
        min <= max,
    ensures
        min <= r <= max,
{
    rand::thread_rng().gen_range(min..=max)
}

} // verus!
