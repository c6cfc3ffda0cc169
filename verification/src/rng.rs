//! The one door to the random number generator.

use rand::Rng;
use vstd::prelude::*;

verus! {

/// Draws from `rand::thread_rng()` with `Rng::gen_range(0..=max)`.
///
/// Trusted: the generator returns a value of the closed range it is given,
/// so the result is at most `max`. Nothing else is claimed of it, and two
/// calls may differ.
#[verifier::external_body]
pub(crate) fn random_up_to(max: u32) -> (r: u32)
    ensures
        r <= max,
{
    rand::thread_rng().gen_range(0..=max)
}

} // verus!
