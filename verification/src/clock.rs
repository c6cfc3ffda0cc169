//! The two doors to the monotonic clock.

use tokio::time::Instant;
use vstd::prelude::*;

verus! {

/// Declares `tokio::time::Instant`, a point in time, as a type whose values
/// are carried around and never looked into.
#[verifier::external_type_specification]
#[verifier::external_body]
pub struct ExInstant(tokio::time::Instant);

/// Reads the clock with `tokio::time::Instant::now()`.
///
/// Trusted: nothing is claimed of the instant that comes back.
#[verifier::external_body]
pub(crate) fn clock_now() -> (now: Instant) {
    Instant::now()
}

/// Nanoseconds from `start` until now, by `tokio::time::Instant::elapsed()`,
/// which is zero when `start` lies in the future.
///
/// Trusted: nothing is claimed of the number that comes back.
#[verifier::external_body]
pub(crate) fn nanos_since(start: &Instant) -> (nanos: u128) {
    start.elapsed().as_nanos()
}

} // verus!
