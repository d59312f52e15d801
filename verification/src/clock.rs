//! The machine's clock, for measuring how long work takes.
use core::time::Duration;
use std::time::Instant;

use vstd::prelude::*;

verus! {

/// A reading of the clock.
#[verifier::external_type_specification]
#[verifier::external_body]
pub struct ExInstant(std::time::Instant);

/// How many nanoseconds a duration has.
pub uninterp spec fn nanos_of(d: Duration) -> nat;

/// `Instant::now`: a reading of a clock that never goes back. Nothing is
/// known of it.
#[verifier::external_body]
pub(crate) fn now() -> (t: Instant) {
    Instant::now()
}

/// `Instant::elapsed`: how long ago a reading was taken. It depends on the
/// clock, so nothing is known of it.
#[verifier::external_body]
pub(crate) fn elapsed(since: &Instant) -> (d: Duration) {
    since.elapsed()
}

/// `Duration::as_nanos`: the whole number of nanoseconds in a duration.
#[verifier::external_body]
pub(crate) fn as_nanos(d: &Duration) -> (n: u128)
    ensures
        n == nanos_of(*d),
{
    d.as_nanos()
}

} // verus!
