//! Wall-clock reading for the time-budgeted search loop.
//!
//! The search only ever asks how many nanoseconds have passed since a
//! turn began; what the clock answers depends on the machine, so nothing
//! is promised of the values.

use vstd::prelude::*;

verus! {

#[verifier::external_type_specification]
#[verifier::external_body]
pub struct ExInstant(std::time::Instant);

/// Relies on std::time::Instant::now: the moment this call is made.
#[verifier::external_body]
pub fn instant_now() -> std::time::Instant {
    std::time::Instant::now()
}

/// Relies on std::time::Instant::elapsed: the nanoseconds since the
/// instant, clamped into a word.
#[verifier::external_body]
pub fn elapsed_nanos(since: &std::time::Instant) -> u64 {
    u64::try_from(since.elapsed().as_nanos()).unwrap_or(u64::MAX)
}

} // verus!
