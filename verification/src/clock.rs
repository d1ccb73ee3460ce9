//! The clocks of the machine, and spans of time.

use std::time::{Duration, Instant, SystemTime};
use vstd::prelude::*;

verus! {

/// A point in time on the machine's calendar clock. Nothing here looks inside one.
#[verifier::external_type_specification]
#[verifier::external_body]
pub struct ExSystemTime(SystemTime);

/// A point in time on the machine's monotonic clock. Nothing here looks inside one.
#[verifier::external_type_specification]
#[verifier::external_body]
pub struct ExInstant(Instant);

/// `SystemTime::now`: some point in time. Which one is up to the machine's clock, so
/// nothing is said of it.
#[verifier::external_body]
pub(crate) fn system_now() -> (now: SystemTime) {
    SystemTime::now()
}

/// `Instant::now`: some point in time. Which one is up to the machine's clock, so
/// nothing is said of it.
#[verifier::external_body]
pub(crate) fn instant_now() -> (now: Instant) {
    Instant::now()
}

/// The span that `Instant::saturating_duration_since` finds from `start` to `now`.
pub uninterp spec fn between(start: Instant, now: Instant) -> Duration;

/// `Instant::saturating_duration_since`: the time from `start` to `now`, or none where `start`
/// is the later of the two, under the name `between`.
#[verifier::external_body]
pub(crate) fn span_between(start: &Instant, now: &Instant) -> (span: Duration)
    ensures
        span == between(*start, *now),
{
    now.saturating_duration_since(*start)
}

/// How many nanoseconds a span of time has.
pub uninterp spec fn nanos(span: Duration) -> nat;

/// `Duration::as_nanos`: the number of nanoseconds in `span`.
#[verifier::external_body]
pub(crate) fn nanos_of(span: &Duration) -> (n: u128)
    ensures
        n == nanos(*span),
{
    span.as_nanos()
}

/// `Duration::as_secs`: the number of whole seconds in `span`.
#[verifier::external_body]
pub(crate) fn whole_seconds(span: &Duration) -> (n: u64)
    ensures
        n == nanos(*span) / 1_000_000_000,
{
    span.as_secs()
}

/// `Duration::from_millis`: a span of `ms` milliseconds.
#[verifier::external_body]
pub(crate) fn span_of_millis(ms: u64) -> (span: Duration)
    ensures
        nanos(span) == ms * 1_000_000,
{
    Duration::from_millis(ms)
}

} // verus!
