//! Spans of time and the monotonic clock.

use vstd::prelude::*;

verus! {

/// A point on the monotonic clock, carried through as an opaque value.
#[verifier::external_type_specification]
#[verifier::external_body]
pub struct ExInstant(std::time::Instant);

/// A span of time.
#[derive(Debug, Clone, Copy, PartialEq, Eq, Structural)]
pub struct Span {
    /// Its length in nanoseconds.
    pub nanos: u128,
}

impl Span {
    /// A span of whole milliseconds.
    pub fn from_millis(millis: u64) -> (span: Span)
        ensures
            span.nanos == millis * 1_000_000,
    {
        Span { nanos: millis as u128 * 1_000_000 }
    }

    /// A span of whole microseconds.
    pub fn from_micros(micros: u64) -> (span: Span)
        ensures
            span.nanos == micros * 1_000,
    {
        Span { nanos: micros as u128 * 1_000 }
    }

    /// Whether the span is empty.
    pub fn is_zero(&self) -> (yes: bool)
        ensures
            yes == (self.nanos == 0),
    {
        self.nanos == 0
    }
}

/// The span in nanoseconds, or the greatest number if it does not fit.
pub open spec fn clamped(nanos: int) -> u64 {
    if nanos <= u64::MAX {
        nanos as u64
    } else {
        u64::MAX
    }
}

/// Nanoseconds for the metrics, clamped to 64 bits.
pub fn clamp_nanos(span: Span) -> (nanos: u64)
    ensures
        nanos == clamped(span.nanos as int),
{
    if span.nanos <= u64::MAX as u128 {
        span.nanos as u64
    } else {
        u64::MAX
    }
}

/// [`std::time::Instant::now`]. Nothing is claimed of the result: it depends on
/// the moment of the call.
#[verifier::external_body]
pub(crate) fn clock_now() -> std::time::Instant {
    std::time::Instant::now()
}

/// [`std::time::Instant::elapsed`], in nanoseconds. Nothing is claimed of the
/// result: it depends on the moment of the call.
#[verifier::external_body]
pub(crate) fn clock_elapsed(start: &std::time::Instant) -> Span {
    Span { nanos: start.elapsed().as_nanos() }
}

/// Clamping keeps what fits, and makes the greatest number of all else; so it keeps
/// the order of spans.
pub proof fn law_clamping_keeps_what_fits(a: int, b: int)
    requires
        0 <= a <= b,
    ensures
        a <= u64::MAX ==> clamped(a) == a,
        a > u64::MAX ==> clamped(a) == u64::MAX,
        clamped(a) <= clamped(b),
{
}

} // verus!
