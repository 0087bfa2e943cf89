//! Points in time and spans between them, as the consensus code sees them.
//!
//! The consensus code never reads a clock: the driver measures time from an
//! origin of its own choosing and hands each reading in.

use vstd::prelude::*;

verus! {

/// Nanoseconds in a millisecond.
pub const NANOS_PER_MILLI: u64 = 1_000_000;

/// A span of time, in nanoseconds.
#[derive(Clone, Copy, Debug, PartialEq, Eq, Structural)]
pub struct Duration {
    pub nanos: u64,
}

impl Duration {
    /// A span of `millis` milliseconds.
    pub fn from_millis(millis: u64) -> (r: Self)
        requires
            millis * NANOS_PER_MILLI <= u64::MAX,
        ensures
            r.nanos == millis * NANOS_PER_MILLI,
    {
        Duration { nanos: millis * NANOS_PER_MILLI }
    }

    /// The whole milliseconds in the span.
    pub open spec fn millis(self) -> int {
        self.nanos as int / NANOS_PER_MILLI as int
    }

    /// The whole milliseconds in the span.
    pub fn as_millis(&self) -> (r: u64)
        ensures
            r == self.millis(),
    {
        self.nanos / NANOS_PER_MILLI
    }
}

/// A point in time: nanoseconds since the driver's origin.
#[derive(Clone, Copy, Debug, PartialEq, Eq, Structural)]
pub struct Instant {
    pub nanos: u64,
}

impl Instant {
    /// The point `span` after this one.
    pub fn plus(&self, span: Duration) -> (r: Self)
        requires
            self.nanos + span.nanos <= u64::MAX,
        ensures
            r.nanos == self.nanos + span.nanos,
    {
        Instant { nanos: self.nanos + span.nanos }
    }

    /// Time elapsed from `earlier` to this point, or zero if `earlier` is later.
    pub open spec fn elapsed_since(self, earlier: Instant) -> int {
        if self.nanos >= earlier.nanos {
            self.nanos - earlier.nanos
        } else {
            0
        }
    }

    /// Time elapsed from `earlier` to this point, or zero if `earlier` is later.
    pub fn saturating_duration_since(&self, earlier: Instant) -> (r: Duration)
        ensures
            r.nanos == self.elapsed_since(earlier),
    {
        if self.nanos >= earlier.nanos {
            Duration { nanos: self.nanos - earlier.nanos }
        } else {
            Duration { nanos: 0 }
        }
    }
}

// ---- laws ----
/// The whole milliseconds in a span are as many as fit in it.
pub proof fn whole_milliseconds_fit(span: Duration)
    ensures
        span.millis() * NANOS_PER_MILLI <= span.nanos < (span.millis() + 1) * NANOS_PER_MILLI,
{
}

/// Time that has elapsed since an earlier point leads back to it; since a later one, none
/// has.
pub proof fn elapsed_time_leads_back(now: Instant, earlier: Instant)
    ensures
        earlier.nanos <= now.nanos ==> earlier.nanos + now.elapsed_since(earlier) == now.nanos,
        earlier.nanos > now.nanos ==> now.elapsed_since(earlier) == 0,
{
}

/// Spans are as long as they are made, a point that is a span later is that much later, and
/// the time between them is the span.
pub proof fn spans_add_up(
    millis: u64,
    span: Duration,
    whole: u64,
    now: &Instant,
    later: Instant,
    between: Duration,
    back: Duration,
)
    requires
        call_ensures(Duration::from_millis, (millis,), span),
        call_ensures(Duration::as_millis, (&span,), whole),
        call_ensures(Instant::plus, (now, span), later),
        call_ensures(Instant::saturating_duration_since, (&later, *now), between),
        call_ensures(Instant::saturating_duration_since, (now, later), back),
    ensures
        whole == millis,
        span.nanos == millis * 1_000_000,
        later.nanos == now.nanos + span.nanos,
        between == span,
        back.nanos == 0,
{
}

} // verus!
