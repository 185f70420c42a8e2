//! Spans and points of time, counted in whole nanoseconds.
use vstd::prelude::*;

verus! {

/// Nanoseconds in one second.
pub const NANOS_PER_SEC: u128 = 1_000_000_000;

/// A span of time.
#[derive(Clone, Copy, Debug, PartialEq, Eq, Structural)]
pub struct Duration {
    pub nanos: u128,
}

impl Duration {
    /// A span of whole seconds.
    pub fn from_secs(secs: u64) -> (span: Self)
        ensures
            span.nanos == secs * 1_000_000_000,
    {
        Duration { nanos: secs as u128 * 1_000_000_000 }
    }

    /// A span of whole milliseconds.
    pub fn from_millis(millis: u64) -> (span: Self)
        ensures
            span.nanos == millis * 1_000_000,
    {
        Duration { nanos: millis as u128 * 1_000_000 }
    }

    /// A span of whole microseconds.
    pub fn from_micros(micros: u64) -> (span: Self)
        ensures
            span.nanos == micros * 1_000,
    {
        Duration { nanos: micros as u128 * 1_000 }
    }

    /// A span of nanoseconds.
    pub fn from_nanos(nanos: u64) -> (span: Self)
        ensures
            span.nanos == nanos,
    {
        Duration { nanos: nanos as u128 }
    }

    /// Whether the span is empty.
    pub fn is_zero(&self) -> (zero: bool)
        ensures
            zero == (self.nanos == 0),
    {
        self.nanos == 0
    }

    /// The shorter of two spans.
    pub fn min(self, other: Self) -> (span: Self)
        ensures
            span.nanos == if other.nanos < self.nanos { other.nanos } else { self.nanos },
    {
        if other.nanos < self.nanos {
            other
        } else {
            self
        }
    }

    /// The span in whole microseconds, capped at the largest `u64`.
    pub fn as_micros(&self) -> (micros: u64)
        ensures
            micros == micros_of(self.nanos as nat),
            micros * 1_000 <= self.nanos,
            self.nanos < micros * 1_000 + 1_000 || micros == u64::MAX,
    {
        let micros: u128 = self.nanos / 1_000;
        if micros > u64::MAX as u128 {
            u64::MAX
        } else {
            micros as u64
        }
    }
}

/// Whole microseconds in `nanos` nanoseconds, capped at the largest `u64`.
pub open spec fn micros_of(nanos: nat) -> u64 {
    if nanos / 1_000 > u64::MAX {
        u64::MAX
    } else {
        (nanos / 1_000) as u64
    }
}

/// A reading of a monotonic clock, in nanoseconds since a fixed origin.
#[derive(Clone, Copy, Debug, PartialEq, Eq, Structural)]
pub struct Instant {
    pub nanos: u128,
}

/// The reading `span` nanoseconds after `at`, or the last reading the clock can show.
pub open spec fn later(at: u128, span: u128) -> u128 {
    if at + span > u128::MAX {
        u128::MAX
    } else {
        (at + span) as u128
    }
}

impl Instant {
    /// The point one `span` later, capped at the last point that can be represented.
    pub fn plus(self, span: Duration) -> (at: Self)
        ensures
            at.nanos == later(self.nanos, span.nanos),
            self.nanos + span.nanos <= u128::MAX ==> at.nanos == self.nanos + span.nanos,
            self.nanos + span.nanos > u128::MAX ==> at.nanos == u128::MAX,
    {
        Instant { nanos: self.nanos.saturating_add(span.nanos) }
    }
}

/// Law: a span that is cut down to whole microseconds loses less than one of them, unless
/// it is longer than microseconds can count.
pub proof fn law_microseconds_lose_less_than_one(nanos: nat)
    ensures
        micros_of(nanos) * 1_000 <= nanos,
        nanos < micros_of(nanos) * 1_000 + 1_000 || micros_of(nanos) == u64::MAX,
{
}

/// Law: a span later is exactly that much later, as long as the clock can show it, and the
/// last reading of the clock otherwise.
pub proof fn law_time_adds_up(at: u128, span: u128)
    ensures
        at + span <= u128::MAX ==> later(at, span) == at + span,
        at + span > u128::MAX ==> later(at, span) == u128::MAX,
{
}

} // verus!
