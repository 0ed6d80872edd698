//! Spans of time, and the clock that measures them.

use std::time::Instant;
use vstd::arithmetic::power2::*;
use vstd::prelude::*;

use crate::decimals::BILLION;
use crate::double::Double;
use crate::magnitude;
use crate::magnitude::TWO_TO_64;
use crate::rounding::SCALE;

verus! {

/// How many nanoseconds a second has.
pub const NANOS_PER_SEC: u32 = 1_000_000_000;

/// A span of time in whole seconds and nanoseconds.
#[derive(Clone, Copy, Debug, PartialEq, Eq, Structural)]
pub struct TimeSpan {
    pub secs: u64,
    pub nanos: u32,
}

impl TimeSpan {
    /// Whether the nanoseconds stay below a second.
    pub open spec fn wf(self) -> bool {
        self.nanos < NANOS_PER_SEC
    }

    /// The span in nanoseconds.
    pub open spec fn total(self) -> int {
        self.secs * NANOS_PER_SEC + self.nanos
    }

    /// The span of the given length in nanoseconds.
    pub open spec fn of_total(total: int) -> TimeSpan {
        TimeSpan {
            secs: (total / (NANOS_PER_SEC as int)) as u64,
            nanos: (total % (NANOS_PER_SEC as int)) as u32,
        }
    }

    /// The span from `earlier` to `self`, or the empty one where `earlier` is
    /// the later of the two.
    pub open spec fn spec_since(self, earlier: TimeSpan) -> TimeSpan {
        if self.total() <= earlier.total() {
            TimeSpan { secs: 0, nanos: 0 }
        } else {
            TimeSpan::of_total(self.total() - earlier.total())
        }
    }

    /// The span in seconds: the rounded sum of the whole seconds and of the
    /// rounded fraction of a second.
    pub open spec fn spec_as_secs(self) -> Double {
        Double::of_integer(self.secs).plus(
            Double::of_integer(self.nanos as u64).over(Double::from_bits(BILLION)),
        )
    }

    /// The span nearest to a number of seconds, in whole nanoseconds. Of two
    /// that are equally near it is the even one.
    pub open spec fn spec_from_secs(secs: Double) -> TimeSpan {
        TimeSpan::of_total(
            magnitude::round_half_even(
                secs.units() * 1_000_000_000,
                pow2(SCALE as nat) as int,
            ),
        )
    }

    /// The span from `earlier` to `self`, or the empty one where `earlier` is
    /// the later of the two.
    #[verifier::when_used_as_spec(spec_since)]
    pub fn since(self, earlier: TimeSpan) -> (r: TimeSpan)
        requires
            self.wf(),
            earlier.wf(),
        ensures
            r == self.spec_since(earlier),
            r.wf(),
    {
        if self.secs < earlier.secs || (self.secs == earlier.secs && self.nanos <= earlier.nanos) {
            return TimeSpan { secs: 0, nanos: 0 };
        }
        if self.nanos >= earlier.nanos {
            TimeSpan { secs: self.secs - earlier.secs, nanos: self.nanos - earlier.nanos }
        } else {
            TimeSpan {
                secs: self.secs - earlier.secs - 1,
                nanos: NANOS_PER_SEC - earlier.nanos + self.nanos,
            }
        }
    }

    /// The span in seconds: the rounded sum of the whole seconds and of the
    /// rounded fraction of a second.
    #[verifier::when_used_as_spec(spec_as_secs)]
    pub fn as_secs(self) -> (r: Double)
        ensures
            r == self.spec_as_secs(),
    {
        Double::of_integer(self.secs).plus(
            Double::of_integer(self.nanos as u64).over(Double::from_bits(BILLION)),
        )
    }

    /// The span nearest to a number of seconds, in whole nanoseconds. Of two
    /// that are equally near it is the even one.
    #[verifier::when_used_as_spec(spec_from_secs)]
    pub fn from_secs(secs: Double) -> (r: TimeSpan)
        requires
            !secs.negative(),
            secs.lt(Double::from_bits(TWO_TO_64)),
        ensures
            r == TimeSpan::spec_from_secs(secs),
            r.wf(),
    {
        let total: u128 = magnitude::billionths(secs.code());
        TimeSpan {
            secs: (total / NANOS_PER_SEC as u128) as u64,
            nanos: (total % NANOS_PER_SEC as u128) as u32,
        }
    }
}

/// An instant of the monotonic clock of std.
#[verifier::external_type_specification]
#[verifier::external_body]
pub struct ExInstant(std::time::Instant);

/// `Instant::now` reads the monotonic clock. Nothing is claimed of what it gives:
/// that depends on when it is called.
pub assume_specification[ Instant::now ]() -> Instant;

/// `Instant::elapsed` reads the monotonic clock and gives the span since `start`.
/// All that is claimed is that the span has less than a second in its
/// nanoseconds, as `Duration::subsec_nanos` has; how long it is depends on when
/// the clock is read.
#[verifier::external_body]
fn elapsed_since(start: &Instant) -> (r: TimeSpan)
    ensures
        r.wf(),
{
    let span = start.elapsed();
    TimeSpan { secs: span.as_secs(), nanos: span.subsec_nanos() }
}

/// Whether an instant is one that the clock showed when it was asked for the
/// present.
pub closed spec fn was_present(instant: Instant) -> bool {
    call_ensures(Instant::now, (), instant)
}

/// Whether a span is one that the clock showed when it was asked for the time since
/// an instant.
pub closed spec fn was_read(since: Instant, span: TimeSpan) -> bool {
    call_ensures(elapsed_since, (&since,), span)
}

/// The present.
pub(crate) fn present() -> (r: Instant)
    ensures
        was_present(r),
{
    Instant::now()
}

/// The time since an instant.
pub(crate) fn read_since(start: &Instant) -> (r: TimeSpan)
    ensures
        was_read(*start, r),
        r.wf(),
{
    elapsed_since(start)
}

/// Every span that the clock showed has less than a second in its nanoseconds.
pub proof fn readings_are_spans(since: Instant, span: TimeSpan)
    requires
        was_read(since, span),
    ensures
        span.wf(),
{
}

} // verus!
