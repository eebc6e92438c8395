//! Durations and the timer that spaces requests out.
use vstd::prelude::*;

verus! {

/// The number of nanoseconds in a second.
pub const NANOS_PER_SEC: u32 = 1_000_000_000;

/// The number of nanoseconds that the longest span stays below.
pub const MAX_NANOS: u128 = 0x1_0000_0000_0000_0000 * 1_000_000_000;

/// A span of time, to the nanosecond.
#[derive(Debug, Clone, Copy, PartialEq, Eq, Structural)]
pub struct Duration {
    secs: u64,
    nanos: u32,
}

impl Duration {
    /// The part below a second is less than a second.
    #[verifier::type_invariant]
    closed spec fn below_second(self) -> bool {
        self.nanos < NANOS_PER_SEC
    }

    /// Whole seconds.
    pub closed spec fn secs(self) -> u64 {
        self.secs
    }

    /// Nanoseconds beyond the whole seconds.
    pub closed spec fn nanos(self) -> u32 {
        self.nanos
    }

    /// The length of the span in nanoseconds.
    pub open spec fn total_nanos(self) -> int {
        self.secs() * NANOS_PER_SEC + self.nanos()
    }

    /// The length of the span in whole milliseconds.
    pub open spec fn total_millis(self) -> int {
        self.secs() * 1000 + self.nanos() as int / 1_000_000
    }

    /// The span of `secs` seconds and `nanos` nanoseconds.
    pub fn new(secs: u64, nanos: u32) -> (span: Duration)
        requires
            nanos < NANOS_PER_SEC,
        ensures
            span.secs() == secs,
            span.nanos() == nanos,
    {
        Duration { secs, nanos }
    }

    /// The span of `secs` seconds.
    pub fn from_secs(secs: u64) -> (span: Duration)
        ensures
            span.secs() == secs,
            span.nanos() == 0,
    {
        Duration { secs, nanos: 0 }
    }

    /// The span of `millis` milliseconds.
    pub fn from_millis(millis: u64) -> (span: Duration)
        ensures
            span.secs() == millis / 1000,
            span.nanos() == (millis % 1000) * 1_000_000,
            span.total_nanos() == millis * 1_000_000,
            span.total_millis() == millis,
    {
        Duration { secs: millis / 1000, nanos: ((millis % 1000) * 1_000_000) as u32 }
    }

    /// The span of `nanos` nanoseconds.
    pub fn from_nanos(nanos: u128) -> (span: Duration)
        requires
            nanos < MAX_NANOS,
        ensures
            span.total_nanos() == nanos,
            span.nanos() < NANOS_PER_SEC,
    {
        let per_sec: u128 = NANOS_PER_SEC as u128;
        Duration { secs: (nanos / per_sec) as u64, nanos: (nanos % per_sec) as u32 }
    }

    /// Whole seconds.
    pub fn as_secs(&self) -> (secs: u64)
        ensures
            secs == self.secs(),
    {
        self.secs
    }

    /// Nanoseconds beyond the whole seconds.
    pub fn subsec_nanos(&self) -> (nanos: u32)
        ensures
            nanos == self.nanos(),
            nanos < NANOS_PER_SEC,
    {
        proof {
            use_type_invariant(self);
        }
        self.nanos
    }

    /// The length of the span in nanoseconds.
    pub fn as_nanos(&self) -> (nanos: u128)
        ensures
            nanos == self.total_nanos(),
            nanos < MAX_NANOS,
            self.nanos() < NANOS_PER_SEC,
    {
        proof {
            use_type_invariant(self);
        }
        self.secs as u128 * 1_000_000_000 + self.nanos as u128
    }

    /// The length of the span in whole milliseconds.
    pub fn as_millis(&self) -> (millis: u128)
        ensures
            millis == self.total_millis(),
    {
        self.secs as u128 * 1000 + self.nanos as u128 / 1_000_000
    }
}

/// Spans of the same length are the same.
pub proof fn lemma_same_span(first: Duration, second: Duration)
    requires
        first.nanos() < NANOS_PER_SEC,
        second.nanos() < NANOS_PER_SEC,
        first.total_nanos() == second.total_nanos(),
    ensures
        first == second,
{
}

#[verifier::external_type_specification]
#[verifier::external_body]
pub struct ExDelay(futures_timer::Delay);

/// A running timer.
///
/// Whether it has run out only the executor that polls it can tell; what it was last set to is
/// kept beside it.
pub struct Timer {
    /// The timer itself, which is polled outside.
    pub delay: futures_timer::Delay,
    set_to: Duration,
}

impl Timer {
    /// How long the timer was last set to run.
    pub closed spec fn set_to(&self) -> Duration {
        self.set_to
    }

    /// Whether the timer itself was last set to that.
    pub closed spec fn is_set(&self) -> bool {
        let (secs, nanos) = (self.set_to.secs(), self.set_to.nanos());
        ||| call_ensures(start_delay, (secs, nanos), self.delay)
        ||| exists|before: futures_timer::Delay| #[trigger]
            call_ensures(restart_delay, (before, secs, nanos), self.delay)
    }

    /// Whether the timer was set to run out at once.
    pub open spec fn runs_out_at_once(&self) -> bool {
        self.set_to().total_nanos() == 0 && self.is_set()
    }

    /// A timer that runs out at once.
    pub fn new() -> (timer: Timer)
        ensures
            timer.runs_out_at_once(),
    {
        let span: Duration = Duration::from_millis(0);
        let delay = start_delay(span.as_secs(), span.subsec_nanos());
        Timer { delay, set_to: span }
    }

    /// The timer, once it is set to run for `span` from now on.
    pub fn reset(self, span: Duration) -> (timer: Timer)
        ensures
            timer.set_to() == span,
            timer.is_set(),
    {
        let delay = restart_delay(self.delay, span.as_secs(), span.subsec_nanos());
        Timer { delay, set_to: span }
    }
}

/// `futures_timer::Delay::new`: a timer that runs out after the given seconds and nanoseconds.
///
/// When it runs out depends on the clock, so nothing is claimed of the timer.
#[verifier::external_body]
fn start_delay(secs: u64, nanos: u32) -> (delay: futures_timer::Delay)
    requires
        nanos < NANOS_PER_SEC,
{
    futures_timer::Delay::new(std::time::Duration::new(secs, nanos))
}

/// `futures_timer::Delay::reset`: the timer runs out after the given seconds and nanoseconds from
/// now.
///
/// When it runs out depends on the clock, so nothing is claimed of the timer.
#[verifier::external_body]
fn restart_delay(delay: futures_timer::Delay, secs: u64, nanos: u32) -> (restarted:
    futures_timer::Delay)
    requires
        nanos < NANOS_PER_SEC,
{
    let mut delay = delay;
    delay.reset(std::time::Duration::new(secs, nanos));
    delay
}

} // verus!
