//! Clocks: the trait the job host reads the time from, a hand-driven clock
//! for tests and a monotonic wall clock.

use vstd::prelude::*;

verus! {

/// A source of the current time in milliseconds.
pub trait Clock {
    /// Whether `t` is a time this clock may show when read. A clock that
    /// says nothing of its readings admits every time.
    open spec fn shows(&self, t: i64) -> bool {
        true
    }

    /// The current time in milliseconds.
    fn now_ms(&self) -> (r: i64)
        ensures
            self.shows(r),
    ;
}

/// A clock that only moves when told to.
#[derive(Debug, Default)]
pub struct ManualClock {
    now: i64,
}

impl ManualClock {
    /// A clock reading `now`.
    pub fn new(now: i64) -> (c: ManualClock)
        ensures
            c.reading() == now,
    {
        ManualClock { now }
    }

    /// The time the clock shows.
    pub closed spec fn reading(&self) -> i64 {
        self.now
    }

    /// Moves the clock forward (or back, for a negative `ms`).
    pub fn advance(&mut self, ms: i64)
        requires
            i64::MIN <= old(self).reading() + ms <= i64::MAX,
        ensures
            final(self).reading() == old(self).reading() + ms,
    {
        self.now = self.now + ms;
    }
}

impl Clock for ManualClock {
    /// A hand-driven clock shows exactly its reading.
    open spec fn shows(&self, t: i64) -> bool {
        t == self.reading()
    }

    fn now_ms(&self) -> (r: i64)
        ensures
            r == self.reading(),
    {
        self.now
    }
}

#[verifier::external_type_specification]
#[verifier::external_body]
pub struct ExInstant(std::time::Instant);

/// `Instant::now`: the current instant of the monotonic clock.
#[verifier::external_body]
fn instant_now() -> std::time::Instant {
    std::time::Instant::now()
}

/// `Instant::elapsed`: the time since `start`.
#[verifier::external_body]
fn instant_elapsed(start: &std::time::Instant) -> std::time::Duration {
    start.elapsed()
}

/// `Duration::as_millis`: the whole milliseconds of a duration.
#[verifier::external_body]
pub(crate) fn duration_millis(d: &std::time::Duration) -> u128 {
    d.as_millis()
}

/// `Duration::as_nanos`: the whole nanoseconds of a duration.
#[verifier::external_body]
pub(crate) fn duration_nanos(d: &std::time::Duration) -> u128 {
    d.as_nanos()
}

/// Milliseconds since the clock was made.
#[derive(Debug)]
pub struct MonotonicClock {
    start: std::time::Instant,
}

impl MonotonicClock {
    /// A clock starting now.
    pub fn new() -> MonotonicClock {
        MonotonicClock { start: instant_now() }
    }
}

impl Default for MonotonicClock {
    fn default() -> MonotonicClock {
        MonotonicClock::new()
    }
}

impl Clock for MonotonicClock {
    /// The wall clock may show any time: what it shows rests on the machine.
    open spec fn shows(&self, t: i64) -> bool {
        true
    }

    fn now_ms(&self) -> i64 {
        let d = instant_elapsed(&self.start);
        duration_millis(&d) as i64
    }
}

} // verus!
