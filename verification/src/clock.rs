//! Monotonic time for the stores.
//!
//! Every store owns a [`Clock`] and decides expiry from the readings it hands
//! out, never from an ambient system call in the middle of an operation. A
//! clock is either caller-driven (`manual`), which moves only when `advance`
//! is called and makes expiry behaviour fully deterministic, or backed by the
//! process monotonic clock (`system`). In both forms a reading never
//! decreases over the clock's lifetime.

use vstd::prelude::*;

verus! {

#[verifier::external_type_specification]
#[verifier::external_body]
pub struct ExInstant(std::time::Instant);

/// Relies on `std::time::Instant::now`: an opaque anchor point on the
/// process monotonic clock.
#[verifier::external_body]
fn instant_now() -> std::time::Instant {
    std::time::Instant::now()
}

/// Relies on `std::time::Instant::elapsed` and `Duration::as_millis`: whole
/// milliseconds since `start`. Nothing is assumed of the value; the verified
/// caller enforces monotonicity itself.
#[verifier::external_body]
fn millis_since(start: &std::time::Instant) -> u64 {
    start.elapsed().as_millis() as u64
}

enum ClockSource {
    Manual,
    System(std::time::Instant),
}

/// A monotonic millisecond counter. The view of a clock is its latest
/// reading; `now` never returns less than a reading it returned before.
pub struct Clock {
    source: ClockSource,
    now_ms: u64,
}

impl View for Clock {
    type V = u64;

    closed spec fn view(&self) -> u64 {
        self.now_ms
    }
}

impl Clock {
    /// Whether the clock is caller-driven. Readings of a manual clock move
    /// only when `advance` is called, so they are fully deterministic.
    pub closed spec fn is_manual(&self) -> bool {
        self.source is Manual
    }

    /// A caller-driven clock: it reads `start_ms` until `advance` moves it.
    pub fn manual(start_ms: u64) -> (c: Clock)
        ensures
            c@ == start_ms,
            c.is_manual(),
    {
        Clock { source: ClockSource::Manual, now_ms: start_ms }
    }

    /// A clock that follows the process monotonic clock, starting at zero.
    pub fn system() -> (c: Clock)
        ensures
            c@ == 0,
            !c.is_manual(),
    {
        Clock { source: ClockSource::System(instant_now()), now_ms: 0 }
    }

    /// Move the clock forward by `ms` milliseconds.
    pub fn advance(&mut self, ms: u64)
        requires
            old(self)@ + ms <= u64::MAX,
        ensures
            final(self)@ == old(self)@ + ms,
            final(self).is_manual() == old(self).is_manual(),
    {
        self.now_ms = self.now_ms + ms;
    }

    /// The current reading. A system clock folds in a fresh sample here, so
    /// two readings taken in order never decrease.
    pub fn now(&mut self) -> (t: u64)
        ensures
            t == final(self)@,
            old(self)@ <= final(self)@,
            final(self).is_manual() == old(self).is_manual(),
            old(self).is_manual() ==> final(self)@ == old(self)@,
    {
        match &self.source {
            ClockSource::Manual => {},
            ClockSource::System(origin) => {
                let sample = millis_since(origin);
                if sample > self.now_ms {
                    self.now_ms = sample;
                }
            },
        }
        self.now_ms
    }
}

} // verus!
