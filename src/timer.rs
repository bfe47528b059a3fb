//! Countdown timers measured in whole milliseconds.
use vstd::prelude::*;

verus! {

/// A timer that fires once when `elapsed` reaches `duration`, or, when
/// `repeating`, every time it does and then starts over with the remainder.
#[derive(Clone, Copy, Debug, PartialEq, Eq, Structural)]
pub struct Timer {
    pub duration: u64,
    pub elapsed: u64,
    pub repeating: bool,
    /// A one-shot timer that has fired stays finished.
    pub done: bool,
}

/// The timer after `delta` milliseconds, and whether it fired.
pub open spec fn ticked(t: Timer, delta: u64) -> (Timer, bool) {
    if t.repeating {
        let total = t.elapsed + delta;
        if total >= t.duration {
            (Timer { elapsed: (total % (t.duration as int)) as u64, ..t }, true)
        } else {
            (Timer { elapsed: total as u64, ..t }, false)
        }
    } else if t.done {
        (t, false)
    } else if t.elapsed + delta >= t.duration {
        (Timer { elapsed: t.duration, done: true, ..t }, true)
    } else {
        (Timer { elapsed: (t.elapsed + delta) as u64, ..t }, false)
    }
}

impl Timer {
    /// A repeating timer has a positive period and is inside it; a one-shot
    /// timer has not run past its duration.
    pub open spec fn wf(self) -> bool {
        if self.repeating {
            self.duration > 0 && self.elapsed < self.duration && !self.done
        } else {
            self.elapsed <= self.duration
        }
    }

    /// A one-shot timer of `duration` milliseconds, not yet started.
    pub fn once(duration: u64) -> (r: Timer)
        ensures
            r == (Timer { duration, elapsed: 0, repeating: false, done: false }),
            r.wf(),
    {
        Timer { duration, elapsed: 0, repeating: false, done: false }
    }

    /// A timer that fires every `period` milliseconds.
    pub fn repeating(period: u64) -> (r: Timer)
        requires
            period > 0,
        ensures
            r == (Timer { duration: period, elapsed: 0, repeating: true, done: false }),
            r.wf(),
    {
        Timer { duration: period, elapsed: 0, repeating: true, done: false }
    }

    /// Advances the timer by `delta` milliseconds; true when it fired.
    pub fn tick(&mut self, delta: u64) -> (fired: bool)
        requires
            old(self).wf(),
        ensures
            (*final(self), fired) == ticked(*old(self), delta),
            final(self).wf(),
    {
        if self.repeating {
            let total: u128 = self.elapsed as u128 + delta as u128;
            if total >= self.duration as u128 {
                self.elapsed = (total % (self.duration as u128)) as u64;
                true
            } else {
                self.elapsed = total as u64;
                false
            }
        } else if self.done {
            false
        } else if delta >= self.duration - self.elapsed {
            self.elapsed = self.duration;
            self.done = true;
            true
        } else {
            self.elapsed = self.elapsed + delta;
            false
        }
    }
}

} // verus!
