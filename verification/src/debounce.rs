//! Per-rule debounce timers.
//!
//! A timer is `Stopped` (`start` is `None`) or `Running` since some instant.
//! Instants are milliseconds on the caller's monotonic clock, handed in as
//! `now`. The window is anchored: a qualifying event starts a stopped timer
//! and leaves a running one untouched, so a burst fires once, a bounded delay
//! after its first event.

use vstd::prelude::*;

verus! {

/// The fallback debounce window, in milliseconds.
pub fn default_debounce_ms() -> (r: u64)
    ensures
        r == 50,
{
    50
}

/// One rule's debounce timer: a start instant while running, and the length
/// of the quiescence window.
#[derive(Clone, Copy)]
pub struct DebounceTimer {
    /// The instant the window was anchored at; `None` while stopped.
    pub start: Option<u64>,
    /// The debounce window, in milliseconds.
    pub duration: u64,
}

impl DebounceTimer {
    /// The timer's start, if any, does not lie in the future of `now`.
    pub open spec fn started_by(&self, now: u64) -> bool {
        self.start matches Some(s) ==> s <= now
    }

    /// Milliseconds left until the deadline; zero once it has been reached,
    /// and zero for a stopped timer.
    pub open spec fn spec_remaining(&self, now: u64) -> int {
        match self.start {
            Some(s) => if now - s >= self.duration {
                0
            } else {
                self.duration - (now - s)
            },
            None => 0,
        }
    }

    /// The deadline has been reached or passed: the whole window has
    /// elapsed since the start.
    pub open spec fn spec_expired(&self, now: u64) -> bool {
        self.start matches Some(s) && now >= s + self.duration
    }

    /// Creates a stopped timer with the given window.
    pub fn new(duration: u64) -> (r: DebounceTimer)
        ensures
            r.start is None,
            r.duration == duration,
    {
        DebounceTimer { start: None, duration }
    }

    /// The time left before the deadline; `None` while stopped.
    pub fn calculate_timeout(&self, now: u64) -> (r: Option<u64>)
        requires
            self.started_by(now),
        ensures
            r is Some <==> self.start is Some,
            r matches Some(t) ==> t == self.spec_remaining(now),
    {
        match self.start {
            None => None,
            Some(s) => {
                let elapsed = now - s;
                if elapsed >= self.duration {
                    Some(0)
                } else {
                    Some(self.duration - elapsed)
                }
            },
        }
    }

    /// Whether the deadline has been reached or passed.
    pub fn expired(&self, now: u64) -> (r: bool)
        requires
            self.started_by(now),
        ensures
            r == self.spec_expired(now),
    {
        match self.start {
            None => false,
            Some(s) => now - s >= self.duration,
        }
    }

    /// Stops the timer; the window is kept.
    pub fn stop(&mut self)
        ensures
            final(self).start is None,
            final(self).duration == old(self).duration,
    {
        self.start = None;
    }

    /// Anchors the window at `now` if the timer is stopped; a running timer
    /// is left anchored at its first event.
    pub fn start_if_stopped(&mut self, now: u64)
        ensures
            final(self).duration == old(self).duration,
            final(self).start == (if old(self).start is None {
                Some(now)
            } else {
                old(self).start
            }),
    {
        if self.start.is_none() {
            self.start = Some(now);
        }
    }
}

/// The timers of all rules, in rule declaration order.
pub struct DebounceTimerSet {
    /// One timer per rule.
    pub timers: Vec<DebounceTimer>,
}

impl DebounceTimerSet {
    /// No timer started in the future of `now`.
    pub open spec fn all_started_by(&self, now: u64) -> bool {
        forall|i: int|
            0 <= i < self.timers@.len() ==> (#[trigger] self.timers@[i]).started_by(now)
    }

    /// Some timer is running.
    pub open spec fn any_running(&self) -> bool {
        exists|i: int| 0 <= i < self.timers@.len() && (#[trigger] self.timers@[i]).start is Some
    }

    /// The least remaining time over all running timers, the time to wait
    /// before the next deadline; `None` when every timer is stopped, meaning
    /// wait without a deadline.
    pub fn calculate_timeout(&self, now: u64) -> (r: Option<u64>)
        requires
            self.all_started_by(now),
        ensures
            r is Some <==> self.any_running(),
            r matches Some(t) ==> (exists|i: int|
                0 <= i < self.timers@.len() && (#[trigger] self.timers@[i]).start is Some
                    && self.timers@[i].spec_remaining(now) == t),
            r matches Some(t) ==> (forall|i: int|
                0 <= i < self.timers@.len() && (#[trigger] self.timers@[i]).start is Some
                    ==> self.timers@[i].spec_remaining(now) >= t),
    {
        let mut best: Option<u64> = None;
        let mut i: usize = 0;
        while i < self.timers.len()
            invariant
                i <= self.timers@.len(),
                self.all_started_by(now),
                best is Some <==> (exists|j: int|
                    0 <= j < i && (#[trigger] self.timers@[j]).start is Some),
                best matches Some(b) ==> (exists|j: int|
                    0 <= j < i && (#[trigger] self.timers@[j]).start is Some
                        && self.timers@[j].spec_remaining(now) == b),
                best matches Some(b) ==> (forall|j: int|
                    0 <= j < i && (#[trigger] self.timers@[j]).start is Some
                        ==> self.timers@[j].spec_remaining(now) >= b),
            decreases self.timers@.len() - i,
        {
            match self.timers[i].calculate_timeout(now) {
                Some(t) => {
                    match best {
                        Some(b) => {
                            if t < b {
                                best = Some(t);
                            }
                        },
                        None => {
                            best = Some(t);
                        },
                    }
                },
                None => {},
            }
            i += 1;
        }
        best
    }
}

} // verus!
