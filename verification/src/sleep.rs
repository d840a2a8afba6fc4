//! A single-shot deadline: the simplest timer primitive.

use vstd::prelude::*;

verus! {

/// Creates a new [`Sleep`] that completes `duration` ticks after `now`.
pub fn sleep(now: u64, duration: u64) -> (s: Sleep)
    requires
        now + duration <= u64::MAX,
    ensures
        s.spec_deadline() == now + duration,
{
    Sleep::new(now, duration)
}

/// Creates a new [`Sleep`] that completes at the absolute tick `deadline`.
pub fn sleep_until(deadline: u64) -> (s: Sleep)
    ensures
        s.spec_deadline() == deadline,
{
    Sleep::new_until(deadline)
}

/// A deadline that elapses once the observed tick reaches it.
///
/// The caller polls it with the current tick; an async adapter arms its real
/// suspend-until-deadline handle to [`Sleep::deadline`] and polls again on
/// wake-up.
#[derive(Debug, Clone, Copy)]
pub struct Sleep {
    deadline: u64,
}

impl Sleep {
    /// The deadline, for use in contracts.
    pub closed spec fn spec_deadline(&self) -> u64 {
        self.deadline
    }

    /// Creates a new `Sleep` that completes `duration` ticks after `now`.
    pub fn new(now: u64, duration: u64) -> (s: Sleep)
        requires
            now + duration <= u64::MAX,
        ensures
            s.spec_deadline() == now + duration,
    {
        Sleep { deadline: now + duration }
    }

    /// Creates a new `Sleep` that completes at the absolute tick `deadline`.
    pub fn new_until(deadline: u64) -> (s: Sleep)
        ensures
            s.spec_deadline() == deadline,
    {
        Sleep { deadline }
    }

    /// Resets the `Sleep` to a new deadline, whether or not the old one has
    /// already elapsed.
    pub fn reset(&mut self, deadline: u64)
        ensures
            final(self).spec_deadline() == deadline,
    {
        self.deadline = deadline;
    }

    /// Gets the deadline.
    pub fn deadline(&self) -> (d: u64)
        ensures
            d == self.spec_deadline(),
    {
        self.deadline
    }

    /// Polls the deadline against the current tick: `true` exactly when the
    /// deadline has passed or is passing now.
    pub fn poll(&self, now: u64) -> (elapsed: bool)
        ensures
            elapsed == (now >= self.spec_deadline()),
    {
        now >= self.deadline
    }
}

} // verus!
