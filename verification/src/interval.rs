//! A periodic tick source with configurable missed-tick catch-up policies.

use vstd::prelude::*;

use crate::sleep::Sleep;

verus! {

/// Ticks observed more than this many ticks after their deadline are treated
/// as missed and handed to the configured [`MissedTickBehavior`]. The value is
/// a jitter tolerance, tunable per [`Interval`] via
/// [`Interval::set_missed_tick_slack`].
pub const DEFAULT_TICK_SLACK: u64 = 5;

/// Creates a new [`Interval`] with the given period whose first tick completes
/// one period after `now`.
///
/// A zero period is a caller bug and is excluded by precondition.
pub fn interval(now: u64, period: u64) -> (i: Interval)
    requires
        1 <= period,
        now + period <= u64::MAX,
    ensures
        i.wf(),
        i.spec_deadline() == now + period,
        i.spec_period() == period,
        i.spec_behavior() == MissedTickBehavior::Burst,
        i.spec_slack() == DEFAULT_TICK_SLACK,
{
    Interval::new(now, period)
}

/// Creates a new [`Interval`] with the given period whose first tick completes
/// at `start`.
///
/// A zero period is a caller bug and is excluded by precondition.
pub fn interval_at(start: u64, period: u64) -> (i: Interval)
    requires
        1 <= period,
    ensures
        i.wf(),
        i.spec_deadline() == start,
        i.spec_period() == period,
        i.spec_behavior() == MissedTickBehavior::Burst,
        i.spec_slack() == DEFAULT_TICK_SLACK,
{
    Interval::new_at(start, period)
}

/// The policy applied when a tick is observed late: the caller failed to poll
/// for more than one period past a tick deadline (plus the slack tolerance).
#[derive(Debug, Clone, Copy, PartialEq, Eq, Structural)]
pub enum MissedTickBehavior {
    /// Ticks as fast as possible until caught up: each missed deadline still
    /// produces one immediately-ready tick.
    Burst,
    /// Ticks at multiples of the period from the time the late tick was
    /// observed, shifting the phase to the observation time.
    Delay,
    /// Skips missed ticks entirely and realigns to the next multiple of the
    /// period from the original phase.
    Skip,
}

/// The deadline that follows a tick observed at `now`, for a tick that was due
/// at `timeout`, under policy `behavior`.
pub open spec fn spec_next_timeout(
    behavior: MissedTickBehavior,
    timeout: u64,
    now: u64,
    period: u64,
) -> int
    recommends
        1 <= period,
        timeout <= now,
{
    match behavior {
        MissedTickBehavior::Burst => timeout + period,
        MissedTickBehavior::Delay => now + period,
        MissedTickBehavior::Skip => now + period - ((now - timeout) % (period as int)),
    }
}

impl MissedTickBehavior {
    /// Computes the deadline of the tick that follows a late tick: the tick
    /// was due at `timeout` but only observed at `now`.
    pub fn next_timeout(&self, timeout: u64, now: u64, period: u64) -> (t: u64)
        requires
            1 <= period,
            timeout <= now,
            now + period <= u64::MAX,
        ensures
            t == spec_next_timeout(*self, timeout, now, period),
    {
        match self {
            MissedTickBehavior::Burst => timeout + period,
            MissedTickBehavior::Delay => now + period,
            MissedTickBehavior::Skip => {
                let excess: u64 = (now - timeout) % period;
                now + period - excess
            },
        }
    }
}

impl Default for MissedTickBehavior {
    /// The default behavior is `Burst`.
    fn default() -> (b: Self)
        ensures
            b == MissedTickBehavior::Burst,
    {
        MissedTickBehavior::Burst
    }
}

/// A sequence of tick deadlines spaced one period apart.
///
/// Each poll at or past the current deadline yields a tick and advances the
/// deadline; how the next deadline is chosen after a late tick is governed by
/// the [`MissedTickBehavior`].
#[derive(Debug, Clone, Copy)]
pub struct Interval {
    delay: Sleep,
    missed_tick_behavior: MissedTickBehavior,
    period: u64,
    slack: u64,
}

impl Interval {
    /// The deadline of the next tick, for use in contracts.
    pub closed spec fn spec_deadline(&self) -> u64 {
        self.delay.spec_deadline()
    }

    /// The period, for use in contracts.
    pub closed spec fn spec_period(&self) -> u64 {
        self.period
    }

    /// The missed-tick policy, for use in contracts.
    pub closed spec fn spec_behavior(&self) -> MissedTickBehavior {
        self.missed_tick_behavior
    }

    /// The lateness tolerance, for use in contracts.
    pub closed spec fn spec_slack(&self) -> u64 {
        self.slack
    }

    /// An interval is well-formed exactly when its period is non-zero.
    pub open spec fn wf(&self) -> bool {
        1 <= self.spec_period()
    }

    /// The deadline that a tick polled at `now` leaves behind: one period past
    /// the previous deadline for a prompt tick, and whatever the configured
    /// policy dictates for a late one.
    pub open spec fn spec_tick_next(&self, now: u64) -> int
        recommends
            self.wf(),
            self.spec_deadline() <= now,
    {
        if now - self.spec_deadline() > self.spec_slack() {
            spec_next_timeout(self.spec_behavior(), self.spec_deadline(), now, self.spec_period())
        } else {
            self.spec_deadline() + self.spec_period()
        }
    }

    /// Creates a new `Interval` whose first tick completes one period after
    /// `now`. A zero period is a caller bug and is excluded by precondition.
    pub fn new(now: u64, period: u64) -> (i: Interval)
        requires
            1 <= period,
            now + period <= u64::MAX,
        ensures
            i.wf(),
            i.spec_deadline() == now + period,
            i.spec_period() == period,
            i.spec_behavior() == MissedTickBehavior::Burst,
            i.spec_slack() == DEFAULT_TICK_SLACK,
    {
        Interval {
            delay: Sleep::new(now, period),
            missed_tick_behavior: MissedTickBehavior::Burst,
            period,
            slack: DEFAULT_TICK_SLACK,
        }
    }

    /// Creates a new `Interval` whose first tick completes at `start`. A zero
    /// period is a caller bug and is excluded by precondition.
    pub fn new_at(start: u64, period: u64) -> (i: Interval)
        requires
            1 <= period,
        ensures
            i.wf(),
            i.spec_deadline() == start,
            i.spec_period() == period,
            i.spec_behavior() == MissedTickBehavior::Burst,
            i.spec_slack() == DEFAULT_TICK_SLACK,
    {
        Interval {
            delay: Sleep::new_until(start),
            missed_tick_behavior: MissedTickBehavior::Burst,
            period,
            slack: DEFAULT_TICK_SLACK,
        }
    }

    /// Returns the configured [`MissedTickBehavior`].
    pub fn missed_tick_behavior(&self) -> (b: MissedTickBehavior)
        ensures
            b == self.spec_behavior(),
    {
        self.missed_tick_behavior
    }

    /// Sets the [`MissedTickBehavior`] applied to late ticks.
    pub fn set_missed_tick_behavior(&mut self, behavior: MissedTickBehavior)
        ensures
            final(self).spec_behavior() == behavior,
            final(self).spec_deadline() == old(self).spec_deadline(),
            final(self).spec_period() == old(self).spec_period(),
            final(self).spec_slack() == old(self).spec_slack(),
    {
        self.missed_tick_behavior = behavior;
    }

    /// Returns the lateness tolerance in ticks.
    pub fn missed_tick_slack(&self) -> (s: u64)
        ensures
            s == self.spec_slack(),
    {
        self.slack
    }

    /// Sets the lateness tolerance in ticks.
    pub fn set_missed_tick_slack(&mut self, slack: u64)
        ensures
            final(self).spec_slack() == slack,
            final(self).spec_deadline() == old(self).spec_deadline(),
            final(self).spec_period() == old(self).spec_period(),
            final(self).spec_behavior() == old(self).spec_behavior(),
    {
        self.slack = slack;
    }

    /// Returns the period.
    pub fn period(&self) -> (p: u64)
        ensures
            p == self.spec_period(),
    {
        self.period
    }

    /// Returns the deadline of the next tick.
    pub fn deadline(&self) -> (d: u64)
        ensures
            d == self.spec_deadline(),
    {
        self.delay.deadline()
    }

    /// Polls for the next tick at tick `now`.
    ///
    /// Yields a tick exactly when the current deadline has been reached, and
    /// then advances the deadline: by one period for a prompt tick, or per the
    /// configured policy for a late one.
    pub fn poll_tick(&mut self, now: u64) -> (ticked: bool)
        requires
            old(self).wf(),
            now + old(self).spec_period() <= u64::MAX,
        ensures
            final(self).wf(),
            final(self).spec_period() == old(self).spec_period(),
            final(self).spec_behavior() == old(self).spec_behavior(),
            final(self).spec_slack() == old(self).spec_slack(),
            ticked == (now >= old(self).spec_deadline()),
            !ticked ==> final(self).spec_deadline() == old(self).spec_deadline(),
            ticked ==> final(self).spec_deadline() == old(self).spec_tick_next(now),
    {
        if now < self.delay.deadline() {
            return false;
        }
        let timeout: u64 = self.delay.deadline();
        let next: u64 = if now - timeout > self.slack {
            self.missed_tick_behavior.next_timeout(timeout, now, self.period)
        } else {
            timeout + self.period
        };
        self.delay.reset(next);
        true
    }

    /// Resets the interval so that the next tick completes one period after
    /// `now`, unconditionally ignoring the missed-tick policy.
    pub fn reset(&mut self, now: u64)
        requires
            old(self).wf(),
            now + old(self).spec_period() <= u64::MAX,
        ensures
            final(self).wf(),
            final(self).spec_deadline() == now + old(self).spec_period(),
            final(self).spec_period() == old(self).spec_period(),
            final(self).spec_behavior() == old(self).spec_behavior(),
            final(self).spec_slack() == old(self).spec_slack(),
    {
        let deadline: u64 = now + self.period;
        self.delay.reset(deadline);
    }
}

} // verus!
