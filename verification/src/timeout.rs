//! A race combinator: an operation against a deadline.

use vstd::prelude::*;

use crate::error::Elapsed;
use crate::sleep::Sleep;

verus! {

/// Creates a new [`Timeout`] whose deadline is `duration` ticks after `now`.
pub fn timeout(now: u64, duration: u64) -> (t: Timeout)
    requires
        now + duration <= u64::MAX,
    ensures
        t.spec_deadline() == now + duration,
{
    Timeout::new(now, duration)
}

/// Creates a new [`Timeout`] with an absolute deadline.
pub fn timeout_at(deadline: u64) -> (t: Timeout)
    ensures
        t.spec_deadline() == deadline,
{
    Timeout::new_at(deadline)
}

/// The decision core of a timeout race.
///
/// The caller drives the wrapped operation itself and reports on each poll
/// whether the operation has completed; the `Timeout` decides the outcome.
/// Completion of the operation always wins a tie against the deadline: the
/// deadline is not even consulted when a completion is reported.
///
/// This combinator cannot guard against a wrapped operation that never yields
/// control back to the caller; that is a documented limitation, not a defect.
#[derive(Debug, Clone, Copy)]
pub struct Timeout {
    delay: Sleep,
}

impl Timeout {
    /// The deadline, for use in contracts.
    pub closed spec fn spec_deadline(&self) -> u64 {
        self.delay.spec_deadline()
    }

    /// Creates a new `Timeout` whose deadline is `duration` ticks after `now`.
    pub fn new(now: u64, duration: u64) -> (t: Timeout)
        requires
            now + duration <= u64::MAX,
        ensures
            t.spec_deadline() == now + duration,
    {
        Timeout { delay: Sleep::new(now, duration) }
    }

    /// Creates a new `Timeout` with an absolute deadline.
    pub fn new_at(deadline: u64) -> (t: Timeout)
        ensures
            t.spec_deadline() == deadline,
    {
        Timeout { delay: Sleep::new_until(deadline) }
    }

    /// Polls the race at tick `now`.
    ///
    /// `completion` reports the wrapped operation's result if it completed
    /// during this poll. A reported completion is returned as success without
    /// consulting the deadline; otherwise the deadline decides between a
    /// timeout failure and staying pending (`None`).
    pub fn poll<V>(&self, now: u64, completion: Option<V>) -> (r: Option<Result<V, Elapsed>>)
        ensures
            match completion {
                Some(v) => r == Some(Ok::<V, Elapsed>(v)),
                None => {
                    &&& now >= self.spec_deadline() ==> r == Some(
                        Err::<V, Elapsed>(Elapsed {}),
                    )
                    &&& now < self.spec_deadline() ==> r == None::<Result<V, Elapsed>>
                },
            },
    {
        match completion {
            Some(v) => Some(Ok(v)),
            None => {
                if self.delay.poll(now) {
                    Some(Err(Elapsed::new()))
                } else {
                    None
                }
            },
        }
    }
}

} // verus!
