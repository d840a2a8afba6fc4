//! Error types surfaced by the timer primitives.

use vstd::prelude::*;

verus! {

/// Error returned by a [`Timeout`](crate::Timeout) whose deadline elapsed
/// before the wrapped operation completed.
#[derive(Debug, Clone, Copy, PartialEq, Eq, Structural)]
pub struct Elapsed {}

impl Elapsed {
    /// Creates a new `Elapsed` error value.
    pub fn new() -> (e: Elapsed)
        ensures
            e == (Elapsed {}),
    {
        Elapsed {}
    }

    /// A human-readable description of the error.
    pub fn message(&self) -> (m: &'static str)
        ensures
            m@ == "timer elapsed"@,
    {
        "timer elapsed"
    }
}

} // verus!
