//! A timer toolkit that is generic over the underlying timer implementation.
//!
//! Time is modelled as a `u64` tick count. Every primitive here is an explicit
//! poll-based state machine: the caller (typically an async adapter that owns a
//! real clock and a real suspend-until-deadline handle) passes the current tick
//! on each poll and performs the actual waiting.
//!
//! The toolkit provides:
//!
//! 1. `sleep()`/`Sleep`: a single-shot deadline.
//! 2. `timeout()`/`Timeout`: a race between an operation and a deadline.
//! 3. `interval()`/`Interval`: a periodic tick source with configurable
//!    missed-tick catch-up policies.
//! 4. `DelayQueue`: a many-timer scheduler backed by a hierarchical timing
//!    wheel, yielding expired entries in deadline order.

pub mod delay_queue;
pub mod error;
pub mod laws;
pub mod interval;
pub mod sleep;
pub mod timeout;
pub mod wheel;

pub use delay_queue::DelayQueue;
pub use delay_queue::Expired;
pub use delay_queue::Key;
pub use delay_queue::QueuePoll;
pub use error::Elapsed;
pub use interval::interval;
pub use interval::interval_at;
pub use interval::Interval;
pub use interval::MissedTickBehavior;
pub use sleep::sleep;
pub use sleep::sleep_until;
pub use sleep::Sleep;
pub use timeout::timeout;
pub use timeout::timeout_at;
pub use timeout::Timeout;
