//! Time and timers, as the engine consumes them.
//!
//! Time is a count of milliseconds on a monotonic clock that the host owns. A timer is a
//! request to be called back at or after an instant. It carries no code, only a description
//! of what it was set for: when it fires, the host hands the description back and the engine
//! decides, from its state at that moment, whether the timer still applies.

use vstd::prelude::*;
use crate::header::Endpoint;

verus! {

/// Tells the state that receives a timer whether it set the timer itself or whether one of
/// the connections it holds for a later `accept` did.
#[derive(Copy, Clone, Debug, PartialEq, Eq, Structural)]
pub enum TimerRegisteredBy {
    Parent,
    Child,
}

/// What a timer was set for.
#[derive(Copy, Clone, Debug, PartialEq, Eq, Structural)]
pub enum TimerKind {
    /// The oldest segment in flight has waited one retransmission timeout.
    Retransmit,
    /// Received data has waited for an acknowledgment as long as it may.
    DelayedAck,
    /// The quiet time after the last acknowledgment of a closing connection is over.
    TimeWait,
    /// A reset has been sent and the connection is to be put away.
    Reset,
}

/// A timer request: what it is for, the instant it was set for, and the connection that set
/// it.
#[derive(Copy, Clone, Debug, PartialEq, Eq, Structural)]
pub struct Timer {
    pub kind: TimerKind,
    pub at: u64,
    pub local: Endpoint,
    pub remote: Endpoint,
}

/// What the engine needs from the system around it.
pub trait Dependencies: Sized {
    /// Asks to have `timer` handed to `TcpState::on_timer` at `time` or later. Timers set for
    /// the same instant are to fire in the order in which they were registered.
    ///
    /// A timer that a child state registers through a forked object is to be handed to the
    /// listening state that holds the child, with `TimerRegisteredBy::Child`.
    fn register_timer(&self, time: u64, timer: Timer);

    /// The current time in milliseconds. It never goes back.
    fn current_time(&self) -> u64;

    /// A new object for a child state. Once the child has been accepted, `finalize` lets the
    /// caller point this object, and the timers already registered through it, at the child
    /// itself.
    fn fork(&self) -> Self;
}

} // verus!
