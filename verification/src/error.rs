//! What the channels answer when they have no value to give or nobody to give it to.
use vstd::prelude::*;

verus! {

/// The value could not be sent because no receiver is left; it is handed back.
#[derive(Debug)]
pub struct SendError<T>(pub T);

/// No sender is left and no value is waiting.
#[derive(Debug, Clone, Copy, PartialEq, Eq, Structural)]
pub struct RecvError;

/// Why a receive that does not block returned no value.
#[derive(Debug, Clone, Copy, PartialEq, Eq, Structural)]
pub enum TryRecvError {
    /// No value is waiting, but a sender is left.
    Empty,
    /// No sender is left and no value is waiting.
    Disconnected,
}

/// Why a receive with a time limit returned no value.
#[derive(Debug, Clone, Copy, PartialEq, Eq, Structural)]
pub enum RecvTimeoutError {
    /// The time limit was reached before a value arrived.
    Timeout,
    /// No sender is left and no value is waiting.
    Disconnected,
}

} // verus!
