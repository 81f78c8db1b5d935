//! Error values reported by the channel operations.

use vstd::prelude::*;

verus! {

/// Why a send attempt did not enqueue its value.  Both variants hand the
/// value back to the caller, so nothing is silently lost.
#[derive(Debug)]
pub enum TrySendErr<T> {
    /// The ring is at capacity; transient, retryable once the consumer
    /// frees a slot.
    Full(T),
    /// The receiving half is gone; terminal.
    Disconnected(T),
}

/// Why a receive attempt did not yield a value.
#[derive(Debug, PartialEq, Eq, Structural)]
pub enum TryRecvError {
    /// No data is buffered yet; transient.
    Empty,
    /// The sending half is gone and every buffered value has already been
    /// delivered; terminal.
    Disconnected,
}

} // verus!
