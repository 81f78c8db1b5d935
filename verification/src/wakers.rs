//! The waker bridge: maps "buffer not full" / "buffer not empty" transitions
//! to registered continuation callbacks, so a poll-based asynchronous
//! surface can sit on top of the non-blocking operations without changing
//! the underlying protocol.
//!
//! A callback is modelled as an opaque token; the embedding runtime maps a
//! token handed back by an operation to the actual scheduler wake-up.  Each
//! side holds at most one pending callback, last-registered-wins.

use vstd::prelude::*;

verus! {

/// At most one pending wake callback per side.
pub struct Wakers {
    sender: Option<u64>,
    receiver: Option<u64>,
}

impl Wakers {
    /// The producer-side callback pending, if any.
    pub closed spec fn sender(&self) -> Option<u64> {
        self.sender
    }

    /// The consumer-side callback pending, if any.
    pub closed spec fn receiver(&self) -> Option<u64> {
        self.receiver
    }

    /// No callbacks pending on either side.
    pub fn new() -> (w: Self)
        ensures
            w.sender() is None,
            w.receiver() is None,
    {
        Wakers { sender: None, receiver: None }
    }

    /// Registers the producer's callback; an earlier registration is
    /// superseded (last-registered-wins).
    pub fn register_sender_waker(&mut self, waker: u64)
        ensures
            final(self).sender() == Some(waker),
            final(self).receiver() == old(self).receiver(),
    {
        self.sender = Some(waker);
    }

    /// Registers the consumer's callback; an earlier registration is
    /// superseded (last-registered-wins).
    pub fn register_receiver_waker(&mut self, waker: u64)
        ensures
            final(self).receiver() == Some(waker),
            final(self).sender() == old(self).sender(),
    {
        self.receiver = Some(waker);
    }

    /// Clears and hands back the producer's pending callback, for the
    /// caller to invoke.
    pub fn wake_sender(&mut self) -> (waker: Option<u64>)
        ensures
            waker == old(self).sender(),
            final(self).sender() is None,
            final(self).receiver() == old(self).receiver(),
    {
        self.sender.take()
    }

    /// Clears and hands back the consumer's pending callback, for the
    /// caller to invoke.
    pub fn wake_receiver(&mut self) -> (waker: Option<u64>)
        ensures
            waker == old(self).receiver(),
            final(self).receiver() is None,
            final(self).sender() == old(self).sender(),
    {
        self.receiver.take()
    }
}

/// Outcome of one non-blocking poll of the send side.
pub enum SendPoll<T> {
    /// The value was enqueued; `wake` is the consumer's pending callback,
    /// which the caller must now invoke.
    Sent { wake: Option<u64> },
    /// The peer is gone; the value comes back to the caller.
    Disconnected(T),
    /// The ring was full: the value comes back for a later poll, the
    /// caller's callback is now registered, and `self_wake` reports whether
    /// the post-registration re-check found space (in which case the caller
    /// must immediately re-invoke its own callback rather than wait).
    Pending { value: T, self_wake: bool },
}

/// Outcome of one non-blocking poll of the receive side.
pub enum RecvPoll<T> {
    /// A value was dequeued; `wake` is the producer's pending callback,
    /// which the caller must now invoke.
    Received { value: T, wake: Option<u64> },
    /// The peer is gone and nothing is buffered; terminal.
    Disconnected,
    /// No data: the caller's callback is now registered, and `self_wake`
    /// reports whether the post-registration re-check found data (in which
    /// case the caller must immediately re-invoke its own callback).
    Pending { self_wake: bool },
}

} // verus!
