//! Bounded single-producer/single-consumer channels over a fixed-capacity
//! ring buffer, with two slot-publication protocols: a shared-cursor
//! ("Lamport style") channel and a per-slot-stamp ("Vyukov style") channel.
//!
//! The channel state machine is fully specified and verified here: ring
//! indexing by power-of-two capacity, cursor wraparound at the integer
//! width, full/empty detection, batched draining with deferred or per-slot
//! commit, close-on-drop signalling, the waker bridge for a poll-based
//! asynchronous surface, and the accounting that identifies which ring
//! slots still hold live, never-consumed values when a channel is torn
//! down.

pub mod cursors;
pub mod error;
pub mod lamport;
pub mod laws;
pub mod ring;
pub mod slot;
pub mod vyukov;
pub mod wakers;
