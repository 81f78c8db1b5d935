//! A ring slot with a per-slot sequence stamp, for Vyukov-style
//! synchronization: producer and consumer decide whether this one slot is
//! writable or readable from its stamp alone, never from the peer's cursor.

use vstd::prelude::*;

verus! {

use crate::ring::Storable;

/// A slot in the ring buffer with its own sequence stamp.
///
/// Stamp protocol, for a ring of capacity `N`:
/// - initial: the slot's own index (`0, 1, ..., N-1`);
/// - after the producer writes at sequence `tail`: `tail + 1`
///   ("data ready for the reader");
/// - after the consumer reads at sequence `head`: `head + N`
///   ("writable again on the next lap").
///
/// Like the cursors, stamps wrap at the integer width.
pub struct Slot<T> {
    stamp: usize,
    value: Option<T>,
}

impl<T> Slot<T> {
    /// The slot's current sequence stamp.
    pub closed spec fn stamp(&self) -> usize {
        self.stamp
    }

    /// The value the slot currently holds, if any.
    pub closed spec fn value(&self) -> Option<T> {
        self.value
    }

    /// Creates an empty slot with the given initial stamp (typically the
    /// slot's index).
    pub fn new(stamp: usize) -> (slot: Self)
        ensures
            slot.stamp() == stamp,
            slot.value() is None,
    {
        Slot { stamp, value: None }
    }

    /// Reads the slot's stamp.
    pub fn load_stamp(&self) -> (stamp: usize)
        ensures
            stamp == self.stamp(),
    {
        self.stamp
    }

    /// Replaces the slot's stamp, leaving the value untouched.
    pub fn store_stamp(&mut self, stamp: usize)
        ensures
            final(self).stamp() == stamp,
            final(self).value() == old(self).value(),
    {
        self.stamp = stamp;
    }

    /// Stores a value; the slot must be observably empty.
    pub fn put(&mut self, value: T)
        requires
            old(self).value() is None,
        ensures
            final(self).value() == Some(value),
            final(self).stamp() == old(self).stamp(),
    {
        self.value = Some(value);
    }

    /// Moves the value out of the slot.
    pub fn take(&mut self) -> (value: T)
        requires
            old(self).value() is Some,
        ensures
            Some(value) == old(self).value(),
            final(self).value() is None,
            final(self).stamp() == old(self).stamp(),
    {
        self.value.take().unwrap()
    }
}

impl<T> Storable for Slot<T> {
    type Item = T;

    closed spec fn stored(&self) -> Option<T> {
        self.value
    }

    fn write(&mut self, value: T) {
        self.put(value);
    }

    fn read(&mut self) -> (value: T) {
        self.take()
    }

    fn drop_in_place(&mut self) {
        let _ = self.take();
    }
}

} // verus!
