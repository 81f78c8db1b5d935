//! Snapshot of a channel's head and tail sequence numbers.

use vstd::prelude::*;

verus! {

use vstd::wrapping::usize_specs;

/// A pair of cursor values read from a channel at one instant.
///
/// Sequence numbers are unbounded counters truncated to a machine word; they
/// wrap at the integer width, not at the ring capacity, so the number of
/// items between them is their wrapping difference.
#[derive(Clone, Copy)]
pub struct Cursors {
    pub head: usize,
    pub tail: usize,
}

impl Cursors {
    /// Number of items in `[head, tail)`.
    pub fn remaining(&self) -> (n: usize)
        ensures
            n == usize_specs::wrapping_sub(self.tail, self.head),
    {
        self.tail.wrapping_sub(self.head)
    }

    /// True if `head == tail` (no items).
    pub fn is_empty(&self) -> (b: bool)
        ensures
            b == (self.head == self.tail),
    {
        self.head == self.tail
    }

    /// Clamps the snapshot so it spans at most `max` items: counts are
    /// compared, not raw sequence numbers, so wraparound is immaterial.
    pub fn clamp(self, max: usize) -> (c: Cursors)
        ensures
            c.head == self.head,
            usize_specs::wrapping_sub(c.tail, c.head) == if max
                < usize_specs::wrapping_sub(self.tail, self.head) {
                max
            } else {
                usize_specs::wrapping_sub(self.tail, self.head)
            },
    {
        let available = self.remaining();
        if max < available {
            Cursors { head: self.head, tail: self.head.wrapping_add(max) }
        } else {
            self
        }
    }
}

} // verus!
