//! The shared-cursor channel: one ring plus two monotonically increasing
//! cursors and a closed flag.
//!
//! The producer advances `tail`, the consumer advances `head`; fullness and
//! emptiness are derived from the cursor difference against the capacity.
//! Cursors are unbounded counters truncated to a machine word; only their
//! reduction modulo the capacity selects a physical slot.  The state machine
//! here carries the unbounded counters alongside the word-sized ones, and
//! every operation is proved against the queue of values between the
//! cursors.

use vstd::prelude::*;

verus! {

use vstd::arithmetic::power2::is_pow2;
use crate::cursors::Cursors;
use crate::error::{TryRecvError, TrySendErr};
use crate::ring::{RingBuffer, lemma_mod_mod_capacity, lemma_near_mod_distinct,
    lemma_pow2_capacity_positive, lemma_wrapped_add, lemma_wrapped_dist, lemma_wrapped_eq,
    wrap_modulus};
use crate::wakers::{RecvPoll, SendPoll, Wakers};

/// A bounded single-producer/single-consumer queue synchronized through two
/// shared cursors.
///
/// The queue's contents are its view: the values at sequence numbers
/// `[head, tail)`, oldest first.  Exactly the slots in that window hold
/// live values; everything outside it is empty, which is what makes
/// destruction of never-consumed values exact.
pub struct Channel<T> {
    ring: RingBuffer<Option<T>>,
    head: usize,
    tail: usize,
    closed: bool,
    wakers: Wakers,
    head_seq: Ghost<nat>,
    tail_seq: Ghost<nat>,
}

impl<T> Channel<T> {
    /// The fixed number of slots.
    pub closed spec fn capacity_spec(&self) -> nat {
        self.ring.capacity_spec()
    }

    /// The unbounded count of values ever consumed.
    pub closed spec fn head_seq(&self) -> nat {
        self.head_seq@
    }

    /// The unbounded count of values ever produced.
    pub closed spec fn tail_seq(&self) -> nat {
        self.tail_seq@
    }

    /// Whether either half has announced its departure.
    pub closed spec fn closed_spec(&self) -> bool {
        self.closed
    }

    /// The producer-side pending callback.
    pub closed spec fn sender_waker(&self) -> Option<u64> {
        self.wakers.sender()
    }

    /// The consumer-side pending callback.
    pub closed spec fn receiver_waker(&self) -> Option<u64> {
        self.wakers.receiver()
    }

    /// Sequence number `k` holds a queued value.
    pub open spec fn seq_in_window(&self, k: nat) -> bool {
        self.head_seq() <= k < self.tail_seq()
    }

    /// Slot `i` holds a live (produced, not yet consumed) value.
    pub open spec fn slot_live(&self, i: int) -> bool {
        exists|k: nat| self.seq_in_window(k) && #[trigger] (k % self.capacity_spec()) == i
    }

    #[verifier::opaque]
    spec fn slots_ok(&self) -> bool {
        forall|i: int|
            0 <= i < self.capacity_spec() ==> (#[trigger] self.ring.cells()[i] is Some
                <==> self.slot_live(i))
    }

    /// The state invariant: a power-of-two ring, word cursors that mirror
    /// the unbounded ones, a window of at most `capacity` values, and live
    /// values exactly in the window's slots.
    pub closed spec fn wf(&self) -> bool {
        &&& self.ring.wf()
        &&& self.capacity_spec() <= usize::MAX
        &&& self.head == self.head_seq@ % wrap_modulus()
        &&& self.tail == self.tail_seq@ % wrap_modulus()
        &&& self.head_seq@ <= self.tail_seq@
        &&& self.tail_seq@ - self.head_seq@ <= self.capacity_spec()
        &&& self.slots_ok()
    }
}

impl<T> View for Channel<T> {
    type V = Seq<T>;

    /// The queued values, oldest first.
    closed spec fn view(&self) -> Seq<T> {
        Seq::new(
            (self.tail_seq@ - self.head_seq@) as nat,
            |j: int| self.ring.cells()[(self.head_seq@ + j) % self.capacity_spec() as int].unwrap(),
        )
    }
}

impl<T> Channel<T> {
    /// Creates an empty, open channel with `capacity` slots.
    ///
    /// The capacity must be a positive power of two; that is a
    /// construction-time programming contract, not a runtime condition
    /// (`crate::ring::capacity_is_valid` decides it for a caller that only
    /// learns the capacity at runtime).
    pub fn new(capacity: usize) -> (ch: Self)
        requires
            is_pow2(capacity as int),
        ensures
            ch.wf(),
            ch@ == Seq::<T>::empty(),
            ch.capacity_spec() == capacity,
            !ch.closed_spec(),
            ch.sender_waker() is None,
            ch.receiver_waker() is None,
    {
        let mut cells: Vec<Option<T>> = Vec::new();
        let mut i: usize = 0;
        while i < capacity
            invariant
                i <= capacity,
                cells@.len() == i,
                forall|j: int| 0 <= j < i ==> cells@[j] is None,
            decreases capacity - i,
        {
            cells.push(None);
            i += 1;
        }
        let ring = RingBuffer::from_cells(cells);
        let ch = Channel {
            ring,
            head: 0,
            tail: 0,
            closed: false,
            wakers: Wakers::new(),
            head_seq: Ghost(0nat),
            tail_seq: Ghost(0nat),
        };
        proof {
            vstd::arithmetic::div_mod::lemma_small_mod(0nat, wrap_modulus());
            assert(ch.slots_ok()) by {
                reveal(Channel::slots_ok);
            }
            assert(ch@ =~= Seq::<T>::empty());
        }
        ch
    }

    /// The channel's fixed capacity.
    pub fn capacity(&self) -> (n: usize)
        ensures
            n == self.capacity_spec(),
    {
        self.ring.capacity()
    }

    /// Reads both cursors as one snapshot.
    fn snapshot(&self) -> (c: Cursors)
        requires
            self.wf(),
        ensures
            c.head == self.head_seq() % wrap_modulus(),
            c.tail == self.tail_seq() % wrap_modulus(),
    {
        Cursors { head: self.head, tail: self.tail }
    }

    /// The number of queued values.
    pub fn len(&self) -> (n: usize)
        requires
            self.wf(),
        ensures
            n == self@.len(),
    {
        let c = self.snapshot();
        proof {
            lemma_wrapped_dist(self.head_seq@, self.tail_seq@);
        }
        c.remaining()
    }

    /// True if no values are queued.
    pub fn is_empty(&self) -> (b: bool)
        requires
            self.wf(),
        ensures
            b == (self@.len() == 0),
    {
        let c = self.snapshot();
        proof {
            lemma_wrapped_eq(self.head_seq@, self.tail_seq@);
        }
        c.is_empty()
    }

    /// True if the other half has dropped.
    pub fn is_closed(&self) -> (b: bool)
        ensures
            b == self.closed_spec(),
    {
        self.closed
    }

    /// Enqueues `value` unless the channel is closed or full.
    ///
    /// Exactly one of three things happens: the peer is gone and the value
    /// comes back as `Disconnected`; the window already spans the whole
    /// capacity and the value comes back as `Full`; or the value is written
    /// into the slot at `tail` and `tail` advances.  Failure never disturbs
    /// the queue.
    pub fn try_send(&mut self, value: T) -> (r: Result<(), TrySendErr<T>>)
        requires
            old(self).wf(),
        ensures
            final(self).wf(),
            final(self).capacity_spec() == old(self).capacity_spec(),
            final(self).closed_spec() == old(self).closed_spec(),
            final(self).sender_waker() == old(self).sender_waker(),
            final(self).receiver_waker() == old(self).receiver_waker(),
            old(self).closed_spec() ==> r == Err::<(), TrySendErr<T>>(TrySendErr::Disconnected(value))
                && final(self)@ == old(self)@,
            !old(self).closed_spec() && old(self)@.len() == old(self).capacity_spec() ==> r == Err::<(), TrySendErr<T>>(TrySendErr::Full(value)) && final(self)@ == old(self)@,
            !old(self).closed_spec() && old(self)@.len() < old(self).capacity_spec() ==> r == Ok::<(), TrySendErr<T>>(())
                && final(self)@ == old(self)@.push(value),
    {
        if self.closed {
            return Err(TrySendErr::Disconnected(value));
        }
        let ghost gh = self.head_seq@;
        let ghost gt = self.tail_seq@;
        let ghost cap = self.capacity_spec();
        let c = self.snapshot();
        proof {
            lemma_wrapped_dist(gh, gt);
        }
        let n = c.remaining();
        let capacity = self.ring.capacity();
        if n == capacity {
            return Err(TrySendErr::Full(value));
        }
        // The window is shorter than the capacity, so the slot at `tail` is
        // outside it and therefore empty.
        let i = self.ring.index(self.tail);
        proof {
            lemma_mod_mod_capacity(gt, cap);
            assert(i == gt % cap);
            assert forall|k: nat| old(self).seq_in_window(k) implies #[trigger] (k % cap)
                != i as int by {
                lemma_near_mod_distinct(k, gt, cap);
            }
            assert(!old(self).slot_live(i as int));
            assert(old(self).ring.cells()[i as int] is None) by {
                reveal(Channel::slots_ok);
            }
        }
        self.ring.write_at(i, value);
        proof {
            lemma_wrapped_add(gt, 1);
        }
        self.tail = self.tail.wrapping_add(1);
        self.tail_seq = Ghost(gt + 1);
        proof {
            lemma_pow2_capacity_positive(cap);
            assert(self.slots_ok()) by {
                reveal(Channel::slots_ok);
                assert forall|i2: int|
                    0 <= i2 < cap implies (#[trigger] self.ring.cells()[i2] is Some
                    <==> self.slot_live(i2)) by {
                    if i2 == i as int {
                        assert(self.seq_in_window(gt));
                        assert(gt % cap == i2);
                        assert(self.slot_live(i2));
                    } else {
                        if self.slot_live(i2) {
                            let k = choose|k: nat|
                                self.seq_in_window(k) && #[trigger] (k % cap) == i2;
                            assert(k != gt);
                            assert(old(self).seq_in_window(k));
                            assert(old(self).slot_live(i2));
                        }
                        if old(self).ring.cells()[i2] is Some {
                            let k = choose|k: nat|
                                old(self).seq_in_window(k) && #[trigger] (k % cap) == i2;
                            assert(self.seq_in_window(k));
                            assert(self.slot_live(i2));
                        }
                    }
                }
            }
            assert(self@ =~= old(self)@.push(value)) by {
                assert forall|j: int| 0 <= j < self@.len() implies self@[j] == old(self)@.push(
                    value,
                )[j] by {
                    if j < old(self)@.len() {
                        lemma_near_mod_distinct((gh + j) as nat, gt, cap);
                        assert((gh + j) % cap as int != i as int);
                    } else {
                        assert((gh + j) % cap as int == gt as int % cap as int);
                    }
                }
            }
        }
        Ok(())
    }

    /// Dequeues the oldest value if one is buffered.
    ///
    /// A buffered value is always delivered, even after the peer has
    /// dropped; only an empty channel reports `Disconnected` (when closed)
    /// or `Ok(None)` (when still open), so nothing published before a drop
    /// is ever lost.
    pub fn try_recv(&mut self) -> (r: Result<Option<T>, TryRecvError>)
        requires
            old(self).wf(),
        ensures
            final(self).wf(),
            final(self).capacity_spec() == old(self).capacity_spec(),
            final(self).closed_spec() == old(self).closed_spec(),
            final(self).sender_waker() == old(self).sender_waker(),
            final(self).receiver_waker() == old(self).receiver_waker(),
            old(self)@.len() > 0 ==> r == Ok::<Option<T>, TryRecvError>(Some(old(self)@[0]))
                && final(self)@ == old(self)@.subrange(1, old(self)@.len() as int),
            old(self)@.len() == 0 && old(self).closed_spec() ==> r == Err::<Option<T>, TryRecvError>(TryRecvError::Disconnected) && final(self)@ == old(self)@,
            old(self)@.len() == 0 && !old(self).closed_spec() ==> r == Ok::<Option<T>, TryRecvError>(None)
                && final(self)@ == old(self)@,
    {
        let ghost gh = self.head_seq@;
        let ghost gt = self.tail_seq@;
        let ghost cap = self.capacity_spec();
        let c = self.snapshot();
        proof {
            lemma_wrapped_eq(gh, gt);
        }
        if c.is_empty() {
            // Disconnection is reported only once no buffered data remains.
            if self.closed {
                return Err(TryRecvError::Disconnected);
            }
            return Ok(None);
        }
        let i = self.ring.index(self.head);
        proof {
            lemma_mod_mod_capacity(gh, cap);
            assert(i == gh % cap);
            assert(old(self).seq_in_window(gh));
            assert(old(self).slot_live(i as int));
            assert(old(self).ring.cells()[i as int] is Some) by {
                reveal(Channel::slots_ok);
            }
            assert(old(self)@[0] == old(self).ring.cells()[i as int].unwrap());
        }
        let out = self.ring.read_at(i);
        proof {
            lemma_wrapped_add(gh, 1);
        }
        self.head = self.head.wrapping_add(1);
        self.head_seq = Ghost(gh + 1);
        proof {
            lemma_pow2_capacity_positive(cap);
            assert(self.slots_ok()) by {
                reveal(Channel::slots_ok);
                assert forall|i2: int|
                    0 <= i2 < cap implies (#[trigger] self.ring.cells()[i2] is Some
                    <==> self.slot_live(i2)) by {
                    if i2 == i as int {
                        assert forall|k: nat| self.seq_in_window(k) implies #[trigger] (k % cap)
                            != i2 by {
                            lemma_near_mod_distinct(k, gh, cap);
                        }
                        assert(!self.slot_live(i2));
                    } else {
                        if self.slot_live(i2) {
                            let k = choose|k: nat|
                                self.seq_in_window(k) && #[trigger] (k % cap) == i2;
                            assert(old(self).seq_in_window(k));
                            assert(old(self).slot_live(i2));
                        }
                        if old(self).ring.cells()[i2] is Some {
                            let k = choose|k: nat|
                                old(self).seq_in_window(k) && #[trigger] (k % cap) == i2;
                            assert(k != gh);
                            assert(self.seq_in_window(k));
                            assert(self.slot_live(i2));
                        }
                    }
                }
            }
            assert(self@ =~= old(self)@.subrange(1, old(self)@.len() as int)) by {
                assert forall|j: int| 0 <= j < self@.len() implies self@[j] == old(self)@.subrange(
                    1,
                    old(self)@.len() as int,
                )[j] by {
                    lemma_near_mod_distinct((gh + 1 + j) as nat, gh, cap);
                    assert((gh + 1 + j) % cap as int != i as int);
                    assert(self@[j] == old(self)@[j + 1]);
                }
            }
        }
        Ok(Some(out))
    }

    /// Announces that the producing half is gone: sets the closed flag and
    /// hands back the consumer's pending callback for the caller to invoke.
    /// Every value already queued stays readable.
    pub fn close_sender(&mut self) -> (wake: Option<u64>)
        requires
            old(self).wf(),
        ensures
            final(self).wf(),
            final(self).closed_spec(),
            final(self)@ == old(self)@,
            final(self).capacity_spec() == old(self).capacity_spec(),
            wake == old(self).receiver_waker(),
            final(self).receiver_waker() is None,
            final(self).sender_waker() == old(self).sender_waker(),
    {
        self.closed = true;
        let wake = self.wakers.wake_receiver();
        proof {
            assert(self.slots_ok() == old(self).slots_ok()) by {
                reveal(Channel::slots_ok);
            }
            assert(self@ =~= old(self)@);
        }
        wake
    }

    /// Announces that the consuming half is gone: sets the closed flag and
    /// hands back the producer's pending callback for the caller to invoke.
    pub fn close_receiver(&mut self) -> (wake: Option<u64>)
        requires
            old(self).wf(),
        ensures
            final(self).wf(),
            final(self).closed_spec(),
            final(self)@ == old(self)@,
            final(self).capacity_spec() == old(self).capacity_spec(),
            wake == old(self).sender_waker(),
            final(self).sender_waker() is None,
            final(self).receiver_waker() == old(self).receiver_waker(),
    {
        self.closed = true;
        let wake = self.wakers.wake_sender();
        proof {
            assert(self.slots_ok() == old(self).slots_ok()) by {
                reveal(Channel::slots_ok);
            }
            assert(self@ =~= old(self)@);
        }
        wake
    }

    /// Starts a batched read of up to `max` of the currently buffered
    /// values.
    ///
    /// The cursors are snapshotted once; the drain yields
    /// `min(max, available)` values without advancing the shared head per
    /// item, and `finish` commits exactly the values actually consumed.
    pub fn drain(self, max: usize) -> (d: Drain<T>)
        requires
            self.wf(),
        ensures
            d.wf(),
            d.source_view() == self@,
            d.taken_spec() == 0,
            d.remaining_spec() == if max <= self@.len() {
                max as nat
            } else {
                self@.len()
            },
            d.is_closed_spec() == self.closed_spec(),
            d.capacity_spec() == self.capacity_spec(),
            d.sender_waker() == self.sender_waker(),
            d.receiver_waker() == self.receiver_waker(),
    {
        let ghost gh = self.head_seq@;
        let ghost cap = self.capacity_spec();
        let ghost src = self@;
        let c = self.snapshot();
        proof {
            lemma_wrapped_dist(self.head_seq@, self.tail_seq@);
        }
        let available = c.remaining();
        // Clamp the number of yielded items; counts, not raw sequence
        // numbers, so wraparound is immaterial.
        let limit = if max < available {
            max
        } else {
            available
        };
        let d = Drain { ch: self, taken: 0, limit, source: Ghost(src) };
        proof {
            assert(d.drain_slots_ok()) by {
                reveal(Channel::slots_ok);
                reveal(Drain::drain_slots_ok);
                assert forall|i: int|
                    0 <= i < cap implies (#[trigger] d.ch.ring.cells()[i] is Some <==> d.drain_live(
                    i,
                )) by {
                    if d.ch.ring.cells()[i] is Some {
                        let k = choose|k: nat|
                            d.ch.seq_in_window(k) && #[trigger] (k % cap) == i;
                        let j = k - gh;
                        assert(0 <= j < d.source@.len());
                        assert(((d.ch.head_seq@ + j) % d.ch.capacity_spec() as int) == i);
                        assert(d.drain_live(i));
                    }
                    if d.drain_live(i) {
                        let j = choose|j: int|
                            0 <= j < d.source@.len() && #[trigger] ((d.ch.head_seq@ + j)
                                % d.ch.capacity_spec() as int) == i;
                        assert(d.ch.seq_in_window((gh + j) as nat));
                        assert(((gh + j) as nat % cap) == i);
                        assert(d.ch.slot_live(i));
                    }
                }
            }
            assert forall|j: int| 0 <= j < src.len() implies #[trigger] d.ch.ring.cells()[(
            d.ch.head_seq@ + j) % cap as int] == Some(src[j]) by {
                assert(d.ch.seq_in_window((gh + j) as nat));
                assert(((gh + j) as nat % cap) == (gh + j) % cap as int);
                assert(d.ch.slot_live((gh + j) % cap as int));
                assert(d.ch.ring.cells()[(gh + j) % cap as int] is Some) by {
                    reveal(Channel::slots_ok);
                }
                assert(src[j] == d.ch.ring.cells()[(gh + j) % cap as int].unwrap());
            }
        }
        d
    }

    /// Consumes the channel and hands back, oldest first, every value that
    /// was produced but never consumed.
    ///
    /// This is the destruction path: the cursor window identifies exactly
    /// the live slots, so each such value is moved out exactly once and no
    /// dead slot is touched.
    pub fn into_unread(self) -> (items: Vec<T>)
        requires
            self.wf(),
        ensures
            items@ == self@,
    {
        let ghost src = self@;
        let mut ch = self;
        let mut items: Vec<T> = Vec::new();
        let count = ch.len();
        let mut k: usize = 0;
        while k < count
            invariant
                ch.wf(),
                count == src.len(),
                k <= count,
                items@ =~= src.subrange(0, k as int),
                ch@ =~= src.subrange(k as int, src.len() as int),
            decreases count - k,
        {
            let ghost before = ch@;
            let r = ch.try_recv();
            match r {
                Ok(Some(v)) => {
                    items.push(v);
                }
                _ => {
                    proof {
                        assert(false);
                    }
                }
            }
            k += 1;
            proof {
                assert(items@ =~= src.subrange(0, k as int));
                assert(ch@ =~= src.subrange(k as int, src.len() as int));
            }
        }
        proof {
            assert(items@ =~= src);
        }
        items
    }

    /// One non-blocking poll of the send side, with the waker-bridge
    /// protocol: on success the consumer's pending callback is handed back
    /// to be invoked; on a full ring the caller's callback is registered
    /// first and the condition is re-checked afterwards, so a publication
    /// racing with the registration cannot be missed.
    pub fn poll_send(&mut self, value: T, waker: u64) -> (p: SendPoll<T>)
        requires
            old(self).wf(),
        ensures
            final(self).wf(),
            final(self).capacity_spec() == old(self).capacity_spec(),
            final(self).closed_spec() == old(self).closed_spec(),
            old(self).closed_spec() ==> p == SendPoll::Disconnected(value)
                && final(self)@ == old(self)@
                && final(self).sender_waker() == old(self).sender_waker()
                && final(self).receiver_waker() == old(self).receiver_waker(),
            !old(self).closed_spec() && old(self)@.len() < old(self).capacity_spec() ==> p == (SendPoll::<T>::Sent { wake: old(self).receiver_waker() })
                && final(self)@ == old(self)@.push(value)
                && final(self).receiver_waker() is None
                && final(self).sender_waker() == old(self).sender_waker(),
            !old(self).closed_spec() && old(self)@.len() == old(self).capacity_spec() ==> p == (SendPoll::<T>::Pending { value, self_wake: false })
                && final(self)@ == old(self)@
                && final(self).sender_waker() == Some(waker)
                && final(self).receiver_waker() == old(self).receiver_waker(),
    {
        match self.try_send(value) {
            Ok(()) => {
                // A value was published: schedule the consumer.
                let ghost mid = *self;
                let wake = self.wakers.wake_receiver();
                proof {
                    assert(self.slots_ok() == mid.slots_ok()) by {
                        reveal(Channel::slots_ok);
                    }
                    assert(self@ =~= mid@);
                }
                SendPoll::Sent { wake }
            },
            Err(TrySendErr::Disconnected(v)) => SendPoll::Disconnected(v),
            Err(TrySendErr::Full(v)) => {
                // Register first, then re-check, to close the window where
                // the peer frees a slot between the failed attempt and the
                // registration.
                let ghost mid = *self;
                self.wakers.register_sender_waker(waker);
                proof {
                    assert(self.slots_ok() == mid.slots_ok()) by {
                        reveal(Channel::slots_ok);
                    }
                    assert(self@ =~= mid@);
                }
                let c = self.snapshot();
                proof {
                    lemma_wrapped_dist(self.head_seq@, self.tail_seq@);
                }
                let n = c.remaining();
                let capacity = self.ring.capacity();
                let self_wake = n < capacity;
                SendPoll::Pending { value: v, self_wake }
            },
        }
    }

    /// One non-blocking poll of the receive side; the mirror image of
    /// `poll_send`.
    pub fn poll_recv(&mut self, waker: u64) -> (p: RecvPoll<T>)
        requires
            old(self).wf(),
        ensures
            final(self).wf(),
            final(self).capacity_spec() == old(self).capacity_spec(),
            final(self).closed_spec() == old(self).closed_spec(),
            old(self)@.len() > 0 ==> p == (RecvPoll::<T>::Received {
                value: old(self)@[0],
                wake: old(self).sender_waker(),
            })
                && final(self)@ == old(self)@.subrange(1, old(self)@.len() as int)
                && final(self).sender_waker() is None
                && final(self).receiver_waker() == old(self).receiver_waker(),
            old(self)@.len() == 0 && old(self).closed_spec() ==> p == RecvPoll::<T>::Disconnected
                && final(self)@ == old(self)@
                && final(self).sender_waker() == old(self).sender_waker()
                && final(self).receiver_waker() == old(self).receiver_waker(),
            old(self)@.len() == 0 && !old(self).closed_spec() ==> p == (RecvPoll::<T>::Pending {
                self_wake: false,
            })
                && final(self)@ == old(self)@
                && final(self).receiver_waker() == Some(waker)
                && final(self).sender_waker() == old(self).sender_waker(),
    {
        match self.try_recv() {
            Ok(Some(v)) => {
                // A slot was freed: schedule the producer.
                let ghost mid = *self;
                let wake = self.wakers.wake_sender();
                proof {
                    assert(self.slots_ok() == mid.slots_ok()) by {
                        reveal(Channel::slots_ok);
                    }
                    assert(self@ =~= mid@);
                }
                RecvPoll::Received { value: v, wake }
            },
            Err(_) => RecvPoll::Disconnected,
            Ok(None) => {
                // Register first, then re-check, to close the window where
                // the peer publishes between the failed attempt and the
                // registration.
                let ghost mid = *self;
                self.wakers.register_receiver_waker(waker);
                proof {
                    assert(self.slots_ok() == mid.slots_ok()) by {
                        reveal(Channel::slots_ok);
                    }
                    assert(self@ =~= mid@);
                }
                let c = self.snapshot();
                proof {
                    lemma_wrapped_eq(self.head_seq@, self.tail_seq@);
                }
                let empty = c.is_empty();
                RecvPoll::Pending { self_wake: !empty }
            },
        }
    }
}

/// A batched, non-restartable read of the values that were buffered when it
/// was created.
///
/// Values produced after the snapshot are not yielded even if capacity
/// allows.  Progress is committed when the drain is `finish`ed: exactly the
/// values consumed by then leave the channel, so abandoning a drain early
/// loses nothing and repeats nothing.
pub struct Drain<T> {
    ch: Channel<T>,
    taken: usize,
    limit: usize,
    source: Ghost<Seq<T>>,
}

impl<T> Drain<T> {
    /// The channel's contents when the drain was created.
    pub closed spec fn source_view(&self) -> Seq<T> {
        self.source@
    }

    /// How many values this drain has yielded so far.
    pub closed spec fn taken_spec(&self) -> nat {
        self.taken as nat
    }

    /// How many values this drain will still yield.
    pub closed spec fn remaining_spec(&self) -> nat {
        self.limit as nat
    }

    pub closed spec fn is_closed_spec(&self) -> bool {
        self.ch.closed
    }

    pub closed spec fn capacity_spec(&self) -> nat {
        self.ch.capacity_spec()
    }

    pub closed spec fn sender_waker(&self) -> Option<u64> {
        self.ch.sender_waker()
    }

    pub closed spec fn receiver_waker(&self) -> Option<u64> {
        self.ch.receiver_waker()
    }

    /// Slot `i` still holds a value this drain has not consumed.
    spec fn drain_live(&self, i: int) -> bool {
        exists|j: int|
            self.taken <= j < self.source@.len() && #[trigger] ((self.ch.head_seq@ + j)
                % self.ch.capacity_spec() as int) == i
    }

    #[verifier::opaque]
    spec fn drain_slots_ok(&self) -> bool {
        forall|i: int|
            0 <= i < self.ch.capacity_spec() ==> (#[trigger] self.ch.ring.cells()[i] is Some
                <==> self.drain_live(i))
    }

    /// The drain invariant: the wrapped channel is intact except that the
    /// values before `taken` have been moved out, while the shared head
    /// still points at the snapshot position.
    pub closed spec fn wf(&self) -> bool {
        let gh = self.ch.head_seq@;
        let gt = self.ch.tail_seq@;
        let cap = self.ch.capacity_spec();
        &&& self.ch.ring.wf()
        &&& cap <= usize::MAX
        &&& self.ch.head == gh % wrap_modulus()
        &&& self.ch.tail == gt % wrap_modulus()
        &&& gh <= gt
        &&& gt - gh <= cap
        &&& self.source@.len() == gt - gh
        &&& self.taken + self.limit <= gt - gh
        &&& self.drain_slots_ok()
        &&& forall|j: int|
            self.taken <= j < self.source@.len() ==> #[trigger] self.ch.ring.cells()[(gh + j)
                % cap as int] == Some(self.source@[j])
    }

    /// Yields the next snapshotted value, if any remain under the clamp.
    pub fn next(&mut self) -> (item: Option<T>)
        requires
            old(self).wf(),
        ensures
            final(self).wf(),
            final(self).source_view() == old(self).source_view(),
            final(self).is_closed_spec() == old(self).is_closed_spec(),
            final(self).capacity_spec() == old(self).capacity_spec(),
            final(self).sender_waker() == old(self).sender_waker(),
            final(self).receiver_waker() == old(self).receiver_waker(),
            old(self).remaining_spec() == 0 ==> item is None
                && final(self).taken_spec() == old(self).taken_spec()
                && final(self).remaining_spec() == 0,
            old(self).remaining_spec() > 0 ==> item == Some(
                old(self).source_view()[old(self).taken_spec() as int],
            ) && final(self).taken_spec() == old(self).taken_spec() + 1
                && final(self).remaining_spec() == old(self).remaining_spec() - 1,
    {
        if self.limit == 0 {
            return None;
        }
        let ghost gh = self.ch.head_seq@;
        let ghost cap = self.ch.capacity_spec();
        let ghost taken0 = self.taken as int;
        let seq = self.ch.head.wrapping_add(self.taken);
        proof {
            lemma_wrapped_add(gh, self.taken as nat);
        }
        let i = self.ch.ring.index(seq);
        proof {
            lemma_mod_mod_capacity(gh + self.taken as nat, cap);
            assert(i == (gh + taken0) % cap as int);
            assert(self.ch.ring.cells()[i as int] == Some(self.source@[taken0]));
        }
        let out = self.ch.ring.read_at(i);
        self.taken += 1;
        self.limit -= 1;
        proof {
            lemma_pow2_capacity_positive(cap);
            assert(self.drain_slots_ok()) by {
                reveal(Drain::drain_slots_ok);
                assert forall|i2: int|
                    0 <= i2 < cap implies (#[trigger] self.ch.ring.cells()[i2] is Some
                    <==> self.drain_live(i2)) by {
                    if i2 == i as int {
                        assert forall|j: int|
                            self.taken <= j < self.source@.len() implies #[trigger] ((gh + j)
                            % cap as int) != i2 by {
                            lemma_near_mod_distinct((gh + j) as nat, (gh + taken0) as nat, cap);
                        }
                        assert(!self.drain_live(i2));
                    } else {
                        if self.drain_live(i2) {
                            let j = choose|j: int|
                                self.taken <= j < self.source@.len() && #[trigger] ((gh + j)
                                    % cap as int) == i2;
                            assert(old(self).drain_live(i2));
                        }
                        if old(self).ch.ring.cells()[i2] is Some {
                            let j = choose|j: int|
                                taken0 <= j < self.source@.len() && #[trigger] ((gh + j)
                                    % cap as int) == i2;
                            assert(j != taken0);
                            assert(self.drain_live(i2));
                        }
                    }
                }
            }
            assert forall|j: int|
                self.taken <= j < self.source@.len() implies #[trigger] self.ch.ring.cells()[(gh
                + j) % cap as int] == Some(self.source@[j]) by {
                lemma_near_mod_distinct((gh + j) as nat, (gh + taken0) as nat, cap);
            }
        }
        Some(out)
    }

    /// How many values are left in this drain.
    pub fn remaining(&self) -> (n: usize)
        ensures
            n == self.remaining_spec(),
    {
        self.limit
    }

    /// True if the producing half has dropped.
    pub fn is_closed(&self) -> (b: bool)
        ensures
            b == self.is_closed_spec(),
    {
        self.ch.is_closed()
    }

    /// Commits the consumed values and hands the channel back: one head
    /// update covers the whole batch, and it happens even when the drain is
    /// abandoned before exhausting its clamp.
    pub fn finish(self) -> (ch: Channel<T>)
        requires
            self.wf(),
        ensures
            ch.wf(),
            ch@ == self.source_view().subrange(
                self.taken_spec() as int,
                self.source_view().len() as int,
            ),
            ch.closed_spec() == self.is_closed_spec(),
            ch.capacity_spec() == self.capacity_spec(),
            ch.sender_waker() == self.sender_waker(),
            ch.receiver_waker() == self.receiver_waker(),
    {
        let ghost gh = self.ch.head_seq@;
        let ghost cap = self.ch.capacity_spec();
        let Drain { ch, taken, limit, source } = self;
        let mut ch = ch;
        if taken != 0 {
            // One release-style commit for the whole batch; skipped when
            // nothing was consumed, exactly as the head would be unchanged.
            proof {
                lemma_wrapped_add(gh, taken as nat);
            }
            ch.head = ch.head.wrapping_add(taken);
            ch.head_seq = Ghost((ch.head_seq@ + taken) as nat);
        }
        proof {
            assert(ch.head_seq@ == gh + taken);
            assert(ch.slots_ok()) by {
                reveal(Channel::slots_ok);
                reveal(Drain::drain_slots_ok);
                assert forall|i: int|
                    0 <= i < cap implies (#[trigger] ch.ring.cells()[i] is Some <==> ch.slot_live(
                    i,
                )) by {
                    if ch.ring.cells()[i] is Some {
                        let j = choose|j: int|
                            taken <= j < source@.len() && #[trigger] ((gh + j) % cap as int) == i;
                        assert(ch.seq_in_window((gh + j) as nat));
                        assert(((gh + j) as nat % cap) == i);
                        assert(ch.slot_live(i));
                    }
                    if ch.slot_live(i) {
                        let k = choose|k: nat| ch.seq_in_window(k) && #[trigger] (k % cap) == i;
                        assert(taken <= k - gh < source@.len());
                        assert((gh + (k - gh)) % cap as int == i);
                        assert(self.drain_live(i));
                    }
                }
            }
            assert(ch@ =~= source@.subrange(taken as int, source@.len() as int)) by {
                assert forall|j: int| 0 <= j < ch@.len() implies ch@[j] == source@[taken + j] by {
                    assert(ch.ring.cells()[(gh + (taken + j)) % cap as int] == Some(
                        source@[taken + j],
                    ));
                }
            }
        }
        ch
    }
}

} // verus!
