//! The per-slot-stamp channel: the same ring, but each slot carries its own
//! sequence stamp, and each side keeps a private, unshared cursor.
//!
//! The producer writes a slot when the slot's stamp equals its private
//! `tail`, then stamps it `tail + 1`; the consumer reads a slot when its
//! stamp equals `head + 1`, then stamps it `head + N` for the next lap.
//! Neither side ever reads the other's cursor: synchronization is localized
//! to the one slot being touched.  Because a stamp wraps, two slots can
//! carry numerically equal stamps across different laps; the liveness test
//! used at destruction time compares stamps modulo the capacity against the
//! slot's index, which this module proves identifies exactly the live
//! slots.

use vstd::prelude::*;

verus! {

use vstd::arithmetic::power2::is_pow2;
use vstd::arithmetic::div_mod::{lemma_mod_bound, lemma_mod_equivalence, lemma_mod_twice,
    lemma_small_mod, lemma_sub_mod_noop, lemma_add_mod_noop};
use crate::error::{TryRecvError, TrySendErr};
use crate::ring::{RingBuffer, lemma_capacity_at_most_half, lemma_congruent_in_window,
    lemma_mod_mod_capacity, lemma_near_mod_distinct, lemma_wrapped_add, lemma_wrapped_dist,
    lemma_wrapped_eq, wrap_modulus};
use crate::slot::Slot;
use crate::wakers::{RecvPoll, SendPoll, Wakers};

/// The liveness test used when a channel is torn down: slot `index` holds a
/// never-consumed value exactly when its stamp, reduced modulo the
/// capacity, is one past the slot's own index.  Raw stamp equality would
/// confuse a slot written in this lap with one read in an earlier lap.
pub open spec fn slot_has_data_spec(stamp: usize, index: usize, capacity: usize) -> bool
    recommends
        capacity > 0,
{
    stamp as int % capacity as int == (index + 1) as int % capacity as int
}

/// Decides `slot_has_data_spec` on concrete stamp and index.
pub fn slot_has_data(stamp: usize, index: usize, capacity: usize) -> (b: bool)
    requires
        capacity > 0,
        index < capacity,
    ensures
        b == slot_has_data_spec(stamp, index, capacity),
{
    stamp % capacity == (index + 1) % capacity
}

/// A bounded single-producer/single-consumer queue synchronized through
/// per-slot stamps.
///
/// The queue's contents are its view: the values at sequence numbers
/// `[head, tail)`, oldest first.  The invariant ties every slot's stamp to
/// the cursors: a live slot at sequence `k` is stamped `k + 1`, and an
/// empty slot is stamped with the sequence number at which the producer
/// will write it next.
pub struct Channel<T> {
    ring: RingBuffer<Slot<T>>,
    head: usize,
    tail: usize,
    closed: bool,
    wakers: Wakers,
    head_seq: Ghost<nat>,
    tail_seq: Ghost<nat>,
    stamps: Ghost<Seq<nat>>,
}

impl<T> Channel<T> {
    /// The fixed number of slots.
    pub closed spec fn capacity_spec(&self) -> nat {
        self.ring.capacity_spec()
    }

    /// The unbounded count of values ever consumed.
    pub closed spec fn head_seq(&self) -> nat {
        self.head_seq@
    }

    /// The unbounded count of values ever produced.
    pub closed spec fn tail_seq(&self) -> nat {
        self.tail_seq@
    }

    /// Whether either half has announced its departure.
    pub closed spec fn closed_spec(&self) -> bool {
        self.closed
    }

    /// The producer-side pending callback.
    pub closed spec fn sender_waker(&self) -> Option<u64> {
        self.wakers.sender()
    }

    /// The consumer-side pending callback.
    pub closed spec fn receiver_waker(&self) -> Option<u64> {
        self.wakers.receiver()
    }

    /// The word-sized stamp currently carried by slot `i`.
    pub closed spec fn slot_stamp(&self, i: int) -> usize {
        self.ring.cells()[i].stamp()
    }

    /// Whether slot `i` currently holds a value.
    pub closed spec fn slot_occupied(&self, i: int) -> bool {
        self.ring.cells()[i].value() is Some
    }

    /// Sequence number `k` holds a queued value.
    pub open spec fn seq_in_window(&self, k: nat) -> bool {
        self.head_seq() <= k < self.tail_seq()
    }

    /// Slot `i` holds a live (produced, not yet consumed) value.
    pub open spec fn slot_live(&self, i: int) -> bool {
        exists|k: nat| self.seq_in_window(k) && #[trigger] (k % self.capacity_spec()) == i
    }

    /// The sequence number at which the producer will next write slot `i`:
    /// the unique number congruent to `i` in `[tail, tail + capacity)`.
    spec fn next_write(&self, i: int) -> int {
        self.tail_seq@ + ((i - self.tail_seq@) % self.capacity_spec() as int)
    }

    /// The per-slot invariant: the word stamp mirrors an unbounded stamp;
    /// a slot holding the value of sequence `k` is stamped `k + 1`; an
    /// empty slot is stamped with its next write sequence and holds
    /// nothing.
    spec fn slot_ok(&self, i: int) -> bool {
        &&& self.ring.cells()[i].stamp() == self.stamps@[i] % wrap_modulus()
        &&& forall|k: nat|
            self.seq_in_window(k) && #[trigger] (k % self.capacity_spec()) == i
                ==> self.stamps@[i] == k + 1 && self.ring.cells()[i].value() is Some
        &&& !self.slot_live(i) ==> self.stamps@[i] == self.next_write(i) && self.ring.cells()[i].value() is None
    }

    #[verifier::opaque]
    spec fn slots_ok(&self) -> bool {
        forall|i: int| 0 <= i < self.capacity_spec() ==> #[trigger] self.slot_ok(i)
    }

    /// The state invariant.  A capacity of at least two is required: with a
    /// single slot the stamp cannot distinguish "written this lap" from
    /// "read last lap".
    pub closed spec fn wf(&self) -> bool {
        &&& self.ring.wf()
        &&& 2 <= self.capacity_spec() <= usize::MAX
        &&& self.stamps@.len() == self.capacity_spec()
        &&& self.head == self.head_seq@ % wrap_modulus()
        &&& self.tail == self.tail_seq@ % wrap_modulus()
        &&& self.head_seq@ <= self.tail_seq@
        &&& self.tail_seq@ - self.head_seq@ <= self.capacity_spec()
        &&& self.slots_ok()
    }
}

impl<T> View for Channel<T> {
    type V = Seq<T>;

    /// The queued values, oldest first.
    closed spec fn view(&self) -> Seq<T> {
        Seq::new(
            (self.tail_seq@ - self.head_seq@) as nat,
            |j: int| self.ring.cells()[(self.head_seq@ + j) % self.capacity_spec() as int].value().unwrap(),
        )
    }
}

impl<T> Channel<T> {
    /// Creates an empty, open channel with `capacity` slots, each stamped
    /// with its own index.
    ///
    /// The capacity must be a power of two and at least two; that is a
    /// construction-time programming contract, not a runtime condition.
    pub fn new(capacity: usize) -> (ch: Self)
        requires
            is_pow2(capacity as int),
            capacity >= 2,
        ensures
            ch.wf(),
            ch@ == Seq::<T>::empty(),
            ch.capacity_spec() == capacity,
            !ch.closed_spec(),
            ch.sender_waker() is None,
            ch.receiver_waker() is None,
    {
        let mut cells: Vec<Slot<T>> = Vec::new();
        let mut i: usize = 0;
        while i < capacity
            invariant
                i <= capacity,
                cells@.len() == i,
                forall|j: int|
                    0 <= j < i ==> (#[trigger] cells@[j]).stamp() == j && cells@[j].value() is None,
            decreases capacity - i,
        {
            cells.push(Slot::new(i));
            i += 1;
        }
        let ring = RingBuffer::from_cells(cells);
        let ch = Channel {
            ring,
            head: 0,
            tail: 0,
            closed: false,
            wakers: Wakers::new(),
            head_seq: Ghost(0nat),
            tail_seq: Ghost(0nat),
            stamps: Ghost(Seq::new(capacity as nat, |i: int| i as nat)),
        };
        proof {
            lemma_small_mod(0nat, wrap_modulus());
            assert(ch.slots_ok()) by {
                reveal(Channel::slots_ok);
                assert forall|i2: int| 0 <= i2 < capacity implies #[trigger] ch.slot_ok(i2) by {
                    lemma_small_mod(i2 as nat, wrap_modulus());
                    lemma_small_mod(i2 as nat, capacity as nat);
                    assert(ch.next_write(i2) == i2);
                    assert(!ch.slot_live(i2));
                }
            }
            assert(ch@ =~= Seq::<T>::empty());
        }
        ch
    }

    /// The channel's fixed capacity.
    pub fn capacity(&self) -> (n: usize)
        ensures
            n == self.capacity_spec(),
    {
        self.ring.capacity()
    }

    /// The number of queued values.
    ///
    /// In a concurrent rendering of this protocol, a cursor pair published
    /// for length queries is only a best-effort approximation; in this
    /// state machine the count is exact.
    pub fn len(&self) -> (n: usize)
        requires
            self.wf(),
        ensures
            n == self@.len(),
    {
        proof {
            lemma_wrapped_dist(self.head_seq@, self.tail_seq@);
        }
        self.tail.wrapping_sub(self.head)
    }

    /// True if no values are queued; best-effort in a concurrent
    /// rendering, exact here.
    pub fn is_empty(&self) -> (b: bool)
        requires
            self.wf(),
        ensures
            b == (self@.len() == 0),
    {
        proof {
            lemma_wrapped_eq(self.head_seq@, self.tail_seq@);
        }
        self.head == self.tail
    }

    /// True if the other half has dropped.
    pub fn is_closed(&self) -> (b: bool)
        ensures
            b == self.closed_spec(),
    {
        self.closed
    }

    /// Enqueues `value` unless the channel is closed or full.
    ///
    /// The producer consults only the stamp of the slot at its private
    /// `tail`: the slot is writable exactly when the stamp equals `tail`.
    /// After the write the stamp becomes `tail + 1` and the private cursor
    /// advances; no shared cursor is touched.  Failure never disturbs the
    /// queue.
    pub fn try_send(&mut self, value: T) -> (r: Result<(), TrySendErr<T>>)
        requires
            old(self).wf(),
        ensures
            final(self).wf(),
            final(self).capacity_spec() == old(self).capacity_spec(),
            final(self).closed_spec() == old(self).closed_spec(),
            final(self).sender_waker() == old(self).sender_waker(),
            final(self).receiver_waker() == old(self).receiver_waker(),
            old(self).closed_spec() ==> r == Err::<(), TrySendErr<T>>(
                TrySendErr::Disconnected(value),
            ) && final(self)@ == old(self)@,
            !old(self).closed_spec() && old(self)@.len() == old(self).capacity_spec() ==> r
                == Err::<(), TrySendErr<T>>(TrySendErr::Full(value)) && final(self)@ == old(
                self,
            )@,
            !old(self).closed_spec() && old(self)@.len() < old(self).capacity_spec() ==> r
                == Ok::<(), TrySendErr<T>>(()) && final(self)@ == old(self)@.push(value),
    {
        if self.closed {
            return Err(TrySendErr::Disconnected(value));
        }
        let ghost gh = self.head_seq@;
        let ghost gt = self.tail_seq@;
        let ghost cap = self.capacity_spec();
        let i = self.ring.index(self.tail);
        proof {
            lemma_mod_mod_capacity(gt, cap);
            assert(i == gt % cap);
        }
        let stamp = self.ring.cell(i).load_stamp();
        proof {
            assert(self.slot_ok(i as int)) by {
                reveal(Channel::slots_ok);
            }
            // The unbounded stamp is within one capacity of `tail`, so the
            // word-level comparison below decides unbounded equality.
            if self.slot_live(i as int) {
                let k = choose|k: nat| self.seq_in_window(k) && #[trigger] (k % cap) == i;
                assert(self.stamps@[i as int] == k + 1);
            } else {
                lemma_mod_bound(i - gt, cap as int);
            }
            lemma_wrapped_eq(self.stamps@[i as int], gt);
        }
        if stamp == self.tail {
            proof {
                // A live slot here would carry stamp `k + 1 == tail` for a
                // window sequence `k` on the same slot, impossible one step
                // apart; so the slot is empty.
                if self.slot_live(i as int) {
                    let k = choose|k: nat| self.seq_in_window(k) && #[trigger] (k % cap) == i;
                    assert(self.stamps@[i as int] == k + 1);
                    lemma_near_mod_distinct(k, gt, cap);
                }
                assert(!self.slot_live(i as int));
                // A full window would make the slot live at `tail - cap`.
                if gt - gh == cap {
                    assert((gt - cap) % cap as int == gt as int % cap as int) by {
                        vstd::arithmetic::div_mod::lemma_mod_sub_multiples_vanish(
                            gt as int,
                            cap as int,
                        );
                    }
                    assert(self.seq_in_window((gt - cap) as nat));
                    assert(((gt - cap) as nat % cap) == i);
                    assert(false);
                }
                lemma_wrapped_add(gt, 1);
            }
            let slot = self.ring.cell_mut(i);
            slot.put(value);
            slot.store_stamp(self.tail.wrapping_add(1));
            self.tail = self.tail.wrapping_add(1);
            self.tail_seq = Ghost(gt + 1);
            self.stamps = Ghost(self.stamps@.update(i as int, gt + 1));
            proof {
                assert(self.slots_ok()) by {
                    reveal(Channel::slots_ok);
                    assert forall|i2: int| 0 <= i2 < cap implies #[trigger] self.slot_ok(i2) by {
                        if i2 == i as int {
                            assert forall|k: nat|
                                self.seq_in_window(k) && #[trigger] (k % cap) == i2 implies self.stamps@[i2]
                                == k + 1 && self.ring.cells()[i2].value() is Some by {
                                if k != gt {
                                    assert(old(self).seq_in_window(k));
                                    assert(old(self).slot_live(i2));
                                    assert(false);
                                }
                            }
                            assert(self.seq_in_window(gt));
                            assert((gt % cap) == i2);
                            assert(self.slot_live(i2));
                        } else {
                            // Unchanged slot: its next write moved from
                            // `tail + m` to `(tail + 1) + (m - 1)`, the same
                            // sequence number.
                            assert(old(self).slot_ok(i2));
                            assert forall|k: nat|
                                self.seq_in_window(k) && #[trigger] (k % cap) == i2 implies self.stamps@[i2]
                                == k + 1 && self.ring.cells()[i2].value() is Some by {
                                assert(k != gt);
                                assert(old(self).seq_in_window(k));
                            }
                            if !self.slot_live(i2) {
                                assert(!old(self).slot_live(i2)) by {
                                    if old(self).slot_live(i2) {
                                        let k = choose|k: nat|
                                            old(self).seq_in_window(k) && #[trigger] (k % cap)
                                                == i2;
                                        assert(self.seq_in_window(k));
                                    }
                                }
                                let m = (i2 - gt) % cap as int;
                                assert(old(self).stamps@[i2] == gt + m);
                                assert(m != 0) by {
                                    if m == 0 {
                                        lemma_mod_equivalence(i2, gt as int, cap as int);
                                        lemma_small_mod(i2 as nat, cap);
                                        assert(i2 == gt as int % cap as int);
                                    }
                                }
                                assert((i2 - (gt + 1)) % cap as int == m - 1) by {
                                    lemma_sub_mod_noop(i2 - gt, 1, cap as int);
                                    lemma_small_mod(1nat, cap);
                                    lemma_mod_twice(i2 - gt, cap as int);
                                    lemma_small_mod((m - 1) as nat, cap);
                                }
                                assert(self.next_write(i2) == gt + m);
                            }
                        }
                    }
                }
                assert(self@ =~= old(self)@.push(value)) by {
                    assert forall|j: int| 0 <= j < self@.len() implies self@[j] == old(
                        self,
                    )@.push(value)[j] by {
                        if j < old(self)@.len() {
                            assert(old(self).seq_in_window((gh + j) as nat));
                            if ((gh + j) as nat % cap) == i as int {
                                assert(old(self).slot_live(i as int));
                                assert(false);
                            }
                            assert((gh + j) % cap as int != i as int);
                        } else {
                            assert((gh + j) % cap as int == gt as int % cap as int);
                        }
                    }
                }
            }
            Ok(())
        } else {
            proof {
                // The stamp differs from `tail`, so the slot is still live
                // from the previous lap: the window must span the whole
                // capacity.
                if !self.slot_live(i as int) {
                    let m = (i - gt) % cap as int;
                    assert(m == 0) by {
                        lemma_small_mod(i as nat, cap);
                        lemma_mod_twice(gt as int, cap as int);
                        lemma_mod_equivalence(i as int, gt as int, cap as int);
                    }
                    assert(self.stamps@[i as int] == gt);
                    assert(false);
                }
                let k = choose|k: nat| self.seq_in_window(k) && #[trigger] (k % cap) == i;
                assert(self.stamps@[i as int] == k + 1);
                assert(k != gt);
                if gt - k < cap {
                    lemma_near_mod_distinct(k, gt, cap);
                    assert(false);
                }
                assert(gt - k >= cap);
                assert(gt - gh >= cap);
                assert(old(self)@.len() == cap);
            }
            Err(TrySendErr::Full(value))
        }
    }

    /// Dequeues the oldest value if one is buffered.
    ///
    /// The consumer consults only the stamp of the slot at its private
    /// `head`: data is ready exactly when the stamp equals `head + 1`.
    /// After the read the stamp becomes `head + capacity` — writable on the
    /// next lap — and the freed slot is visible to the producer
    /// immediately.  A buffered value is always delivered, even after the
    /// peer has dropped; only an empty channel reports `Disconnected`
    /// (when closed) or `Ok(None)` (when open).
    pub fn try_recv(&mut self) -> (r: Result<Option<T>, TryRecvError>)
        requires
            old(self).wf(),
        ensures
            final(self).wf(),
            final(self).capacity_spec() == old(self).capacity_spec(),
            final(self).closed_spec() == old(self).closed_spec(),
            final(self).sender_waker() == old(self).sender_waker(),
            final(self).receiver_waker() == old(self).receiver_waker(),
            old(self)@.len() > 0 ==> r == Ok::<Option<T>, TryRecvError>(Some(old(self)@[0]))
                && final(self)@ == old(self)@.subrange(1, old(self)@.len() as int),
            old(self)@.len() == 0 && old(self).closed_spec() ==> r == Err::<
                Option<T>,
                TryRecvError,
            >(TryRecvError::Disconnected) && final(self)@ == old(self)@,
            old(self)@.len() == 0 && !old(self).closed_spec() ==> r == Ok::<
                Option<T>,
                TryRecvError,
            >(None) && final(self)@ == old(self)@,
    {
        let ghost gh = self.head_seq@;
        let ghost gt = self.tail_seq@;
        let ghost cap = self.capacity_spec();
        let i = self.ring.index(self.head);
        proof {
            lemma_mod_mod_capacity(gh, cap);
            assert(i == gh % cap);
        }
        let stamp = self.ring.cell(i).load_stamp();
        let expected = self.head.wrapping_add(1);
        proof {
            assert(self.slot_ok(i as int)) by {
                reveal(Channel::slots_ok);
            }
            // A live slot here can only hold the value at `head` itself.
            if self.slot_live(i as int) {
                let k = choose|k: nat| self.seq_in_window(k) && #[trigger] (k % cap) == i;
                if k != gh {
                    lemma_near_mod_distinct(k, gh, cap);
                    assert(false);
                }
                assert(self.stamps@[i as int] == gh + 1);
            } else {
                lemma_mod_bound(i - gt, cap as int);
            }
            lemma_capacity_at_most_half(cap);
            lemma_wrapped_add(gh, 1);
            lemma_wrapped_eq(self.stamps@[i as int], gh + 1);
        }
        if stamp == expected {
            proof {
                // An empty slot would be stamped with a next-write sequence
                // congruent to the slot index, never to `head + 1`.
                if !self.slot_live(i as int) {
                    assert(self.stamps@[i as int] == self.next_write(i as int));
                    assert(self.next_write(i as int) % cap as int == i) by {
                        lemma_add_mod_noop(gt as int, (i - gt) % cap as int, cap as int);
                        lemma_mod_twice(i - gt, cap as int);
                        lemma_add_mod_noop(gt as int, i - gt, cap as int);
                        lemma_small_mod(i as nat, cap);
                    }
                    assert((gh + 1) as int % cap as int == i);
                    assert(gh as int % cap as int == i) by {
                        lemma_mod_mod_capacity(gh, cap);
                    }
                    assert(1nat % cap == 0) by {
                        lemma_mod_equivalence(gh as int + 1, gh as int, cap as int);
                    }
                    assert(false) by {
                        lemma_small_mod(1nat, cap);
                    }
                }
                assert(self.slot_live(i as int));
                assert(self.seq_in_window(gh));
                assert(old(self)@[0] == self.ring.cells()[i as int].value().unwrap());
                lemma_wrapped_add(gh, cap);
            }
            let capacity = self.ring.capacity();
            let slot = self.ring.cell_mut(i);
            let out = slot.take();
            slot.store_stamp(self.head.wrapping_add(capacity));
            self.head = self.head.wrapping_add(1);
            self.head_seq = Ghost(gh + 1);
            self.stamps = Ghost(self.stamps@.update(i as int, gh + cap));
            proof {
                assert(self.slots_ok()) by {
                    reveal(Channel::slots_ok);
                    assert forall|i2: int| 0 <= i2 < cap implies #[trigger] self.slot_ok(i2) by {
                        if i2 == i as int {
                            // The freed slot's next write is `head + cap`.
                            assert forall|k: nat|
                                self.seq_in_window(k) && #[trigger] (k % cap) == i2 implies self.stamps@[i2]
                                == k + 1 && self.ring.cells()[i2].value() is Some by {
                                lemma_near_mod_distinct(k, gh, cap);
                                assert(false);
                            }
                            assert(!self.slot_live(i2)) by {
                                if self.slot_live(i2) {
                                    let k = choose|k: nat|
                                        self.seq_in_window(k) && #[trigger] (k % cap) == i2;
                                    lemma_near_mod_distinct(k, gh, cap);
                                }
                            }
                            assert(self.next_write(i2) == gh + cap) by {
                                assert(self.next_write(i2) % cap as int == i2) by {
                                    lemma_add_mod_noop(gt as int, (i2 - gt) % cap as int, cap as int);
                                    lemma_mod_twice(i2 - gt, cap as int);
                                    lemma_add_mod_noop(gt as int, i2 - gt, cap as int);
                                    lemma_small_mod(i2 as nat, cap);
                                }
                                assert((gh + cap) as int % cap as int == i2) by {
                                    lemma_mod_sub_multiples_vanish_wrap(gh, cap);
                                    lemma_mod_mod_capacity(gh, cap);
                                }
                                lemma_mod_bound(i2 - gt, cap as int);
                                lemma_congruent_in_window(
                                    self.next_write(i2),
                                    gh as int + cap as int,
                                    cap as int,
                                );
                            }
                        } else {
                            assert(old(self).slot_ok(i2));
                            assert forall|k: nat|
                                self.seq_in_window(k) && #[trigger] (k % cap) == i2 implies self.stamps@[i2]
                                == k + 1 && self.ring.cells()[i2].value() is Some by {
                                assert(old(self).seq_in_window(k));
                            }
                            if !self.slot_live(i2) {
                                assert(!old(self).slot_live(i2)) by {
                                    if old(self).slot_live(i2) {
                                        let k = choose|k: nat|
                                            old(self).seq_in_window(k) && #[trigger] (k % cap)
                                                == i2;
                                        assert(k != gh);
                                        assert(self.seq_in_window(k));
                                    }
                                }
                            }
                        }
                    }
                }
                assert(self@ =~= old(self)@.subrange(1, old(self)@.len() as int)) by {
                    assert forall|j: int| 0 <= j < self@.len() implies self@[j] == old(
                        self,
                    )@[j + 1] by {
                        lemma_near_mod_distinct((gh + 1 + j) as nat, gh, cap);
                        assert((gh + 1 + j) % cap as int != i as int);
                    }
                }
            }
            Ok(Some(out))
        } else {
            proof {
                // The stamp at `head` is not `head + 1`, so nothing is
                // buffered: a nonempty window would make this very slot
                // live.
                if gt > gh {
                    assert(self.seq_in_window(gh));
                    assert((gh % cap) == i);
                    assert(self.slot_live(i as int));
                    assert(self.stamps@[i as int] == gh + 1);
                    assert(false);
                }
                assert(old(self)@.len() == 0);
            }
            if self.closed {
                return Err(TryRecvError::Disconnected);
            }
            Ok(None)
        }
    }

    /// The producer's readiness check: the slot at the private `tail` is
    /// writable exactly when the ring is not full.
    fn tail_slot_writable(&self) -> (b: bool)
        requires
            self.wf(),
        ensures
            b == (self@.len() < self.capacity_spec()),
    {
        let ghost gh = self.head_seq@;
        let ghost gt = self.tail_seq@;
        let ghost cap = self.capacity_spec();
        let i = self.ring.index(self.tail);
        let stamp = self.ring.cell(i).load_stamp();
        proof {
            lemma_mod_mod_capacity(gt, cap);
            assert(self.slot_ok(i as int)) by {
                reveal(Channel::slots_ok);
            }
            if self.slot_live(i as int) {
                let k = choose|k: nat| self.seq_in_window(k) && #[trigger] (k % cap) == i;
                assert(self.stamps@[i as int] == k + 1);
                if gt - k < cap {
                    lemma_near_mod_distinct(k, gt, cap);
                    assert(false);
                }
                assert(gt - gh == cap);
            } else {
                lemma_mod_bound(i - gt, cap as int);
                assert(self.stamps@[i as int] == self.next_write(i as int));
                let m = (i - gt) % cap as int;
                assert(m == 0) by {
                    lemma_small_mod(i as nat, cap);
                    lemma_mod_twice(gt as int, cap as int);
                    lemma_mod_equivalence(i as int, gt as int, cap as int);
                }
                if gt - gh == cap {
                    assert((gt - cap) % cap as int == gt as int % cap as int) by {
                        vstd::arithmetic::div_mod::lemma_mod_sub_multiples_vanish(
                            gt as int,
                            cap as int,
                        );
                    }
                    assert(self.seq_in_window((gt - cap) as nat));
                    assert(((gt - cap) as nat % cap) == i);
                    assert(false);
                }
            }
            lemma_wrapped_eq(self.stamps@[i as int], gt);
        }
        stamp == self.tail
    }

    /// The consumer's readiness check: the slot at the private `head`
    /// holds data exactly when the queue is nonempty.
    fn head_slot_readable(&self) -> (b: bool)
        requires
            self.wf(),
        ensures
            b == (self@.len() > 0),
    {
        let ghost gh = self.head_seq@;
        let ghost gt = self.tail_seq@;
        let ghost cap = self.capacity_spec();
        let i = self.ring.index(self.head);
        let stamp = self.ring.cell(i).load_stamp();
        let expected = self.head.wrapping_add(1);
        proof {
            lemma_mod_mod_capacity(gh, cap);
            assert(self.slot_ok(i as int)) by {
                reveal(Channel::slots_ok);
            }
            if self.slot_live(i as int) {
                let k = choose|k: nat| self.seq_in_window(k) && #[trigger] (k % cap) == i;
                if k != gh {
                    lemma_near_mod_distinct(k, gh, cap);
                    assert(false);
                }
                assert(self.stamps@[i as int] == gh + 1);
            } else {
                lemma_mod_bound(i - gt, cap as int);
                assert(self.stamps@[i as int] == self.next_write(i as int));
                assert(self.next_write(i as int) % cap as int == i) by {
                    lemma_add_mod_noop(gt as int, (i - gt) % cap as int, cap as int);
                    lemma_mod_twice(i - gt, cap as int);
                    lemma_add_mod_noop(gt as int, i - gt, cap as int);
                    lemma_small_mod(i as nat, cap);
                }
                if self.stamps@[i as int] == gh + 1 {
                    assert((gh + 1) as int % cap as int == i);
                    assert(gh as int % cap as int == i) by {
                        lemma_mod_mod_capacity(gh, cap);
                    }
                    assert(1nat % cap == 0) by {
                        lemma_mod_equivalence(gh as int + 1, gh as int, cap as int);
                    }
                    assert(false) by {
                        lemma_small_mod(1nat, cap);
                    }
                }
                if gt > gh {
                    assert(self.seq_in_window(gh));
                    assert((gh % cap) == i);
                    assert(false);
                }
            }
            lemma_capacity_at_most_half(cap);
            lemma_wrapped_add(gh, 1);
            lemma_wrapped_eq(self.stamps@[i as int], gh + 1);
        }
        stamp == expected
    }

    /// Announces that the producing half is gone: sets the closed flag and
    /// hands back the consumer's pending callback for the caller to invoke.
    /// Every value already queued stays readable.
    pub fn close_sender(&mut self) -> (wake: Option<u64>)
        requires
            old(self).wf(),
        ensures
            final(self).wf(),
            final(self).closed_spec(),
            final(self)@ == old(self)@,
            final(self).capacity_spec() == old(self).capacity_spec(),
            wake == old(self).receiver_waker(),
            final(self).receiver_waker() is None,
            final(self).sender_waker() == old(self).sender_waker(),
    {
        self.closed = true;
        let wake = self.wakers.wake_receiver();
        proof {
            lemma_slots_ok_untouched(old(self), self);
            assert(self@ =~= old(self)@);
        }
        wake
    }

    /// Announces that the consuming half is gone: sets the closed flag and
    /// hands back the producer's pending callback for the caller to invoke.
    pub fn close_receiver(&mut self) -> (wake: Option<u64>)
        requires
            old(self).wf(),
        ensures
            final(self).wf(),
            final(self).closed_spec(),
            final(self)@ == old(self)@,
            final(self).capacity_spec() == old(self).capacity_spec(),
            wake == old(self).sender_waker(),
            final(self).sender_waker() is None,
            final(self).receiver_waker() == old(self).receiver_waker(),
    {
        self.closed = true;
        let wake = self.wakers.wake_sender();
        proof {
            lemma_slots_ok_untouched(old(self), self);
            assert(self@ =~= old(self)@);
        }
        wake
    }

    /// Proves that the teardown liveness test is exact: slot `i` passes
    /// `slot_has_data_spec` precisely when it holds a live value.  In
    /// particular, a slot read in an earlier lap and a slot written in this
    /// lap can carry numerically equal stamps, and the test still tells
    /// them apart.
    pub proof fn lemma_stamp_identifies_live(&self, i: int)
        requires
            self.wf(),
            0 <= i < self.capacity_spec(),
        ensures
            slot_has_data_spec(
                self.slot_stamp(i),
                i as usize,
                self.capacity_spec() as usize,
            ) <==> self.slot_live(i),
            self.slot_live(i) <==> self.slot_occupied(i),
    {
        let cap = self.capacity_spec();
        assert(self.slot_ok(i)) by {
            reveal(Channel::slots_ok);
        }
        lemma_mod_mod_capacity(self.stamps@[i], cap);
        assert(self.slot_stamp(i) as int % cap as int == self.stamps@[i] as int % cap as int);
        if self.slot_live(i) {
            let k = choose|k: nat| self.seq_in_window(k) && #[trigger] (k % cap) == i;
            assert(self.stamps@[i] == k + 1);
            assert((k + 1) as int % cap as int == (i + 1) as int % cap as int) by {
                lemma_add_mod_noop(k as int, 1, cap as int);
                lemma_add_mod_noop(i as int, 1, cap as int);
                lemma_small_mod(i as nat, cap);
            }
            assert(slot_has_data_spec(self.slot_stamp(i), i as usize, cap as usize));
        } else {
            let gt = self.tail_seq@;
            assert(self.stamps@[i] == self.next_write(i));
            assert(self.next_write(i) % cap as int == i) by {
                lemma_add_mod_noop(gt as int, (i - gt) % cap as int, cap as int);
                lemma_mod_twice(i - gt, cap as int);
                lemma_add_mod_noop(gt as int, i - gt, cap as int);
                lemma_small_mod(i as nat, cap);
            }
            if slot_has_data_spec(self.slot_stamp(i), i as usize, cap as usize) {
                assert((i + 1) as int % cap as int == i);
                assert(1nat % cap == 0) by {
                    lemma_mod_equivalence(i + 1, i, cap as int);
                    lemma_small_mod(i as nat, cap);
                }
                assert(false) by {
                    lemma_small_mod(1nat, cap);
                }
            }
        }
    }

    /// Consumes the channel and hands back, oldest first, every value that
    /// was produced but never consumed.
    ///
    /// Each slot is tested with the stamp pattern `slot_has_data`, the same
    /// test a teardown must use: raw stamps repeat across laps, but the
    /// pattern identifies exactly the live slots, so each unread value is
    /// moved out exactly once.
    pub fn into_unread(self) -> (items: Vec<T>)
        requires
            self.wf(),
        ensures
            items@ == self@,
    {
        let ghost orig = self;
        let ghost gh = self.head_seq@;
        let ghost cap = self.capacity_spec();
        let mut ch = self;
        let mut items: Vec<T> = Vec::new();
        let count = ch.len();
        let capacity = ch.ring.capacity();
        let head = ch.head;
        let mut k: usize = 0;
        while k < count
            invariant
                orig.wf(),
                count == orig@.len(),
                capacity == cap,
                cap == orig.capacity_spec(),
                head == gh % wrap_modulus(),
                gh == orig.head_seq@,
                ch.ring.wf(),
                ch.ring.capacity_spec() == cap,
                k <= count,
                items@ =~= orig@.subrange(0, k as int),
                forall|j: int|
                    k <= j < count ==> #[trigger] ch.ring.cells()[(gh + j) % cap as int]
                        == orig.ring.cells()[(gh + j) % cap as int],
            decreases count - k,
        {
            let cur = head.wrapping_add(k);
            proof {
                lemma_wrapped_add(gh, k as nat);
            }
            let i = ch.ring.index(cur);
            proof {
                lemma_mod_mod_capacity(gh + k as nat, cap);
                assert(i == (gh + k as int) % cap as int);
                assert(ch.ring.cells()[i as int] == orig.ring.cells()[i as int]);
                assert(orig.slot_ok(i as int)) by {
                    reveal(Channel::slots_ok);
                }
                assert(orig.seq_in_window((gh + k as nat) as nat));
                assert(((gh + k as nat) as nat % cap) == i);
                assert(orig.stamps@[i as int] == gh + k + 1);
                assert(orig.ring.cells()[i as int].value() is Some);
            }
            let stamp = ch.ring.cell(i).load_stamp();
            proof {
                lemma_mod_mod_capacity((gh + k + 1) as nat, cap);
                assert(stamp as int % cap as int == (gh + k + 1) as int % cap as int);
                assert((i + 1) as int % cap as int == (gh + k + 1) as int % cap as int) by {
                    lemma_add_mod_noop((gh + k) as int, 1, cap as int);
                    lemma_add_mod_noop(i as int, 1, cap as int);
                    lemma_small_mod(i as nat, cap);
                }
                assert(slot_has_data_spec(stamp, i, capacity));
            }
            if slot_has_data(stamp, i, capacity) {
                let slot = ch.ring.cell_mut(i);
                let v = slot.take();
                items.push(v);
                proof {
                    assert(v == orig@[k as int]);
                }
            }
            k += 1;
            proof {
                assert(items@ =~= orig@.subrange(0, k as int));
                assert forall|j: int|
                    k <= j < count implies #[trigger] ch.ring.cells()[(gh + j) % cap as int]
                    == orig.ring.cells()[(gh + j) % cap as int] by {
                    lemma_near_mod_distinct((gh + j) as nat, (gh + k - 1) as nat, cap);
                }
            }
        }
        proof {
            assert(items@ =~= orig@);
        }
        items
    }
}

impl<T> Channel<T> {
    /// Starts a batched read of up to `max` of the currently buffered
    /// values.
    ///
    /// Unlike the shared-cursor channel there is no deferred commit: each
    /// value consumed during the drain restamps its own slot immediately,
    /// so the producer observes freed capacity slot by slot even mid-
    /// drain.
    pub fn drain(self, max: usize) -> (d: Drain<T>)
        requires
            self.wf(),
        ensures
            d.wf(),
            d.source_view() == self@,
            d.taken_spec() == 0,
            d.remaining_spec() == if max <= self@.len() {
                max as nat
            } else {
                self@.len()
            },
            d.is_closed_spec() == self.closed_spec(),
            d.capacity_spec() == self.capacity_spec(),
            d.sender_waker() == self.sender_waker(),
            d.receiver_waker() == self.receiver_waker(),
    {
        let ghost src = self@;
        let available = self.len();
        let limit = if max < available {
            max
        } else {
            available
        };
        let d = Drain { ch: self, taken: 0, limit, source: Ghost(src) };
        proof {
            assert(d.ch@ =~= src.subrange(0, src.len() as int));
        }
        d
    }

    /// One non-blocking poll of the send side, with the waker-bridge
    /// protocol: on success the consumer's pending callback is handed back
    /// to be invoked; on a full ring the caller's callback is registered
    /// first and the stamp of the slot at `tail` is re-checked afterwards,
    /// so a slot freed while registering cannot be missed.
    pub fn poll_send(&mut self, value: T, waker: u64) -> (p: SendPoll<T>)
        requires
            old(self).wf(),
        ensures
            final(self).wf(),
            final(self).capacity_spec() == old(self).capacity_spec(),
            final(self).closed_spec() == old(self).closed_spec(),
            old(self).closed_spec() ==> p == SendPoll::Disconnected(value)
                && final(self)@ == old(self)@
                && final(self).sender_waker() == old(self).sender_waker()
                && final(self).receiver_waker() == old(self).receiver_waker(),
            !old(self).closed_spec() && old(self)@.len() < old(self).capacity_spec() ==> p == (
            SendPoll::<T>::Sent { wake: old(self).receiver_waker() })
                && final(self)@ == old(self)@.push(value)
                && final(self).receiver_waker() is None
                && final(self).sender_waker() == old(self).sender_waker(),
            !old(self).closed_spec() && old(self)@.len() == old(self).capacity_spec() ==> p == (
            SendPoll::<T>::Pending { value, self_wake: false })
                && final(self)@ == old(self)@
                && final(self).sender_waker() == Some(waker)
                && final(self).receiver_waker() == old(self).receiver_waker(),
    {
        match self.try_send(value) {
            Ok(()) => {
                // A value was published: schedule the consumer.
                let ghost mid = *self;
                let wake = self.wakers.wake_receiver();
                proof {
                    lemma_slots_ok_untouched(&mid, self);
                    assert(self@ =~= mid@);
                }
                SendPoll::Sent { wake }
            },
            Err(TrySendErr::Disconnected(v)) => SendPoll::Disconnected(v),
            Err(TrySendErr::Full(v)) => {
                // Register first, then re-check the slot stamp, to close
                // the window where the peer frees the slot between the
                // failed attempt and the registration.
                let ghost mid = *self;
                self.wakers.register_sender_waker(waker);
                proof {
                    lemma_slots_ok_untouched(&mid, self);
                    assert(self@ =~= mid@);
                }
                let self_wake = self.tail_slot_writable();
                SendPoll::Pending { value: v, self_wake }
            },
        }
    }

    /// One non-blocking poll of the receive side; the mirror image of
    /// `poll_send`, re-checking the stamp of the slot at `head` after
    /// registering.
    pub fn poll_recv(&mut self, waker: u64) -> (p: RecvPoll<T>)
        requires
            old(self).wf(),
        ensures
            final(self).wf(),
            final(self).capacity_spec() == old(self).capacity_spec(),
            final(self).closed_spec() == old(self).closed_spec(),
            old(self)@.len() > 0 ==> p == (RecvPoll::<T>::Received {
                value: old(self)@[0],
                wake: old(self).sender_waker(),
            })
                && final(self)@ == old(self)@.subrange(1, old(self)@.len() as int)
                && final(self).sender_waker() is None
                && final(self).receiver_waker() == old(self).receiver_waker(),
            old(self)@.len() == 0 && old(self).closed_spec() ==> p == RecvPoll::<T>::Disconnected
                && final(self)@ == old(self)@
                && final(self).sender_waker() == old(self).sender_waker()
                && final(self).receiver_waker() == old(self).receiver_waker(),
            old(self)@.len() == 0 && !old(self).closed_spec() ==> p == (RecvPoll::<T>::Pending {
                self_wake: false,
            })
                && final(self)@ == old(self)@
                && final(self).receiver_waker() == Some(waker)
                && final(self).sender_waker() == old(self).sender_waker(),
    {
        match self.try_recv() {
            Ok(Some(v)) => {
                // A slot was freed: schedule the producer.
                let ghost mid = *self;
                let wake = self.wakers.wake_sender();
                proof {
                    lemma_slots_ok_untouched(&mid, self);
                    assert(self@ =~= mid@);
                }
                RecvPoll::Received { value: v, wake }
            },
            Err(_) => RecvPoll::Disconnected,
            Ok(None) => {
                // Register first, then re-check the slot stamp, to close
                // the window where the peer publishes between the failed
                // attempt and the registration.
                let ghost mid = *self;
                self.wakers.register_receiver_waker(waker);
                proof {
                    lemma_slots_ok_untouched(&mid, self);
                    assert(self@ =~= mid@);
                }
                let self_wake = self.head_slot_readable();
                RecvPoll::Pending { self_wake }
            },
        }
    }
}

/// A batched, non-restartable read of the values that were buffered when it
/// was created.
///
/// Consumption is committed per item: every value yielded has already
/// restamped its slot, so abandoning the drain early loses nothing and
/// repeats nothing, and there is no separate commit step.
pub struct Drain<T> {
    ch: Channel<T>,
    taken: usize,
    limit: usize,
    source: Ghost<Seq<T>>,
}

impl<T> Drain<T> {
    /// The channel's contents when the drain was created.
    pub closed spec fn source_view(&self) -> Seq<T> {
        self.source@
    }

    /// How many values this drain has yielded so far.
    pub closed spec fn taken_spec(&self) -> nat {
        self.taken as nat
    }

    /// How many values this drain will still yield.
    pub closed spec fn remaining_spec(&self) -> nat {
        self.limit as nat
    }

    pub closed spec fn is_closed_spec(&self) -> bool {
        self.ch.closed_spec()
    }

    pub closed spec fn capacity_spec(&self) -> nat {
        self.ch.capacity_spec()
    }

    pub closed spec fn sender_waker(&self) -> Option<u64> {
        self.ch.sender_waker()
    }

    pub closed spec fn receiver_waker(&self) -> Option<u64> {
        self.ch.receiver_waker()
    }

    /// The drain invariant: the channel stays intact throughout (per-slot
    /// commit), holding exactly the source values not yet taken.
    pub closed spec fn wf(&self) -> bool {
        &&& self.ch.wf()
        &&& self.source@.len() <= usize::MAX
        &&& self.taken + self.limit <= self.source@.len()
        &&& self.ch@ == self.source@.subrange(self.taken as int, self.source@.len() as int)
    }

    /// Yields the next value, if any remain under the clamp; its slot is
    /// republished to the producer before this call returns.
    pub fn next(&mut self) -> (item: Option<T>)
        requires
            old(self).wf(),
        ensures
            final(self).wf(),
            final(self).source_view() == old(self).source_view(),
            final(self).is_closed_spec() == old(self).is_closed_spec(),
            final(self).capacity_spec() == old(self).capacity_spec(),
            final(self).sender_waker() == old(self).sender_waker(),
            final(self).receiver_waker() == old(self).receiver_waker(),
            old(self).remaining_spec() == 0 ==> item is None
                && final(self).taken_spec() == old(self).taken_spec()
                && final(self).remaining_spec() == 0,
            old(self).remaining_spec() > 0 ==> item == Some(
                old(self).source_view()[old(self).taken_spec() as int],
            ) && final(self).taken_spec() == old(self).taken_spec() + 1
                && final(self).remaining_spec() == old(self).remaining_spec() - 1,
    {
        if self.limit == 0 {
            return None;
        }
        let r = self.ch.try_recv();
        match r {
            Ok(Some(v)) => {
                self.taken += 1;
                self.limit -= 1;
                proof {
                    assert(self.ch@ =~= self.source@.subrange(
                        self.taken as int,
                        self.source@.len() as int,
                    ));
                }
                Some(v)
            },
            _ => {
                proof {
                    assert(false);
                }
                None
            },
        }
    }

    /// How many values are left in this drain.
    pub fn remaining(&self) -> (n: usize)
        ensures
            n == self.remaining_spec(),
    {
        self.limit
    }

    /// True if the producing half has dropped.
    pub fn is_closed(&self) -> (b: bool)
        ensures
            b == self.is_closed_spec(),
    {
        self.ch.is_closed()
    }

    /// Hands the channel back; everything consumed is already committed.
    pub fn finish(self) -> (ch: Channel<T>)
        requires
            self.wf(),
        ensures
            ch.wf(),
            ch@ == self.source_view().subrange(
                self.taken_spec() as int,
                self.source_view().len() as int,
            ),
            ch.closed_spec() == self.is_closed_spec(),
            ch.capacity_spec() == self.capacity_spec(),
            ch.sender_waker() == self.sender_waker(),
            ch.receiver_waker() == self.receiver_waker(),
    {
        let Drain { ch, taken: _, limit: _, source: _ } = self;
        ch
    }
}

/// Two channel states that agree on ring, cursors, and stamps satisfy the
/// slot invariants together: the closed flag and the wakers play no part in
/// them.
proof fn lemma_slots_ok_untouched<T>(a: &Channel<T>, b: &Channel<T>)
    requires
        a.slots_ok(),
        a.ring == b.ring,
        a.head_seq@ == b.head_seq@,
        a.tail_seq@ == b.tail_seq@,
        a.stamps@ == b.stamps@,
    ensures
        b.slots_ok(),
{
    reveal(Channel::slots_ok);
    let cap = b.capacity_spec();
    assert forall|i: int| 0 <= i < cap implies #[trigger] b.slot_ok(i) by {
        assert(a.slot_ok(i));
        assert forall|k: nat|
            b.seq_in_window(k) && #[trigger] (k % cap) == i implies b.stamps@[i] == k + 1
            && b.ring.cells()[i].value() is Some by {
            assert(a.seq_in_window(k));
        }
        if !b.slot_live(i) {
            assert(!a.slot_live(i)) by {
                if a.slot_live(i) {
                    let k = choose|k: nat| a.seq_in_window(k) && #[trigger] (k % cap) == i;
                    assert(b.seq_in_window(k));
                }
            }
        }
    }
}

/// `(x + m) % m == x % m`, phrased for the unbounded cursors.
proof fn lemma_mod_sub_multiples_vanish_wrap(x: nat, m: nat)
    requires
        m > 0,
    ensures
        (x + m) % m == x % m,
{
    vstd::arithmetic::div_mod::lemma_mod_add_multiples_vanish(x as int, m as int);
}

} // verus!
