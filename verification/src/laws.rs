//! First-in-first-out delivery, stated over the queue model shared by both
//! channels.
//!
//! Every send operation's contract appends the sent value to the channel's
//! view, and every receive operation's contract removes and returns the
//! view's front.  The lemmas here close the loop: folding sends over a
//! channel appends the whole sequence in order, and the `k`-th receive then
//! yields the `k`-th value sent — no loss, no duplication, no reordering.

use vstd::prelude::*;

verus! {

/// The queue contents after sending every value of `vs`, in order, into a
/// channel that holds `q` (each send appends one value, as `try_send`
/// ensures on success).
pub open spec fn after_sends<T>(q: Seq<T>, vs: Seq<T>) -> Seq<T>
    decreases vs.len(),
{
    if vs.len() == 0 {
        q
    } else {
        after_sends(q.push(vs[0]), vs.subrange(1, vs.len() as int))
    }
}

/// The queue contents after `k` receives from a channel that holds `s`
/// (each receive removes the front, as `try_recv` ensures on success).
pub open spec fn after_recvs<T>(s: Seq<T>, k: nat) -> Seq<T>
    decreases k,
{
    if k == 0 {
        s
    } else {
        let prev = after_recvs(s, (k - 1) as nat);
        if prev.len() > 0 {
            prev.subrange(1, prev.len() as int)
        } else {
            prev
        }
    }
}

/// Sending a sequence of values delivers exactly that sequence, appended
/// in order: the channel never reorders, drops, or duplicates.
pub proof fn lemma_fifo_sends<T>(q: Seq<T>, vs: Seq<T>)
    ensures
        after_sends(q, vs) == q + vs,
    decreases vs.len(),
{
    if vs.len() == 0 {
        assert(after_sends(q, vs) =~= q + vs);
    } else {
        lemma_fifo_sends(q.push(vs[0]), vs.subrange(1, vs.len() as int));
        assert(q.push(vs[0]) + vs.subrange(1, vs.len() as int) =~= q + vs);
    }
}

/// After `k` values have been received from a channel that held `s`, the
/// channel holds the values from position `k` on, so the next receive
/// yields `s[k]`: the receiver observes exactly `s`, front to back.
pub proof fn lemma_fifo_delivery<T>(s: Seq<T>, k: nat)
    requires
        k <= s.len(),
    ensures
        after_recvs(s, k) == s.subrange(k as int, s.len() as int),
        k < s.len() ==> after_recvs(s, k)[0] == s[k as int],
    decreases k,
{
    if k == 0 {
        assert(after_recvs(s, k) =~= s.subrange(0, s.len() as int));
    } else {
        lemma_fifo_delivery(s, (k - 1) as nat);
        assert(after_recvs(s, k) =~= s.subrange(k as int, s.len() as int));
    }
}

/// Splitting a batched read: the values a drain hands out before it is
/// abandoned (`Drain::next` yields position `taken` of the snapshot),
/// followed by what the channel still holds afterwards (`Drain::finish`
/// leaves the values from position `taken` on), are exactly the values the
/// channel held — nothing repeated, nothing lost, whatever `k` the drain
/// was interrupted at.
pub proof fn lemma_drain_split<T>(s: Seq<T>, k: int)
    requires
        0 <= k <= s.len(),
    ensures
        s.subrange(0, k) + s.subrange(k, s.len() as int) == s,
{
    assert(s.subrange(0, k) + s.subrange(k, s.len() as int) =~= s);
}

/// The two halves together: sending `vs` into an empty channel and then
/// receiving `k` times leaves exactly the values after position `k`, and
/// hands out `vs[k]` next.
pub proof fn lemma_fifo_round_trip<T>(vs: Seq<T>, k: nat)
    requires
        k < vs.len(),
    ensures
        after_recvs(after_sends(Seq::empty(), vs), k)[0] == vs[k as int],
{
    lemma_fifo_sends(Seq::empty(), vs);
    assert(Seq::<T>::empty() + vs =~= vs);
    lemma_fifo_delivery(vs, k);
}

} // verus!
