//! Fixed-capacity ring storage and the sequence-number arithmetic that the
//! channel protocols are built on.
//!
//! A ring buffer maps an unbounded sequence number to a physical slot index
//! by reducing it modulo its capacity, which must be a positive power of
//! two.  Sequence numbers themselves are kept in machine words and wrap at
//! the integer width, not at the capacity; the lemmas in this module relate
//! the wrapped values to their unbounded counterparts.

use vstd::prelude::*;

verus! {

use vstd::arithmetic::power2::{pow2, is_pow2, is_pow2_equiv, is_pow2_exists, lemma_pow2,
    lemma_pow2_adds, lemma_pow2_pos, lemma_pow2_strictly_increases};
use vstd::arithmetic::power::pow;
use vstd::arithmetic::div_mod::{lemma_small_mod, lemma_mod_equivalence,
    lemma_mod_add_multiples_vanish, lemma_mod_sub_multiples_vanish, lemma_add_mod_noop,
    lemma_mod_mod, lemma_mod_bound};
use vstd::layout::unsigned_int_max_values;
use vstd::wrapping::usize_specs;

/// One more than the largest sequence number a cursor can hold: cursors and
/// slot stamps wrap at this modulus.
pub open spec fn wrap_modulus() -> nat {
    usize::MAX as nat + 1
}

/// Extracts the exponent of a power of two.
pub proof fn lemma_pow2_exponent(n: nat) -> (e: nat)
    requires
        is_pow2(n as int),
    ensures
        n == pow2(e),
{
    broadcast use is_pow2_equiv;

    assert(is_pow2_exists(n as int));
    let i = choose|i: nat| pow(2, i) == n as int;
    assert(pow2(i) == n) by {
        lemma_pow2(i);
    }
    i
}

/// A power-of-two capacity that fits in a machine word is at most half the
/// cursor wrap modulus.
pub proof fn lemma_capacity_at_most_half(cap: nat)
    requires
        is_pow2(cap as int),
        cap <= usize::MAX,
    ensures
        2 * cap <= wrap_modulus(),
{
    let e = lemma_pow2_exponent(cap);
    let bits = usize::BITS as nat;
    assert(wrap_modulus() == pow2(bits)) by {
        unsigned_int_max_values();
    }
    assert(e < bits) by {
        if e == bits {
            assert(cap == wrap_modulus());
        } else if e > bits {
            lemma_pow2_strictly_increases(bits, e);
        }
    }
    assert(2 * cap == pow2(e + 1)) by {
        lemma_pow2_adds(e, 1);
        vstd::arithmetic::power2::lemma2_to64();
    }
    if e + 1 < bits {
        lemma_pow2_strictly_increases(e + 1, bits);
    }
}

/// A power-of-two capacity that fits in a machine word divides the cursor
/// wrap modulus, so reducing a sequence number at the word width and then by
/// the capacity is the same as reducing it by the capacity directly.
pub proof fn lemma_mod_mod_capacity(x: nat, cap: nat)
    requires
        is_pow2(cap as int),
        cap <= usize::MAX,
    ensures
        (x % wrap_modulus()) % cap == x % cap,
{
    let e = lemma_pow2_exponent(cap);
    let bits = usize::BITS as nat;
    assert(wrap_modulus() == pow2(bits)) by {
        unsigned_int_max_values();
    }
    assert(e < bits) by {
        if e == bits {
            assert(cap == wrap_modulus());
        } else if e > bits {
            lemma_pow2_strictly_increases(bits, e);
        }
    }
    let q = pow2((bits - e) as nat);
    assert(cap * q == wrap_modulus()) by {
        lemma_pow2_adds(e, (bits - e) as nat);
        vstd::arithmetic::mul::lemma_mul_is_commutative(cap as int, q as int);
    }
    assert(q > 0) by {
        lemma_pow2_pos((bits - e) as nat);
    }
    assert(cap > 0) by {
        lemma_pow2_pos(e);
    }
    lemma_mod_mod(x as int, cap as int, q as int);
}

/// A power of two is positive.
pub proof fn lemma_pow2_capacity_positive(n: nat)
    requires
        is_pow2(n as int),
    ensures
        n >= 1,
{
    reveal(is_pow2);
}

/// Sequence numbers less than a full capacity apart land on distinct slots.
pub proof fn lemma_near_mod_distinct(k1: nat, k2: nat, cap: nat)
    requires
        cap > 0,
        k1 != k2,
        k1 - k2 < cap,
        k2 - k1 < cap,
    ensures
        k1 % cap != k2 % cap,
{
    if k1 % cap == k2 % cap {
        lemma_congruent_in_window(k1 as int, k2 as int, cap as int);
    }
}

/// Two integers that are congruent modulo `m` and less than `m` apart are
/// equal.
pub proof fn lemma_congruent_in_window(a: int, b: int, m: int)
    requires
        0 < m,
        a % m == b % m,
        -m < a - b < m,
    ensures
        a == b,
{
    lemma_mod_equivalence(a, b, m);
    if a - b > 0 {
        lemma_small_mod((a - b) as nat, m as nat);
    } else if a - b < 0 {
        lemma_mod_add_multiples_vanish(a - b, m);
        lemma_small_mod((a - b + m) as nat, m as nat);
    }
}

/// Wrapped cursor values less than a full modulus apart are equal exactly
/// when their unbounded counterparts are.
pub proof fn lemma_wrapped_eq(x: nat, y: nat)
    requires
        x - y < wrap_modulus(),
        y - x < wrap_modulus(),
    ensures
        (x % wrap_modulus() == y % wrap_modulus()) <==> x == y,
{
    let w = wrap_modulus() as int;
    if x % wrap_modulus() == y % wrap_modulus() {
        lemma_congruent_in_window(x as int, y as int, w);
    }
}

/// The wrapping difference of two wrapped cursors recovers the unbounded
/// distance between them, as long as that distance fits in a machine word.
pub proof fn lemma_wrapped_dist(h: nat, t: nat)
    requires
        h <= t,
        t - h <= usize::MAX,
    ensures
        usize_specs::wrapping_sub(
            ((t % wrap_modulus()) as usize),
            ((h % wrap_modulus()) as usize),
        ) == t - h,
{
    let w = wrap_modulus() as int;
    let d = t - h;
    let hw = h % wrap_modulus();
    let tw = t % wrap_modulus();
    assert(d % w == d) by {
        lemma_small_mod(d as nat, wrap_modulus());
    }
    assert(tw == (hw + d) % w) by {
        lemma_add_mod_noop(h as int, d, w);
    }
    if hw + d < w {
        assert(tw == hw + d) by {
            lemma_small_mod((hw + d) as nat, wrap_modulus());
        }
    } else {
        assert(tw == hw + d - w) by {
            lemma_mod_sub_multiples_vanish(hw + d, w);
            lemma_small_mod((hw + d - w) as nat, wrap_modulus());
        }
    }
}

/// Advancing a wrapped cursor tracks advancing its unbounded counterpart.
pub proof fn lemma_wrapped_add(x: nat, k: nat)
    requires
        k <= usize::MAX,
    ensures
        (x + k) % wrap_modulus() == usize_specs::wrapping_add(
            ((x % wrap_modulus()) as usize),
            (k as usize),
        ),
{
    let w = wrap_modulus() as int;
    let xw = (x % wrap_modulus()) as int;
    assert(k as int % w == k as int) by {
        lemma_small_mod(k, wrap_modulus());
    }
    assert((x + k) as int % w == (xw + k) % w) by {
        lemma_add_mod_noop(x as int, k as int, w);
    }
    if xw + k < w {
        lemma_small_mod((xw + k) as nat, wrap_modulus());
    } else {
        lemma_mod_sub_multiples_vanish(xw + k, w);
        lemma_small_mod((xw + k - w) as nat, wrap_modulus());
    }
}

/// Reports whether `n` is a positive power of two, the only capacities a
/// ring accepts.
pub fn capacity_is_valid(n: usize) -> (b: bool)
    ensures
        b == is_pow2(n as int),
{
    if n == 0 {
        proof {
            reveal(is_pow2);
        }
        return false;
    }
    let mut m: usize = n;
    while m % 2 == 0
        invariant
            1 <= m <= n,
            is_pow2(m as int) == is_pow2(n as int),
        decreases m,
    {
        proof {
            reveal(is_pow2);
        }
        m = m / 2;
    }
    proof {
        reveal(is_pow2);
    }
    m == 1
}

/// A storage cell that can hold at most one value, with its occupancy
/// tracked logically rather than by the language: reading moves the value
/// out, and writing requires the cell to be observably empty, so a value is
/// never silently overwritten and never handed out twice.
pub trait Storable: Sized {
    type Item;

    /// The value this cell currently holds, if any.
    spec fn stored(&self) -> Option<Self::Item>;

    fn write(&mut self, value: Self::Item)
        requires
            old(self).stored() is None,
        ensures
            final(self).stored() == Some(value),
    ;

    fn read(&mut self) -> (value: Self::Item)
        requires
            old(self).stored() is Some,
        ensures
            old(self).stored() == Some(value),
            final(self).stored() is None,
    ;

    fn drop_in_place(&mut self)
        requires
            old(self).stored() is Some,
        ensures
            final(self).stored() is None,
    ;
}

impl<T> Storable for Option<T> {
    type Item = T;

    open spec fn stored(&self) -> Option<T> {
        *self
    }

    fn write(&mut self, value: T) {
        *self = Some(value);
    }

    fn read(&mut self) -> (value: T) {
        self.take().unwrap()
    }

    fn drop_in_place(&mut self) {
        *self = None;
    }
}

/// A fixed-length array of storage cells addressed by sequence number.
///
/// The length must be a positive power of two; `index` reduces a sequence
/// number modulo the length to pick the physical cell.  The ring performs no
/// synchronization and no occupancy tracking across cells of its own: which
/// cells hold live values is derived by the channel protocols from their
/// cursors or stamps.
pub struct RingBuffer<S: Storable> {
    cells: Vec<S>,
}

impl<S: Storable> RingBuffer<S> {
    /// The cells of the ring, in slot order.
    pub closed spec fn cells(&self) -> Seq<S> {
        self.cells@
    }

    pub open spec fn capacity_spec(&self) -> nat {
        self.cells().len()
    }

    pub open spec fn wf(&self) -> bool {
        is_pow2(self.capacity_spec() as int)
    }

    pub fn from_cells(cells: Vec<S>) -> (ring: Self)
        requires
            is_pow2(cells@.len() as int),
        ensures
            ring.cells() == cells@,
            ring.wf(),
    {
        RingBuffer { cells }
    }

    pub fn capacity(&self) -> (n: usize)
        ensures
            n == self.capacity_spec(),
    {
        self.cells.len()
    }

    /// Maps a (wrapped) sequence number to the index of its slot.
    pub fn index(&self, seq: usize) -> (i: usize)
        requires
            self.wf(),
        ensures
            i == seq as int % self.capacity_spec() as int,
            i < self.capacity_spec(),
    {
        proof {
            reveal(is_pow2);
            lemma_mod_bound(seq as int, self.capacity_spec() as int);
        }
        seq % self.cells.len()
    }

    pub fn cell(&self, i: usize) -> (cell: &S)
        requires
            i < self.capacity_spec(),
        ensures
            *cell == self.cells()[i as int],
    {
        &self.cells[i]
    }

    pub fn cell_mut(&mut self, i: usize) -> (cell: &mut S)
        requires
            i < old(self).capacity_spec(),
        ensures
            *cell == old(self).cells()[i as int],
            final(self).cells() == old(self).cells().update(i as int, *final(cell)),
    {
        &mut self.cells[i]
    }
}

impl<T> RingBuffer<Option<T>> {
    /// Stores a value in slot `i`, which must be observably empty: the
    /// channel protocols establish this from their cursors or stamps before
    /// writing, so no live value is ever clobbered.
    pub fn write_at(&mut self, i: usize, value: T)
        requires
            i < old(self).capacity_spec(),
            old(self).cells()[i as int] is None,
        ensures
            final(self).cells() == old(self).cells().update(i as int, Some(value)),
    {
        let cell = self.cell_mut(i);
        cell.write(value);
    }

    /// Moves the value out of slot `i`, which must hold one.
    pub fn read_at(&mut self, i: usize) -> (value: T)
        requires
            i < old(self).capacity_spec(),
            old(self).cells()[i as int] is Some,
        ensures
            Some(value) == old(self).cells()[i as int],
            final(self).cells() == old(self).cells().update(i as int, None),
    {
        let cell = self.cell_mut(i);
        cell.read()
    }
}

} // verus!
