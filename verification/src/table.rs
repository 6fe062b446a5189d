//! Fixed-capacity associative storage addressed by a reduced 64-bit key.
//!
//! A `Table` trades hash-collision correctness for guaranteed O(1),
//! allocation-free access: a key selects a slot by `hash(key) % capacity`
//! with no collision resolution, so two distinct keys that reduce to the
//! same slot silently share that slot's value. The capacity is
//! `next_power_of_two(size * 1000) + 1`; the `+ 1` deliberately breaks the
//! power-of-two alignment so that an identity hash of structured keys does
//! not alias onto a small subset of slots.

use vstd::prelude::*;

verus! {

/// 2 to the power `k`.
pub open spec fn pow2(k: nat) -> nat
    decreases k,
{
    if k == 0 {
        1
    } else {
        2 * pow2((k - 1) as nat)
    }
}

/// True when `n` is a power of two.
pub open spec fn is_pow2(n: nat) -> bool {
    exists|k: nat| n == pow2(k)
}

/// True when `cap` is the backing size a table built from `size` has:
/// the least power of two at or above `size * 1000`, plus one.
pub open spec fn is_table_capacity(size: nat, cap: nat) -> bool {
    &&& cap >= 2
    &&& is_pow2((cap - 1) as nat)
    &&& cap - 1 >= size * 1000
    &&& (cap - 1 == 1 || cap - 1 < 2 * (size * 1000))
}

/// Powers of two grow with their exponent.
pub proof fn lemma_pow2_monotonic(a: nat, b: nat)
    requires
        a <= b,
    ensures
        pow2(a) <= pow2(b),
    decreases b,
{
    if a < b {
        lemma_pow2_monotonic(a, (b - 1) as nat);
    }
}

/// A table's capacity is a function of the requested size alone.
pub proof fn lemma_table_capacity_unique(size: nat, c1: nat, c2: nat)
    requires
        is_table_capacity(size, c1),
        is_table_capacity(size, c2),
    ensures
        c1 == c2,
{
    let p1 = (c1 - 1) as nat;
    let p2 = (c2 - 1) as nat;
    let k1 = choose|k: nat| p1 == pow2(k);
    let k2 = choose|k: nat| p2 == pow2(k);
    if p1 == 1 || p2 == 1 {
        if p1 == 1 && p2 != 1 {
            assert(size * 1000 <= 1);
            assert(p2 < 2 * (size * 1000));
        }
        if p2 == 1 && p1 != 1 {
            assert(size * 1000 <= 1);
            assert(p1 < 2 * (size * 1000));
        }
    } else {
        if k1 < k2 {
            lemma_pow2_monotonic(k1 + 1, k2);
            assert(pow2(k1 + 1) == 2 * pow2(k1));
            assert(p2 >= 2 * p1);
            assert(p2 < 2 * (size * 1000) <= 2 * p1);
        }
        if k2 < k1 {
            lemma_pow2_monotonic(k2 + 1, k1);
            assert(pow2(k2 + 1) == 2 * pow2(k2));
            assert(p1 >= 2 * p2);
            assert(p1 < 2 * (size * 1000) <= 2 * p2);
        }
    }
}

/// The slot a 64-bit key selects in a table of `len` slots.
pub open spec fn slot_of(len: nat, key: u64) -> int
    recommends
        len >= 1,
{
    (key as int) % (len as int)
}

/// The 64-bit key of a 2D coordinate: the first component in the high
/// 32 bits, the second in the low 32 bits.
pub open spec fn vector_key(x: u32, y: u32) -> u64 {
    ((x as u64) * 0x1_0000_0000 + (y as u64)) as u64
}

/// Identity reduction of a 64-bit key: a placeholder for a diffusing hash;
/// spreading structured keys is achieved by the table's size instead.
pub fn hash_u64(seed: u64) -> (h: u64)
    ensures
        h == seed,
{
    seed
}

/// Combine a 2D coordinate into one 64-bit key.
pub fn vector_hash(x: u32, y: u32) -> (k: u64)
    ensures
        k == vector_key(x, y),
{
    let k = ((x as u64) << 32u64) | (y as u64);
    proof {
        let xw = x as u64;
        let yw = y as u64;
        assert((xw << 32u64) | yw == (xw * 0x1_0000_0000 + yw) as u64) by (bit_vector)
            requires
                xw < 0x1_0000_0000,
                yw < 0x1_0000_0000,
        ;
    }
    k
}

/// The least power of two at or above `n`.
pub fn next_power_of_two_at_least(n: usize) -> (p: usize)
    requires
        2 * n <= usize::MAX,
    ensures
        is_pow2(p as nat),
        p >= n,
        p == 1 || p < 2 * n,
{
    let mut p: usize = 1;
    proof {
        assert(1nat == pow2(0));
    }
    while p < n
        invariant
            1 <= p,
            is_pow2(p as nat),
            p == 1 || p < 2 * n,
            2 * n <= usize::MAX,
        decreases 2 * n - p,
    {
        proof {
            let k = choose|k: nat| p as nat == pow2(k);
            assert(2 * p as nat == pow2(k + 1));
        }
        p = 2 * p;
    }
    p
}

/// A value a table slot can hold: it has a canonical empty value.
pub trait Slot: View + Sized {
    /// The view of an empty slot.
    spec fn empty_view() -> Self::V;

    /// Produce an empty slot value.
    fn empty() -> (r: Self)
        ensures
            r@ == Self::empty_view(),
    ;
}

/// A fixed-capacity table of default-initialized slots, addressed by a
/// reduced 64-bit key. Its view is the sequence of its slots' views; the
/// length of that sequence never changes after construction.
pub struct Table<T: Slot> {
    entries: Vec<T>,
    capacity: usize,
}

impl<T: Slot> View for Table<T> {
    type V = Seq<T::V>;

    closed spec fn view(&self) -> Seq<T::V> {
        self.entries@.map(|i: int, e: T| e@)
    }
}

impl<T: Slot> Table<T> {
    /// The backing storage has exactly the fixed capacity, and at least one
    /// slot, so every reduced key selects a valid slot.
    pub closed spec fn wf(&self) -> bool {
        &&& self.entries@.len() == self.capacity
        &&& self.capacity >= 1
    }

    /// Create a table of `next_power_of_two(size * 1000) + 1` empty slots.
    pub fn new(size: usize) -> (r: Self)
        requires
            1 <= size,
            size * 2000 <= usize::MAX,
        ensures
            r.wf(),
            is_table_capacity(size as nat, r@.len()),
            forall|i: int| 0 <= i < r@.len() ==> r@[i] == T::empty_view(),
    {
        let n = size * 1000;
        let p = next_power_of_two_at_least(n);
        let capacity = p + 1;
        let mut entries: Vec<T> = Vec::new();
        while entries.len() < capacity
            invariant
                entries@.len() <= capacity,
                forall|i: int| 0 <= i < entries@.len() ==> entries@[i]@ == T::empty_view(),
            decreases capacity - entries@.len(),
        {
            entries.push(T::empty());
        }
        let r = Table { entries, capacity };
        proof {
            assert forall|i: int| 0 <= i < r@.len() implies r@[i] == T::empty_view() by {
                assert(r@[i] == r.entries@[i]@);
            }
        }
        r
    }

    /// The number of slots, which equals the fixed capacity.
    pub fn count(&self) -> (c: usize)
        requires
            self.wf(),
        ensures
            c == self@.len(),
    {
        self.entries.len()
    }

    /// Reduce a 64-bit key to a valid slot index.
    fn index(&self, key: u64) -> (i: usize)
        requires
            self.wf(),
        ensures
            i == slot_of(self@.len(), key),
            i < self@.len(),
    {
        (hash_u64(key) % self.entries.len() as u64) as usize
    }

    /// Borrow the slot a 2D key selects.
    pub fn get_vector(&self, x: u32, y: u32) -> (r: &T)
        requires
            self.wf(),
        ensures
            r@ == self@[slot_of(self@.len(), vector_key(x, y))],
    {
        let idx = self.index(vector_hash(x, y));
        &self.entries[idx]
    }

    /// Mutably borrow the slot a 2D key selects.
    pub fn get_vector_mut(&mut self, x: u32, y: u32) -> (r: &mut T)
        requires
            old(self).wf(),
        ensures
            (*r)@ == old(self)@[slot_of(old(self)@.len(), vector_key(x, y))],
            final(self)@ == old(self)@.update(
                slot_of(old(self)@.len(), vector_key(x, y)),
                (*final(r))@,
            ),
            final(self).wf(),
            final(self)@.len() == old(self)@.len(),
    {
        let idx = self.index(vector_hash(x, y));
        &mut self.entries[idx]
    }

    /// Borrow the slot a scalar key selects.
    pub fn get_scalar(&self, s: u32) -> (r: &T)
        requires
            self.wf(),
        ensures
            r@ == self@[slot_of(self@.len(), s as u64)],
    {
        let idx = self.index(s as u64);
        &self.entries[idx]
    }

    /// Mutably borrow the slot a scalar key selects.
    pub fn get_scalar_mut(&mut self, s: u32) -> (r: &mut T)
        requires
            old(self).wf(),
        ensures
            (*r)@ == old(self)@[slot_of(old(self)@.len(), s as u64)],
            final(self)@ == old(self)@.update(
                slot_of(old(self)@.len(), s as u64),
                (*final(r))@,
            ),
            final(self).wf(),
            final(self)@.len() == old(self)@.len(),
    {
        let idx = self.index(s as u64);
        &mut self.entries[idx]
    }

    /// Reset every slot to empty; the capacity is unchanged.
    pub fn clear(&mut self)
        requires
            old(self).wf(),
        ensures
            final(self).wf(),
            final(self)@.len() == old(self)@.len(),
            forall|i: int| 0 <= i < final(self)@.len() ==> final(self)@[i] == T::empty_view(),
    {
        self.entries.clear();
        while self.entries.len() < self.capacity
            invariant
                self.capacity == old(self).capacity,
                old(self).wf(),
                self.entries@.len() <= self.capacity,
                forall|i: int| 0 <= i < self.entries@.len() ==> self.entries@[i]@ == T::empty_view(),
            decreases self.capacity - self.entries@.len(),
        {
            self.entries.push(T::empty());
        }
    }
}

} // verus!
