use vstd::prelude::*;

verus! {

/// How a transposition table entry's score relates to the true value of
/// the position it was stored for, following from why the search stopped:
///
/// - `Exact`: every move was searched and none failed high, so `score` is
///   the position's true value.
/// - `Lower`: a beta cutoff occurred, so the true value is at least
///   `score` (searching further could only find something even better).
/// - `Upper`: every move scored below alpha (a fail-low), so the true
///   value is at most `score`.
#[derive(Debug, Clone, Copy, PartialEq, Eq, Structural)]
pub enum Bound {
    Exact,
    Lower,
    Upper,
}

#[derive(Debug, Clone, Copy)]
pub struct TTEntry {
    pub key: u64,
    pub depth: u32,
    pub score: i32,
    pub bound: Bound,
}

/// `n` is a power of two that a `u64` can hold.
pub open spec fn is_pow2(n: nat) -> bool {
    exists|e: nat| e < 64 && n == #[trigger] vstd::arithmetic::power2::pow2(e)
}

/// `p` is the largest power of two at most `n` (1 for `n` = 0).
pub open spec fn largest_pow2_within(n: nat, p: nat) -> bool {
    &&& is_pow2(p)
    &&& (p <= n || p == 1)
    &&& n < 2 * p
}

/// The bytes one table slot takes (at least one).
pub open spec fn slot_bytes() -> nat {
    let s = vstd::layout::size_of::<Option<TTEntry>>();
    if s == 0 { 1 } else { s }
}

/// A fixed-size, always-replace transposition table keyed by Zobrist hash.
///
/// Table size is rounded down to a power of two so the bucket index is a
/// cheap bitmask instead of a modulo. "Always-replace" means a new store
/// simply overwrites whatever was in its bucket, collision or not — no
/// aging or depth-preferred replacement scheme yet.
pub struct TranspositionTable {
    entries: Vec<Option<TTEntry>>,
    mask: usize,
}

impl TranspositionTable {
    /// The table has a power-of-two number of slots and a mask one less.
    pub closed spec fn wf(&self) -> bool {
        &&& is_pow2(self.entries@.len())
        &&& self.mask + 1 == self.entries@.len()
    }

    /// The number of slots.
    pub closed spec fn slots(&self) -> nat {
        self.entries@.len()
    }

    /// The slot a key lands in: the key's low bits under the mask.
    pub closed spec fn slot(&self, key: u64) -> int {
        (key & (self.mask as u64)) as int
    }

    /// What slot `i` holds.
    pub closed spec fn entry_at(&self, i: int) -> Option<TTEntry> {
        self.entries@[i]
    }

    /// What looking up `key` finds: the entry in its slot, if it was stored
    /// for that very key.
    pub open spec fn lookup(&self, key: u64) -> Option<TTEntry> {
        match self.entry_at(self.slot(key)) {
            Some(e) => if e.key == key { Some(e) } else { None },
            None => None,
        }
    }

    /// A key lands in the slot its remainder by the number of slots names:
    /// a slot inside the table, shared by keys that many apart.
    pub proof fn lemma_slot(&self, key: u64)
        requires
            self.wf(),
        ensures
            0 <= self.slot(key) < self.slots(),
            self.slot(key) == (key as int) % (self.slots() as int),
    {
        let e = choose|e: nat| e < 64 && self.entries@.len() == #[trigger] vstd::arithmetic::power2::pow2(e);
        vstd::arithmetic::power2::lemma_pow2_pos(e);
        vstd::arithmetic::power2::lemma_pow2_strictly_increases(e, 64);
        vstd::arithmetic::power2::lemma2_to64();
        vstd::bits::lemma_u64_low_bits_mask_is_mod(key, e);
        assert(vstd::bits::low_bits_mask(e) == self.mask);
        assert((self.mask as u64) == (vstd::bits::low_bits_mask(e) as u64));
        assert((vstd::arithmetic::power2::pow2(e) as u64) as int == self.slots());
    }

    /// Keys a whole table apart land in the same slot, so the later store
    /// of the two replaces the earlier.
    pub proof fn lemma_slots_apart_collide(&self, key: u64)
        requires
            self.wf(),
            key + self.slots() <= u64::MAX,
        ensures
            self.slot(key) == self.slot((key + self.slots()) as u64),
    {
        self.lemma_slot(key);
        self.lemma_slot((key + self.slots()) as u64);
        vstd::arithmetic::div_mod::lemma_mod_add_multiples_vanish(key as int, self.slots() as int);
    }

    /// Builds a table sized to roughly `size_mb` megabytes: the number of
    /// slots that many bytes hold, rounded down to a power of two (one slot
    /// at least), and every slot empty.
    pub fn new(size_mb: usize) -> (t: Self)
        requires
            size_mb * 1048576 <= usize::MAX,
        ensures
            t.wf(),
            largest_pow2_within((size_mb * 1048576) as nat / slot_bytes(), t.slots()),
            forall|i: int| 0 <= i < t.slots() ==> (#[trigger] t.entry_at(i)) is None,
            forall|k: u64| #[trigger] t.lookup(k) is None,
    {
        let size = core::mem::size_of::<Option<TTEntry>>();
        let slot = if size == 0 { 1 } else { size };
        let bytes = size_mb * 1048576;
        let wanted = bytes / slot;
        let mut capacity: usize = 1;
        let ghost mut e: nat = 0;
        proof { vstd::arithmetic::power2::lemma2_to64(); }
        while capacity <= wanted / 2
            invariant
                capacity as nat == vstd::arithmetic::power2::pow2(e),
                e < 64,
                1 <= capacity,
                capacity <= wanted || capacity == 1,
            decreases wanted - capacity,
        {
            proof {
                vstd::arithmetic::power2::lemma_pow2_unfold(e + 1);
                vstd::arithmetic::power2::lemma2_to64();
                if e + 1 >= 64 {
                    if e + 1 > 64 {
                        vstd::arithmetic::power2::lemma_pow2_strictly_increases(64, e + 1);
                    }
                }
                e = e + 1;
            }
            capacity = capacity * 2;
        }
        let mut entries: Vec<Option<TTEntry>> = Vec::new();
        while entries.len() < capacity
            invariant
                entries@.len() <= capacity,
                forall|i: int| 0 <= i < entries@.len() ==> (#[trigger] entries@[i]) is None,
            decreases capacity - entries@.len(),
        {
            entries.push(None);
        }
        let t = TranspositionTable { entries, mask: capacity - 1 };
        assert(is_pow2(t.entries@.len()));
        proof {
            assert forall|k: u64| #[trigger] t.lookup(k) is None by {
                t.lemma_slot(k);
            }
        }
        t
    }

    /// The number of slots.
    pub fn capacity(&self) -> (n: usize)
        requires
            self.wf(),
        ensures
            n == self.slots(),
    {
        self.entries.len()
    }

    fn index(&self, key: u64) -> (i: usize)
        requires
            self.wf(),
        ensures
            i == self.slot(key),
            i < self.slots(),
    {
        proof { self.lemma_slot(key); }
        (key & (self.mask as u64)) as usize
    }

    /// Looks up `key`, returning `None` on a miss or a hash collision with
    /// a different position (the stored key doesn't match).
    pub fn get(&self, key: u64) -> (r: Option<TTEntry>)
        requires
            self.wf(),
        ensures
            r == self.lookup(key),
            r matches Some(e) ==> e.key == key,
    {
        match self.entries[self.index(key)] {
            Some(entry) => if entry.key == key { Some(entry) } else { None },
            None => None,
        }
    }

    /// Stores `entry` in its key's slot, replacing whatever was there. A
    /// lookup of the entry's key then finds it; lookups of keys in other
    /// slots find what they found before.
    pub fn store(&mut self, entry: TTEntry)
        requires
            old(self).wf(),
        ensures
            final(self).wf(),
            final(self).slots() == old(self).slots(),
            forall|k: u64| #[trigger] final(self).slot(k) == old(self).slot(k),
            forall|i: int| 0 <= i < final(self).slots() ==> #[trigger] final(self).entry_at(i) == if i == old(self).slot(entry.key) {
                Some(entry)
            } else {
                old(self).entry_at(i)
            },
            final(self).lookup(entry.key) == Some(entry),
            forall|k: u64| old(self).slot(k) != old(self).slot(entry.key) ==> #[trigger] final(self).lookup(k) == old(self).lookup(k),
    {
        let index = self.index(entry.key);
        self.entries.set(index, Some(entry));
        proof {
            assert forall|k: u64| old(self).slot(k) != old(self).slot(entry.key) implies #[trigger] self.lookup(k) == old(self).lookup(k) by {
                old(self).lemma_slot(k);
            }
        }
    }
}

} // verus!
