//! One table: open addressing over a power-of-two array of slots, with the
//! counters of the resize protocol.
use vstd::prelude::*;
use vstd::set_lib::{lemma_int_range, lemma_len_subset, lemma_map_size_bound, set_int_range};
use vstd::arithmetic::div_mod::{lemma_small_mod, lemma_mod_add_multiples_vanish, lemma_mod_bound};

use crate::key::{hash_word, HashKey, KeyHasher};
use crate::slot::{key_step_or_stay, lemma_value_advanced, primed, value_advanced, value_step_or_stay, KeySlot, Slot, ValueSlot};

verus! {

/// The largest capacity a table may have: 2^30, so that doubling it and the
/// load-limit arithmetic (three times the capacity, four times the key cells
/// in use) stay within a 32-bit `usize`.
pub const MAX_CAPACITY: usize = 0x4000_0000;

/// Number of source slots one call of `copy_chunk` migrates.
pub const COPY_CHUNK_SIZE: usize = 32;

/// Added to the base-2 logarithm of the capacity to give the reprobe limit.
pub const REPROBE_SLACK: usize = 10;

pub open spec fn is_pow2(n: nat) -> bool
    decreases n,
{
    if n == 1 {
        true
    } else if n < 2 || n % 2 == 1 {
        false
    } else {
        is_pow2((n / 2) as nat)
    }
}

/// `r` is the smallest power of two that is at least `n` and at least 1.
pub open spec fn is_capacity_for(n: nat, r: nat) -> bool {
    is_pow2(r) && r >= n && (r == 1 || r / 2 < n)
}

/// Smallest power of two that is at least `max(n, 1)`.
pub fn effective_capacity(n: usize) -> (r: usize)
    requires
        n <= MAX_CAPACITY,
    ensures
        is_capacity_for(n as nat, r as nat),
        r <= MAX_CAPACITY,
{
    let mut p: usize = 1;
    while p < n
        invariant
            is_pow2(p as nat),
            p == 1 || p / 2 < n,
            1 <= p <= 2 * MAX_CAPACITY,
            n <= MAX_CAPACITY,
        decreases 2 * MAX_CAPACITY - p,
    {
        p = p * 2;
    }
    proof {
        lemma_pow2_at_most(p as nat, MAX_CAPACITY as nat);
    }
    p
}

proof fn lemma_pow2_max_capacity()
    ensures
        is_pow2(MAX_CAPACITY as nat),
{
    reveal_with_fuel(is_pow2, 32);
}

/// A power of two whose half is below the limit does not exceed it.
proof fn lemma_pow2_at_most(p: nat, m: nat)
    requires
        is_pow2(p),
        m == MAX_CAPACITY,
        p == 1 || p / 2 < m,
    ensures
        p <= m,
{
    lemma_pow2_max_capacity();
    lemma_pow2_le(p, m);
}

proof fn lemma_pow2_le(p: nat, m: nat)
    requires
        is_pow2(p),
        is_pow2(m),
        p == 1 || p / 2 < m,
    ensures
        p <= m,
    decreases p,
{
    if p != 1 {
        if m == 1 {
            assert(is_pow2((p / 2) as nat));
        } else {
            lemma_pow2_le((p / 2) as nat, (m / 2) as nat);
        }
    }
}

/// Base-2 logarithm, rounded down (0 for 0 and 1).
pub open spec fn log2_floor(n: nat) -> nat
    decreases n,
{
    if n <= 1 {
        0
    } else {
        1 + log2_floor(n / 2)
    }
}

/// The reprobe limit of a table: `min(capacity, log2(capacity) + REPROBE_SLACK)`.
pub fn reprobe_limit(capacity: usize) -> (r: usize)
    requires
        1 <= capacity <= MAX_CAPACITY,
    ensures
        r == if capacity < log2_floor(capacity as nat) + REPROBE_SLACK {
            capacity as int
        } else {
            log2_floor(capacity as nat) + REPROBE_SLACK
        },
        1 <= r <= capacity,
{
    let mut bits: usize = 0;
    let mut x: usize = capacity;
    while x > 1
        invariant
            1 <= x <= capacity,
            bits + x <= capacity,
            bits + log2_floor(x as nat) == log2_floor(capacity as nat),
        decreases x,
    {
        x = x / 2;
        bits = bits + 1;
    }
    let limit = bits + REPROBE_SLACK;
    if limit < capacity { limit } else { capacity }
}

/// The key a put works on: an owned key that may be stored if absent, or a
/// key that is only compared.
#[derive(Clone, Copy)]
pub enum KeyCompare<K> {
    Owned(K),
    OnlyCompare(K),
}

impl<K: HashKey> KeyCompare<K> {
    pub open spec fn word(&self) -> u64 {
        match self {
            KeyCompare::Owned(k) => k.word(),
            KeyCompare::OnlyCompare(k) => k.word(),
        }
    }

    pub open spec fn key(&self) -> K {
        match self {
            KeyCompare::Owned(k) => *k,
            KeyCompare::OnlyCompare(k) => *k,
        }
    }

    pub fn to_word(&self) -> (r: u64)
        ensures
            r == self.word(),
    {
        match self {
            KeyCompare::Owned(k) => k.to_word(),
            KeyCompare::OnlyCompare(k) => k.to_word(),
        }
    }
}

/// What a put writes: a value, or a tombstone (a removal).
pub enum PutValue<V> {
    Value(V),
    Tombstone,
}

/// When a put takes effect.
#[derive(Clone, Copy, Debug, PartialEq, Eq, Structural)]
pub enum Match {
    /// Unconditionally.
    Always,
    /// Only over a live value.
    AnyKeyValuePair,
    /// Only where the key has no live value (what migration asks for).
    NoValue,
}

/// Result of a put: the value it displaced, or its value handed back because
/// the table must grow first.
pub enum PutOutcome<V> {
    Done(Option<V>),
    NeedsResize(PutValue<V>),
}

/// The put's condition holds on a mapping.
pub open spec fn matches<V>(cond: Match, m: Map<u64, V>, w: u64) -> bool {
    match cond {
        Match::Always => true,
        Match::AnyKeyValuePair => m.contains_key(w),
        Match::NoValue => !m.contains_key(w),
    }
}

/// The mapping after a put that takes effect.
pub open spec fn put_view<V>(m: Map<u64, V>, w: u64, value: PutValue<V>, cond: Match) -> Map<
    u64,
    V,
> {
    if matches(cond, m, w) {
        match value {
            PutValue::Value(v) => m.insert(w, v),
            PutValue::Tombstone => m.remove(w),
        }
    } else {
        m
    }
}

/// The value a put displaces.
pub open spec fn put_prior<V>(m: Map<u64, V>, w: u64, cond: Match) -> Option<V> {
    if matches(cond, m, w) && m.contains_key(w) {
        Some(m[w])
    } else {
        None
    }
}

/// A hash table of a fixed capacity.
///
/// The ghost map `dist` gives, for each key word that holds a key cell, its
/// probe distance from the word's home slot; `live` is the mapping the table
/// stands for (during a migration, the entries of the slots not yet moved).
pub struct Table<K, V> {
    pub slots: Vec<Slot<K, V>>,
    pub hasher: KeyHasher,
    /// Number of `Value` cells.
    pub size: usize,
    /// Number of key cells that are no longer `Empty`.
    pub slots_used: usize,
    /// A put that would claim a key cell further than this from the home slot
    /// asks for a resize first.
    pub max_probes: usize,
    /// Next source slot to migrate.
    pub copy_idx: usize,
    /// Number of source slots whose migration is finished.
    pub copy_done: usize,
    pub dist: Ghost<Map<u64, nat>>,
    pub live: Ghost<Map<u64, V>>,
}

/// A value below twice the modulus, reduced once.
proof fn lemma_mod_below_twice(x: int, c: int)
    requires
        0 < c,
        0 <= x < 2 * c,
    ensures
        x % c == if x < c { x } else { x - c },
{
    if x < c {
        lemma_small_mod(x as nat, c as nat);
    } else {
        lemma_mod_add_multiples_vanish(x - c, c);
        lemma_small_mod((x - c) as nat, c as nat);
    }
}

impl<K: HashKey, V> Table<K, V> {
    pub open spec fn view(&self) -> Map<u64, V> {
        self.live@
    }

    pub open spec fn cap(&self) -> int {
        self.slots@.len() as int
    }

    /// Home slot of a key word.
    pub open spec fn start(&self, w: u64) -> int {
        hash_word(self.hasher.seed, w) as int % self.cap()
    }

    /// Slot visited at probe distance `d` for a key word.
    pub open spec fn pos(&self, w: u64, d: int) -> int {
        (self.start(w) + d) % self.cap()
    }

    /// Slot that holds the key cell of a word in `dist`.
    pub open spec fn index_of(&self, w: u64) -> int {
        self.pos(w, self.dist@[w] as int)
    }

    /// The key stored for a word in `dist`.
    pub open spec fn key_of(&self, w: u64) -> K {
        self.slots@[self.index_of(w)].key->Key_0
    }

    pub open spec fn has_key(&self, i: int) -> bool {
        self.slots@[i].key is Key
    }

    pub open spec fn key_word(&self, i: int) -> u64 {
        self.slots@[i].key->Key_0.word()
    }

    /// `d` is the probe distance of the first `Empty` key cell on the probe
    /// sequence of `w`: where a fresh key cell for `w` would be claimed.
    pub open spec fn is_first_free(&self, w: u64, d: int) -> bool {
        &&& 0 <= d < self.cap()
        &&& !self.has_key(self.pos(w, d))
        &&& forall|e: int| 0 <= e < d ==> #[trigger] self.has_key(self.pos(w, e))
    }

    /// A fresh key cell for `w` would lie beyond the reprobe limit.
    pub open spec fn beyond_reprobe_limit(&self, w: u64) -> bool {
        exists|d: int| #[trigger] self.is_first_free(w, d) && d > self.max_probes
    }

    /// The shape, the counters and the key cells agree with `dist`.
    pub open spec fn keys_wf(&self) -> bool {
        &&& 0 < self.cap() <= MAX_CAPACITY
        &&& is_pow2(self.cap() as nat)
        &&& self.dist@.dom().finite()
        &&& self.live@.dom().finite()
        &&& self.slots_used == self.dist@.dom().len()
        &&& self.size == self.live@.dom().len()
        &&& self.slots_used * 4 <= self.cap() * 3
        &&& forall|w: u64| #[trigger]
            self.dist@.contains_key(w) ==> {
                &&& self.dist@[w] < self.cap()
                &&& self.has_key(self.index_of(w))
                &&& self.key_word(self.index_of(w)) == w
            }
        &&& forall|w: u64, d: int|
            self.dist@.contains_key(w) && 0 <= d < self.dist@[w] ==> #[trigger] self.has_key(
                self.pos(w, d),
            )
        &&& forall|i: int|
            0 <= i < self.cap() && #[trigger] self.has_key(i) ==> {
                &&& self.dist@.contains_key(self.key_word(i))
                &&& self.index_of(self.key_word(i)) == i
            }
        &&& self.live@.dom().subset_of(self.dist@.dom())
    }

    /// Value cell `i` agrees with `live`.
    pub open spec fn value_wf_at(&self, i: int) -> bool {
        &&& self.slots@[i].value.is_unprimed()
        &&& self.slots@[i].key is Empty ==> self.slots@[i].value is Empty
        &&& self.slots@[i].key is Key ==> {
            &&& (self.slots@[i].value is Value <==> self.live@.contains_key(self.key_word(i)))
            &&& self.slots@[i].value is Value ==> self.slots@[i].value->Value_0
                == self.live@[self.key_word(i)]
        }
    }

    /// A table in use: no migration has started, and every value cell agrees
    /// with `live`.
    pub open spec fn wf(&self) -> bool {
        &&& self.keys_wf()
        &&& self.copy_idx == 0
        &&& self.copy_done == 0
        &&& forall|i: int| 0 <= i < self.cap() ==> #[trigger] self.value_wf_at(i)
    }

    /// An empty table of capacity `next_power_of_two(max(capacity, 1))`.
    pub fn with_capacity_and_hasher(capacity: usize, hasher: KeyHasher) -> (r: Self)
        requires
            capacity <= MAX_CAPACITY,
        ensures
            r.wf(),
            r@ == Map::<u64, V>::empty(),
            r.dist@ == Map::<u64, nat>::empty(),
            is_capacity_for(capacity as nat, r.cap() as nat),
            r.hasher == hasher,
            r.slots_used == 0,
    {
        let cap = effective_capacity(capacity);
        let mut slots: Vec<Slot<K, V>> = Vec::new();
        while slots.len() < cap
            invariant
                slots.len() <= cap,
                forall|i: int|
                    0 <= i < slots.len() ==> (#[trigger] slots@[i]).key is Empty
                        && slots@[i].value is Empty,
            decreases cap - slots.len(),
        {
            slots.push(Slot { key: KeySlot::Empty, value: ValueSlot::Empty });
        }
        let max_probes = reprobe_limit(cap);
        let r = Table {
            slots,
            hasher,
            size: 0,
            slots_used: 0,
            max_probes,
            copy_idx: 0,
            copy_done: 0,
            dist: Ghost(Map::empty()),
            live: Ghost(Map::empty()),
        };
        assert forall|i: int| 0 <= i < r.cap() implies #[trigger] r.value_wf_at(i) by {
            assert(r.slots@[i].key is Empty);
        }
        r
    }

    pub fn capacity(&self) -> (r: usize)
        ensures
            r == self.cap(),
    {
        self.slots.len()
    }

    pub fn len(&self) -> (r: usize)
        requires
            self.wf(),
        ensures
            r == self@.len(),
    {
        self.size
    }

    /// Distinct probe distances below the capacity visit distinct slots.
    proof fn lemma_pos_injective(&self, w: u64, a: int, b: int)
        requires
            self.cap() > 0,
            0 <= a < self.cap(),
            0 <= b < self.cap(),
            self.pos(w, a) == self.pos(w, b),
        ensures
            a == b,
    {
        let c = self.cap();
        lemma_mod_bound(hash_word(self.hasher.seed, w) as int, c);
        lemma_mod_below_twice(self.start(w) + a, c);
        lemma_mod_below_twice(self.start(w) + b, c);
    }

    /// Every slot is reached by the probe of any word within `cap` steps.
    proof fn lemma_probe_covers(&self, w: u64, j: int) -> (d: int)
        requires
            self.cap() > 0,
            0 <= j < self.cap(),
        ensures
            0 <= d < self.cap(),
            self.pos(w, d) == j,
    {
        let s = self.start(w);
        let c = self.cap();
        lemma_mod_bound(hash_word(self.hasher.seed, w) as int, c);
        if j >= s {
            lemma_small_mod((j) as nat, c as nat);
            j - s
        } else {
            lemma_mod_add_multiples_vanish(j, c);
            lemma_small_mod((j) as nat, c as nat);
            j + c - s
        }
    }

    /// When every key cell is taken, `slots_used` is at least the capacity.
    proof fn lemma_full_table(&self)
        requires
            self.keys_wf(),
            forall|j: int| 0 <= j < self.cap() ==> #[trigger] self.has_key(j),
        ensures
            self.slots_used >= self.cap(),
    {
        let f = |w: u64| self.index_of(w);
        let img = self.dist@.dom().map(f);
        lemma_map_size_bound(self.dist@.dom(), img, f);
        assert forall|j: int| #[trigger] set_int_range(0, self.cap()).contains(j) implies img.contains(j) by {
            assert(self.has_key(j));
            assert(self.dist@.dom().contains(self.key_word(j)));
            assert(f(self.key_word(j)) == j);
        }
        lemma_int_range(0, self.cap());
        lemma_len_subset(set_int_range(0, self.cap()), img);
    }

    /// Probes for a key word. Returns the slot, its probe distance, and whether
    /// it holds the word; a slot that does not is the first `Empty` key cell of
    /// the probe sequence.
    pub fn find_slot(&self, w: u64) -> (r: (usize, usize, bool))
        requires
            self.keys_wf(),
        ensures
            r.0 < self.cap(),
            r.1 < self.cap(),
            r.0 == self.pos(w, r.1 as int),
            r.2 <==> self.dist@.contains_key(w),
            r.2 ==> self.dist@[w] == r.1,
            !r.2 ==> self.slots@[r.0 as int].key is Empty,
            !r.2 ==> forall|e: int| 0 <= e < r.1 ==> #[trigger] self.has_key(self.pos(w, e)),
            !r.2 ==> self.is_first_free(w, r.1 as int),
    {
        let cap = self.slots.len();
        let h = self.hasher.hash_word_of(w);
        let start = (h % (cap as u64)) as usize;
        let mut d: usize = 0;
        while d < cap
            invariant
                self.keys_wf(),
                cap == self.cap(),
                start == self.start(w),
                0 <= d <= cap,
                forall|e: int|
                    0 <= e < d ==> #[trigger] self.has_key(self.pos(w, e)) && self.key_word(
                        self.pos(w, e),
                    ) != w,
            decreases cap - d,
        {
            let i = (start + d) % cap;
            match &self.slots[i].key {
                KeySlot::Empty => {
                    proof {
                        if self.dist@.contains_key(w) {
                            let dw = self.dist@[w] as int;
                            if dw < d {
                                assert(self.has_key(self.pos(w, dw)));
                            } else if dw > d {
                                assert(self.has_key(self.pos(w, d as int)));
                            }
                        }
                    }
                    return (i, d, false);
                },
                KeySlot::Key(k) => {
                    if k.to_word() == w {
                        proof {
                            assert(self.has_key(i as int));
                            let dw = self.dist@[w] as int;
                            if dw < d {
                                assert(self.has_key(self.pos(w, dw)));
                            } else if dw > d {
                                assert(self.has_key(self.pos(w, d as int)));
                                assert(self.index_of(w) == i);
                                self.lemma_pos_injective(w, dw, d as int);
                            }
                        }
                        return (i, d, true);
                    }
                    proof {
                        assert(self.has_key(self.pos(w, d as int)));
                    }
                },
            }
            d = d + 1;
        }
        proof {
            assert forall|j: int| 0 <= j < self.cap() implies #[trigger] self.has_key(j) by {
                let e = self.lemma_probe_covers(w, j);
                assert(self.has_key(self.pos(w, e)));
            }
            self.lemma_full_table();
        }
        (0, 0, false)
    }

    /// The live value of a key, if any.
    pub fn get(&self, key: &K) -> (r: Option<&V>)
        requires
            self.wf(),
        ensures
            match r {
                Some(v) => self@.contains_key(key.word()) && *v == self@[key.word()],
                None => !self@.contains_key(key.word()),
            },
    {
        let w = key.to_word();
        let (i, _d, found) = self.find_slot(w);
        if !found {
            return None;
        }
        proof {
            assert(self.dist@.contains_key(w));
            assert(self.value_wf_at(i as int));
        }
        match &self.slots[i].value {
            ValueSlot::Value(v) => Some(v),
            _ => None,
        }
    }

    /// All fields but the slots agree.
    pub open spec fn same_but_slots(&self, other: &Self) -> bool {
        &&& self.hasher == other.hasher
        &&& self.size == other.size
        &&& self.slots_used == other.slots_used
        &&& self.max_probes == other.max_probes
        &&& self.copy_idx == other.copy_idx
        &&& self.copy_done == other.copy_done
        &&& self.dist == other.dist
        &&& self.live == other.live
    }

    /// Every key cell and value cell either stays or takes an allowed step.
    pub open spec fn steps_from(&self, prev: &Self) -> bool {
        &&& self.slots@.len() == prev.slots@.len()
        &&& forall|j: int|
            0 <= j < self.slots@.len() ==> value_step_or_stay(
                (#[trigger] prev.slots@[j]).value,
                self.slots@[j].value,
            ) && key_step_or_stay(prev.slots@[j].key, self.slots@[j].key)
    }

    /// Every value cell has advanced along the lattice and every key cell
    /// has stayed or been written once, over any number of steps.
    pub open spec fn advanced_from(&self, prev: &Self) -> bool {
        &&& self.slots@.len() == prev.slots@.len()
        &&& forall|j: int|
            0 <= j < self.slots@.len() ==> value_advanced(
                (#[trigger] prev.slots@[j]).value,
                self.slots@[j].value,
            ) && key_step_or_stay(prev.slots@[j].key, self.slots@[j].key)
    }

    /// Steps advance cells, and advancing composes.
    pub proof fn lemma_advanced(a: &Self, b: &Self, c: &Self)
        ensures
            b.steps_from(a) ==> b.advanced_from(a),
            a.advanced_from(a),
            b.advanced_from(a) && c.advanced_from(b) ==> c.advanced_from(a),
    {
        assert forall|j: int| 0 <= j < b.slots@.len() && b.steps_from(a) implies value_advanced(
            (#[trigger] a.slots@[j]).value,
            b.slots@[j].value,
        ) by {
            lemma_value_advanced(a.slots@[j].value, b.slots@[j].value, b.slots@[j].value);
        }
        assert forall|j: int| 0 <= j < c.slots@.len() && b.advanced_from(a) && c.advanced_from(b) implies value_advanced(
            (#[trigger] a.slots@[j]).value,
            c.slots@[j].value,
        ) && key_step_or_stay(a.slots@[j].key, c.slots@[j].key) by {
            assert(value_advanced(a.slots@[j].value, b.slots@[j].value));
            assert(key_step_or_stay(a.slots@[j].key, b.slots@[j].key));
            lemma_value_advanced(a.slots@[j].value, b.slots@[j].value, c.slots@[j].value);
        }
    }

    /// Writes value cell `i`, handing back what it held.
    fn write_value(&mut self, i: usize, v: ValueSlot<V>) -> (prev: ValueSlot<V>)
        requires
            i < old(self).slots.len(),
        ensures
            final(self).slots@ == old(self).slots@.update(
                i as int,
                Slot { key: old(self).slots@[i as int].key, value: v },
            ),
            prev == old(self).slots@[i as int].value,
            final(self).same_but_slots(old(self)),
    {
        let mut cell = v;
        std::mem::swap(&mut self.slots[i].value, &mut cell);
        cell
    }

    /// Writes key cell `i`.
    fn write_key(&mut self, i: usize, k: KeySlot<K>)
        requires
            i < old(self).slots.len(),
        ensures
            final(self).slots@ == old(self).slots@.update(
                i as int,
                Slot { key: k, value: old(self).slots@[i as int].value },
            ),
            final(self).same_but_slots(old(self)),
    {
        self.slots[i].key = k;
    }

    /// The placement primitive beneath insert, replace, remove and migration.
    ///
    /// When the put would claim a fresh key cell and the table is past its
    /// load limit, or (with `probe_limited`) the cell lies beyond the reprobe
    /// limit, nothing changes and the value comes back in `NeedsResize`.
    pub fn put_if_match(
        &mut self,
        key: KeyCompare<K>,
        value: PutValue<V>,
        cond: Match,
        probe_limited: bool,
    ) -> (r: PutOutcome<V>)
        requires
            old(self).wf(),
            key is OnlyCompare ==> (cond is AnyKeyValuePair || value is Tombstone),
        ensures
            final(self).wf(),
            final(self).hasher == old(self).hasher,
            final(self).steps_from(old(self)),
            match r {
                PutOutcome::Done(prior) => {
                    &&& final(self)@ == put_view(old(self)@, key.word(), value, cond)
                    &&& prior == put_prior(old(self)@, key.word(), cond)
                    &&& if old(self).claims(key, value, cond) {
                        &&& final(self).dist@.dom() == old(self).dist@.dom().insert(key.word())
                        &&& final(self).slots_used == old(self).slots_used + 1
                    } else {
                        &&& final(self).dist@.dom() == old(self).dist@.dom()
                        &&& final(self).slots_used == old(self).slots_used
                    }
                },
                PutOutcome::NeedsResize(back) => {
                    &&& *final(self) == *old(self)
                    &&& back == value
                    &&& old(self).claims(key, value, cond)
                },
            },
            !probe_limited && (old(self).slots_used + 1) * 4 <= old(self).cap() * 3 ==> r is Done,
            r is NeedsResize <==> old(self).claims(key, value, cond) && ((old(self).slots_used + 1)
                * 4 > old(self).cap() * 3 || (probe_limited && old(self).beyond_reprobe_limit(
                key.word(),
            ))),
            forall|w2: u64| #[trigger]
                old(self).dist@.contains_key(w2) ==> final(self).dist@.contains_key(w2)
                    && final(self).dist@[w2] == old(self).dist@[w2] && final(self).key_of(w2)
                    == old(self).key_of(w2),
            r is Done && old(self).claims(key, value, cond) ==> final(self).key_of(key.word())
                == key.key(),
    {
        let w = key.to_word();
        let (i, d, found) = self.find_slot(w);
        let ghost pre = *self;
        if !found {
            let owned_value = match &key {
                KeyCompare::Owned(_) => match &value {
                    PutValue::Value(_) => true,
                    PutValue::Tombstone => false,
                },
                KeyCompare::OnlyCompare(_) => false,
            };
            let cond_ok = match cond {
                Match::AnyKeyValuePair => false,
                _ => true,
            };
            if !(owned_value && cond_ok) {
                return PutOutcome::Done(None);
            }
            if (self.slots_used + 1) * 4 > self.slots.len() * 3 || (probe_limited && d
                > self.max_probes) {
                return PutOutcome::NeedsResize(value);
            }
            let k = match key {
                KeyCompare::Owned(k) => k,
                KeyCompare::OnlyCompare(k) => k,
            };
            let v = match value {
                PutValue::Value(v) => v,
                PutValue::Tombstone => {
                    return PutOutcome::Done(None);
                },
            };
            proof {
                assert(pre.value_wf_at(i as int));
                lemma_len_subset(pre.live@.dom(), pre.dist@.dom());
            }
            self.write_key(i, KeySlot::Key(k));
            self.slots_used = self.slots_used + 1;
            self.size = self.size + 1;
            self.dist = Ghost(self.dist@.insert(w, d as nat));
            self.live = Ghost(self.live@.insert(w, v));
            self.write_value(i, ValueSlot::Value(v));
            proof {
                self.lemma_claim_wf(&pre, w, i as int, d as int);
                self.lemma_steps_at(&pre, i as int);
                assert forall|w2: u64| #[trigger] pre.dist@.contains_key(w2) implies self.key_of(w2) == pre.key_of(w2) by {
                    assert(pre.has_key(pre.index_of(w2)));
                }
            }
            PutOutcome::Done(None)
        } else {
            proof {
                assert(pre.dist@.contains_key(w));
                assert(pre.value_wf_at(i as int));
            }
            let cur_live = self.slots[i].value.is_value();
            let ok = match cond {
                Match::Always => true,
                Match::AnyKeyValuePair => cur_live,
                Match::NoValue => !cur_live,
            };
            if !ok {
                return PutOutcome::Done(None);
            }
            match value {
                PutValue::Value(v) => {
                    if !cur_live {
                        proof {
                            lemma_len_subset(pre.live@.dom(), pre.dist@.dom().remove(w));
                        }
                        self.size = self.size + 1;
                    }
                    self.live = Ghost(self.live@.insert(w, v));
                    let prev = self.write_value(i, ValueSlot::Value(v));
                    proof {
                        self.lemma_rewrite_wf(&pre, w, i as int);
                        self.lemma_steps_at(&pre, i as int);
                    }
                    match prev {
                        ValueSlot::Value(p) => PutOutcome::Done(Some(p)),
                        _ => PutOutcome::Done(None),
                    }
                },
                PutValue::Tombstone => {
                    if cur_live {
                        self.size = self.size - 1;
                    }
                    self.live = Ghost(self.live@.remove(w));
                    let prev = self.write_value(i, ValueSlot::Tombstone);
                    proof {
                        self.lemma_rewrite_wf(&pre, w, i as int);
                        self.lemma_steps_at(&pre, i as int);
                    }
                    match prev {
                        ValueSlot::Value(p) => PutOutcome::Done(Some(p)),
                        _ => PutOutcome::Done(None),
                    }
                },
            }
        }
    }

    /// The put claims a fresh key cell: the word has none, the key is owned,
    /// a value is written and the condition holds.
    pub open spec fn claims(&self, key: KeyCompare<K>, value: PutValue<V>, cond: Match) -> bool {
        &&& !self.dist@.contains_key(key.word())
        &&& key is Owned
        &&& value is Value
        &&& !(cond is AnyKeyValuePair)
    }

    /// A change confined to slot `i` that steps there steps everywhere.
    proof fn lemma_steps_at(&self, pre: &Self, i: int)
        requires
            self.slots@.len() == pre.slots@.len(),
            0 <= i < pre.slots@.len(),
            forall|j: int| 0 <= j < pre.slots@.len() && j != i ==> #[trigger] self.slots@[j] == pre.slots@[j],
            value_step_or_stay(pre.slots@[i].value, self.slots@[i].value),
            key_step_or_stay(pre.slots@[i].key, self.slots@[i].key),
        ensures
            self.steps_from(pre),
    {
        assert forall|j: int| 0 <= j < self.slots@.len() implies value_step_or_stay(
            (#[trigger] pre.slots@[j]).value,
            self.slots@[j].value,
        ) && key_step_or_stay(pre.slots@[j].key, self.slots@[j].key) by {
            if j != i {
                assert(self.slots@[j] == pre.slots@[j]);
            }
        }
    }

    proof fn lemma_claim_wf(&self, pre: &Self, w: u64, i: int, d: int)
        requires
            pre.wf(),
            !pre.dist@.contains_key(w),
            0 <= d < pre.cap(),
            i == pre.pos(w, d),
            pre.slots@[i].key is Empty,
            forall|e: int| 0 <= e < d ==> #[trigger] pre.has_key(pre.pos(w, e)),
            self.slots@.len() == pre.slots@.len(),
            self.slots@[i].key is Key,
            self.key_word(i) == w,
            self.slots@[i].value is Value,
            forall|j: int| 0 <= j < pre.cap() && j != i ==> #[trigger] self.slots@[j] == pre.slots@[j],
            self.hasher == pre.hasher,
            self.copy_idx == 0,
            self.copy_done == 0,
            self.dist@ == pre.dist@.insert(w, d as nat),
            self.live@ == pre.live@.insert(w, self.slots@[i].value->Value_0),
            self.slots_used == pre.slots_used + 1,
            self.slots_used * 4 <= self.cap() * 3,
            self.size == pre.size + 1,
        ensures
            self.wf(),
    {
        assert(self.index_of(w) == i);
        assert forall|w2: u64| #[trigger] self.dist@.contains_key(w2) implies {
            &&& self.dist@[w2] < self.cap()
            &&& self.has_key(self.index_of(w2))
            &&& self.key_word(self.index_of(w2)) == w2
        } by {
            if w2 != w {
                assert(pre.dist@.contains_key(w2));
                assert(self.index_of(w2) == pre.index_of(w2));
                assert(pre.has_key(pre.index_of(w2)));
            }
        }
        assert forall|w2: u64, e: int|
            self.dist@.contains_key(w2) && 0 <= e < self.dist@[w2] implies #[trigger] self.has_key(
            self.pos(w2, e),
        ) by {
            lemma_mod_bound(pre.start(w2) + e, pre.cap());
            if w2 != w {
                assert(pre.has_key(pre.pos(w2, e)));
            } else {
                assert(pre.has_key(pre.pos(w, e)));
            }
        }
        assert forall|j: int| 0 <= j < self.cap() && #[trigger] self.has_key(j) implies {
            &&& self.dist@.contains_key(self.key_word(j))
            &&& self.index_of(self.key_word(j)) == j
        } by {
            if j != i {
                assert(pre.has_key(j));
                assert(pre.key_word(j) != w);
            }
        }
        assert forall|j: int| 0 <= j < self.cap() implies #[trigger] self.value_wf_at(j) by {
            if j != i {
                assert(pre.value_wf_at(j));
                if pre.has_key(j) {
                    assert(pre.key_word(j) != w);
                }
            }
        }
    }

    proof fn lemma_rewrite_wf(&self, pre: &Self, w: u64, i: int)
        requires
            pre.wf(),
            pre.dist@.contains_key(w),
            i == pre.index_of(w),
            self.slots@ == pre.slots@.update(
                i,
                Slot { key: pre.slots@[i].key, value: self.slots@[i].value },
            ),
            self.hasher == pre.hasher,
            self.slots_used == pre.slots_used,
            self.max_probes == pre.max_probes,
            self.copy_idx == pre.copy_idx,
            self.copy_done == pre.copy_done,
            self.dist == pre.dist,
            self.live@.dom().finite(),
            self.size == self.live@.dom().len(),
            self.slots@[i].value.is_unprimed(),
            self.slots@[i].value is Value <==> self.live@.contains_key(w),
            self.slots@[i].value is Value ==> self.slots@[i].value->Value_0 == self.live@[w],
            forall|w2: u64| w2 != w ==> #[trigger] self.live@.contains_key(w2) == pre.live@.contains_key(w2),
            forall|w2: u64| w2 != w && pre.live@.contains_key(w2) ==> #[trigger] self.live@[w2] == pre.live@[w2],
        ensures
            self.wf(),
    {
        assert(self.live@.dom().subset_of(self.dist@.dom())) by {
            assert forall|w2: u64| self.live@.contains_key(w2) implies self.dist@.contains_key(w2) by {
                if w2 != w {
                    assert(pre.live@.contains_key(w2));
                }
            }
        }
        assert forall|w2: u64| #[trigger] self.dist@.contains_key(w2) implies {
            &&& self.dist@[w2] < self.cap()
            &&& self.has_key(self.index_of(w2))
            &&& self.key_word(self.index_of(w2)) == w2
        } by {
            assert(pre.has_key(pre.index_of(w2)));
        }
        assert forall|w2: u64, e: int|
            self.dist@.contains_key(w2) && 0 <= e < self.dist@[w2] implies #[trigger] self.has_key(
            self.pos(w2, e),
        ) by {
            assert(pre.has_key(pre.pos(w2, e)));
        }
        assert forall|j: int| 0 <= j < self.cap() && #[trigger] self.has_key(j) implies {
            &&& self.dist@.contains_key(self.key_word(j))
            &&& self.index_of(self.key_word(j)) == j
        } by {
            assert(pre.has_key(j));
        }
        assert forall|j: int| 0 <= j < self.cap() implies #[trigger] self.value_wf_at(j) by {
            assert(pre.value_wf_at(j));
            if j != i && pre.has_key(j) {
                assert(pre.index_of(pre.key_word(j)) == j);
                assert(pre.key_word(j) != w);
            }
        }
    }

    /// Value cell `i` during a migration: every slot below `copy_idx` is
    /// finished; any other slot is finished or still agrees with `live`; a
    /// finished slot's key has left `live`.
    pub open spec fn migrated_at(&self, i: int) -> bool {
        &&& i < self.copy_idx ==> self.slots@[i].value is Copied
        &&& (self.slots@[i].value is Copied || self.value_wf_at(i))
        &&& (self.slots@[i].value is Copied && self.slots@[i].key is Key)
            ==> !self.live@.contains_key(self.key_word(i))
    }

    /// The slot of a word in `dist` has not been migrated yet.
    pub open spec fn unmigrated(&self, w: u64) -> bool {
        !(self.slots@[self.index_of(w)].value is Copied)
    }

    /// `self` forwards to its successor `newer`: `live` holds the entries of
    /// the slots not yet migrated, no key of those has a key cell in `newer`,
    /// and `newer` has room for every entry still to come plus one.
    pub open spec fn forwarding(&self, newer: &Self) -> bool {
        &&& self.keys_wf()
        &&& self.copy_idx == self.copy_done
        &&& self.copy_idx <= self.cap()
        &&& forall|i: int| 0 <= i < self.cap() ==> #[trigger] self.migrated_at(i)
        &&& newer.wf()
        &&& forall|w: u64| #[trigger]
            newer.dist@.contains_key(w) ==> !(self.dist@.contains_key(w) && self.unmigrated(w))
        &&& (newer.slots_used + self.size) * 4 <= newer.cap() * 3
    }

    /// The mapping a table and its successor stand for together.
    pub open spec fn joint_view(&self, newer: &Self) -> Map<u64, V> {
        self.live@.union_prefer_right(newer@)
    }

    /// The key stored for a word of the joint mapping.
    pub open spec fn joint_key(&self, newer: &Self, w: u64) -> K {
        if self.live@.contains_key(w) {
            self.key_of(w)
        } else {
            newer.key_of(w)
        }
    }

    /// Captures value cell `i` for migration.
    pub fn prime_slot(&mut self, i: usize)
        requires
            i < old(self).slots.len(),
            old(self).slots@[i as int].value.is_unprimed(),
        ensures
            final(self).slots@ == old(self).slots@.update(
                i as int,
                Slot {
                    key: old(self).slots@[i as int].key,
                    value: primed(old(self).slots@[i as int].value),
                },
            ),
            final(self).same_but_slots(old(self)),
            final(self).steps_from(old(self)),
    {
        let cur = self.write_value(i, ValueSlot::Copied);
        match cur {
            ValueSlot::Value(v) => {
                self.write_value(i, ValueSlot::Prime(v));
            },
            _ => {},
        }
        proof {
            self.lemma_steps_at(old(self), i as int);
        }
    }

    /// Finalises a captured value cell, handing out the value it carried.
    pub fn finish_slot(&mut self, i: usize) -> (r: Option<V>)
        requires
            i < old(self).slots.len(),
            !old(self).slots@[i as int].value.is_unprimed(),
        ensures
            final(self).slots@ == old(self).slots@.update(
                i as int,
                Slot { key: old(self).slots@[i as int].key, value: ValueSlot::Copied },
            ),
            r == match old(self).slots@[i as int].value {
                ValueSlot::Prime(v) => Some(v),
                _ => None::<V>,
            },
            final(self).same_but_slots(old(self)),
            final(self).steps_from(old(self)),
    {
        let cur = self.write_value(i, ValueSlot::Copied);
        proof {
            self.lemma_steps_at(old(self), i as int);
        }
        match cur {
            ValueSlot::Prime(v) => Some(v),
            _ => None,
        }
    }

    /// Same key cells, `dist`, counters of key cells and hasher.
    pub open spec fn same_keys(&self, other: &Self) -> bool {
        &&& self.slots@.len() == other.slots@.len()
        &&& forall|j: int| 0 <= j < self.slots@.len() ==> (#[trigger] self.slots@[j]).key == other.slots@[j].key
        &&& self.hasher == other.hasher
        &&& self.slots_used == other.slots_used
        &&& self.max_probes == other.max_probes
        &&& self.dist == other.dist
    }

    /// What a migration step keeps: the source's key cells, the forwarding
    /// invariant, the successor's shape, the number of entries still to move
    /// plus those placed in the successor, and the joint mapping with its
    /// stored keys.
    pub open spec fn migration_step(&self, newer: &Self, pre: &Self, pre_new: &Self) -> bool {
        &&& self.same_keys(pre)
        &&& self.forwarding(newer)
        &&& newer.cap() == pre_new.cap()
        &&& newer.hasher == pre_new.hasher
        &&& self.joint_view(newer) == pre.joint_view(pre_new)
        &&& newer.slots_used + self.size == pre_new.slots_used + pre.size
        &&& newer.dist@.dom().subset_of(pre_new.dist@.dom().union(pre.dist@.dom()))
        &&& self.advanced_from(pre)
        &&& newer.advanced_from(pre_new)
        &&& forall|w: u64| #[trigger]
            pre.joint_view(pre_new).contains_key(w) ==> self.joint_key(newer, w) == pre.joint_key(
                pre_new,
                w,
            )
    }

    /// Migrates source slot `i` unless it is already finished: prime it, put
    /// a live value into `newer` under the same key, then finalise it.
    pub fn copy_slot_at(&mut self, i: usize, newer: &mut Self)
        requires
            old(self).forwarding(old(newer)),
            i < old(self).cap(),
        ensures
            final(self).migration_step(final(newer), old(self), old(newer)),
            final(self).copy_idx == old(self).copy_idx,
            final(self).slots@[i as int].value is Copied,
    {
        let ghost pre = *self;
        let ghost pre_new = *newer;
        proof {
            assert(pre.migrated_at(i as int));
        }
        if self.slots[i].value.is_prime() {
            proof {
                Self::lemma_advanced(&pre, &pre, &pre);
                Self::lemma_advanced(&pre_new, &pre_new, &pre_new);
                assert(self.joint_view(newer) =~= pre.joint_view(&pre_new));
            }
            return;
        }
        proof {
            assert(pre.value_wf_at(i as int));
        }
        self.prime_slot(i);
        let ghost primed_state = *self;
        let taken = self.finish_slot(i);
        proof {
            Self::lemma_advanced(&pre, &primed_state, self);
            Self::lemma_advanced(&primed_state, self, self);
            Self::lemma_advanced(&pre, &primed_state, &primed_state);
            assert(self.slots@ =~= pre.slots@.update(
                i as int,
                Slot { key: pre.slots@[i as int].key, value: ValueSlot::Copied },
            ));
        }
        match taken {
            Some(v) => {
                // A primed value always sits under a written key cell.
                let k = match &self.slots[i].key {
                    KeySlot::Key(k) => *k,
                    KeySlot::Empty => {
                        return;
                    },
                };
                let ghost w = k.word();
                proof {
                    assert(pre.has_key(i as int));
                    assert(pre.index_of(w) == i);
                    assert(pre.live@.contains_key(w));
                    assert(!newer.dist@.contains_key(w));
                    lemma_len_subset(pre.live@.dom(), pre.dist@.dom());
                }
                self.size = self.size - 1;
                self.live = Ghost(self.live@.remove(w));
                let _outcome = newer.put_if_match(
                    KeyCompare::Owned(k),
                    PutValue::Value(v),
                    Match::NoValue,
                    false,
                );
                proof {
                    Self::lemma_advanced(&pre_new, newer, newer);
                    assert(newer@ == pre_new@.insert(w, v));
                    assert(newer.key_of(w) == pre.key_of(w));
                    self.lemma_copy_step(&pre, newer, &pre_new, i as int);
                }
            },
            None => {
                proof {
                    Self::lemma_advanced(&pre_new, &pre_new, &pre_new);
                    self.lemma_copy_step(&pre, newer, &pre_new, i as int);
                }
            },
        }
    }

    proof fn lemma_copy_step(&self, pre: &Self, newer: &Self, pre_new: &Self, c: int)
        requires
            pre.forwarding(pre_new),
            0 <= c < pre.cap(),
            pre.value_wf_at(c),
            self.copy_idx == pre.copy_idx,
            self.copy_done == pre.copy_done,
            self.hasher == pre.hasher,
            self.slots_used == pre.slots_used,
            self.max_probes == pre.max_probes,
            self.dist == pre.dist,
            self.slots@ == pre.slots@.update(
                c,
                Slot { key: pre.slots@[c].key, value: ValueSlot::Copied },
            ),
            pre.slots@[c].value is Value ==> {
                &&& self.live@ == pre.live@.remove(pre.key_word(c))
                &&& self.size + 1 == pre.size
                &&& newer@ == pre_new@.insert(pre.key_word(c), pre.slots@[c].value->Value_0)
                &&& newer.dist@.dom() == pre_new.dist@.dom().insert(pre.key_word(c))
                &&& newer.slots_used == pre_new.slots_used + 1
                &&& newer.key_of(pre.key_word(c)) == pre.key_of(pre.key_word(c))
            },
            !(pre.slots@[c].value is Value) ==> self.live == pre.live && self.size == pre.size
                && *newer == *pre_new,
            newer.wf(),
            newer.cap() == pre_new.cap(),
            newer.hasher == pre_new.hasher,
            forall|w: u64| #[trigger] pre_new.dist@.contains_key(w) ==> newer.key_of(w) == pre_new.key_of(w),
            self.advanced_from(pre),
            newer.advanced_from(pre_new),
        ensures
            self.migration_step(newer, pre, pre_new),
    {
        assert(pre.migrated_at(c));
        let isv = pre.slots@[c].value is Value;
        let wc = pre.key_word(c);
        if isv {
            assert(pre.has_key(c));
            assert(pre.dist@.contains_key(wc));
            assert(pre.index_of(wc) == c);
        }
        assert(self.live@.dom().subset_of(self.dist@.dom()));
        assert forall|j: int| 0 <= j < self.cap() implies #[trigger] self.migrated_at(j) by {
            assert(pre.migrated_at(j));
            if j != c {
                assert(self.slots@[j] == pre.slots@[j]);
                if pre.has_key(j) && isv {
                    assert(pre.index_of(pre.key_word(j)) == j);
                    assert(pre.index_of(wc) == c);
                    assert(pre.key_word(j) != wc);
                }
            } else if pre.has_key(c) {
                assert(pre.value_wf_at(c));
            }
        }
        assert forall|w: u64| #[trigger] self.dist@.contains_key(w) implies {
            &&& self.dist@[w] < self.cap()
            &&& self.has_key(self.index_of(w))
            &&& self.key_word(self.index_of(w)) == w
        } by {
            assert(pre.has_key(pre.index_of(w)));
        }
        assert forall|w: u64, e: int|
            self.dist@.contains_key(w) && 0 <= e < self.dist@[w] implies #[trigger] self.has_key(
            self.pos(w, e),
        ) by {
            assert(pre.has_key(pre.pos(w, e)));
        }
        assert forall|j: int| 0 <= j < self.cap() && #[trigger] self.has_key(j) implies {
            &&& self.dist@.contains_key(self.key_word(j))
            &&& self.index_of(self.key_word(j)) == j
        } by {
            assert(pre.has_key(j));
        }
        assert forall|w: u64| #[trigger] newer.dist@.contains_key(w) implies !(self.dist@.contains_key(w)
            && self.unmigrated(w)) by {
            if pre_new.dist@.contains_key(w) {
                if self.dist@.contains_key(w) && pre.index_of(w) != c {
                    assert(self.slots@[pre.index_of(w)] == pre.slots@[pre.index_of(w)]);
                }
            } else {
                assert(isv && w == wc);
                assert(pre.has_key(c));
                assert(pre.index_of(wc) == c);
            }
        }
        assert forall|j: int| 0 <= j < self.slots@.len() implies (#[trigger] self.slots@[j]).key
            == pre.slots@[j].key by {
            if j != c {
                assert(self.slots@[j] == pre.slots@[j]);
            }
        }
        if isv {
            assert(pre.has_key(c));
            assert(pre.live@.contains_key(wc));
            assert(!pre_new@.contains_key(wc)) by {
                assert(pre.dist@.contains_key(wc));
                assert(pre.index_of(wc) == c);
            }
            assert(self.joint_view(newer) =~= pre.joint_view(pre_new));
        } else {
            assert(self.joint_view(newer) =~= pre.joint_view(pre_new));
        }
        assert forall|w: u64| #[trigger] pre.joint_view(pre_new).contains_key(w) implies self.joint_key(
            newer,
            w,
        ) == pre.joint_key(pre_new, w) by {
            if pre.live@.contains_key(w) {
                assert(pre.dist@.contains_key(w));
                assert(self.key_of(w) == pre.key_of(w)) by {
                    assert(pre.has_key(pre.index_of(w)));
                    if pre.index_of(w) != c {
                        assert(self.slots@[pre.index_of(w)] == pre.slots@[pre.index_of(w)]);
                    }
                }
                if isv && w == wc {
                } else if isv {
                    assert(self.live@.contains_key(w));
                } else {
                    assert(self.live@.contains_key(w));
                }
            } else {
                assert(pre_new@.contains_key(w));
                assert(pre_new.dist@.contains_key(w));
                if self.live@.contains_key(w) {
                    assert(false);
                }
            }
        }
    }

    /// Migrates the next chunk of at most `COPY_CHUNK_SIZE` source slots.
    pub fn copy_chunk(&mut self, newer: &mut Self)
        requires
            old(self).forwarding(old(newer)),
            old(self).copy_idx < old(self).cap(),
        ensures
            final(self).migration_step(final(newer), old(self), old(newer)),
            old(self).copy_idx < final(self).copy_idx,
    {
        let cap = self.slots.len();
        let end = if cap - self.copy_idx > COPY_CHUNK_SIZE {
            self.copy_idx + COPY_CHUNK_SIZE
        } else {
            cap
        };
        let ghost pre = *self;
        let ghost pre_new = *newer;
        proof {
            assert forall|w: u64| #[trigger] pre.joint_view(&pre_new).contains_key(w) implies self.joint_key(
                newer,
                w,
            ) == pre.joint_key(&pre_new, w) by {}
            assert forall|j: int| 0 <= j < self.slots@.len() implies (#[trigger] self.slots@[j]).key
                == pre.slots@[j].key by {}
            Self::lemma_advanced(&pre, &pre, &pre);
            Self::lemma_advanced(&pre_new, &pre_new, &pre_new);
        }
        while self.copy_idx < end
            invariant
                self.migration_step(newer, &pre, &pre_new),
                pre.copy_idx <= self.copy_idx <= end <= cap,
                cap == self.cap(),
            decreases end - self.copy_idx,
        {
            let ghost before = *self;
            let ghost before_new = *newer;
            let i = self.copy_idx;
            self.copy_slot_at(i, newer);
            let ghost mid = *self;
            self.copy_idx = self.copy_idx + 1;
            self.copy_done = self.copy_done + 1;
            proof {
                assert forall|j: int| 0 <= j < self.cap() implies #[trigger] self.migrated_at(j) by {
                    assert(mid.migrated_at(j));
                    assert(mid.value_wf_at(j) ==> self.value_wf_at(j));
                }
                assert forall|j: int| 0 <= j < self.slots@.len() implies (#[trigger] self.slots@[j]).key
                    == pre.slots@[j].key by {
                    assert(self.slots@[j].key == before.slots@[j].key);
                }
                assert forall|w: u64| #[trigger] pre.joint_view(&pre_new).contains_key(w) implies self.joint_key(
                    newer,
                    w,
                ) == pre.joint_key(&pre_new, w) by {
                    assert(before.joint_view(&before_new).contains_key(w));
                }
                Self::lemma_advanced(&pre, &before, self);
                Self::lemma_advanced(&pre_new, &before_new, newer);
                self.lemma_keys_wf_frame(&mid);
                assert forall|w: u64| #[trigger] newer.dist@.contains_key(w) implies !(self.dist@.contains_key(w)
                    && self.unmigrated(w)) by {
                    assert(newer.dist@.contains_key(w));
                    assert(self.index_of(w) == mid.index_of(w));
                }
            }
        }
    }

    /// `keys_wf` depends on the slots, the hasher, `dist`, `live` and the
    /// counters of entries and key cells alone.
    proof fn lemma_keys_wf_frame(&self, other: &Self)
        requires
            other.keys_wf(),
            self.slots == other.slots,
            self.hasher == other.hasher,
            self.dist == other.dist,
            self.live == other.live,
            self.size == other.size,
            self.slots_used == other.slots_used,
        ensures
            self.keys_wf(),
    {
        assert forall|w: u64| #[trigger] self.dist@.contains_key(w) implies {
            &&& self.dist@[w] < self.cap()
            &&& self.has_key(self.index_of(w))
            &&& self.key_word(self.index_of(w)) == w
        } by {
            assert(other.dist@.contains_key(w));
        }
        assert forall|w: u64, e: int|
            self.dist@.contains_key(w) && 0 <= e < self.dist@[w] implies #[trigger] self.has_key(
            self.pos(w, e),
        ) by {
            assert(other.has_key(other.pos(w, e)));
        }
        assert forall|j: int| 0 <= j < self.cap() && #[trigger] self.has_key(j) implies {
            &&& self.dist@.contains_key(self.key_word(j))
            &&& self.index_of(self.key_word(j)) == j
        } by {
            assert(other.has_key(j));
        }
    }

    /// When every slot is finished nothing is left in `live`, and the
    /// successor alone stands for the joint mapping.
    pub proof fn lemma_drained(&self, newer: &Self)
        requires
            self.forwarding(newer),
            self.copy_idx == self.cap(),
        ensures
            self.live@ == Map::<u64, V>::empty(),
            self.size == 0,
            self.joint_view(newer) == newer@,
            forall|w: u64| #[trigger] newer@.contains_key(w) ==> self.joint_key(newer, w) == newer.key_of(w),
    {
        assert forall|w: u64| !self.live@.contains_key(w) by {
            if self.live@.contains_key(w) {
                assert(self.dist@.contains_key(w));
                assert(self.migrated_at(self.index_of(w)));
            }
        }
        assert(self.live@ =~= Map::<u64, V>::empty());
        assert(self.joint_view(newer) =~= newer@);
    }

    /// Migrates every remaining chunk.
    pub fn drain(&mut self, newer: &mut Self)
        requires
            old(self).forwarding(old(newer)),
        ensures
            final(self).migration_step(final(newer), old(self), old(newer)),
            final(self).copy_idx == final(self).cap(),
            final(self).copy_done == final(self).cap(),
            final(newer)@ == old(self).joint_view(old(newer)),
            forall|w: u64| #[trigger]
                final(newer)@.contains_key(w) ==> final(newer).key_of(w) == old(self).joint_key(
                    old(newer),
                    w,
                ),
    {
        let ghost pre = *self;
        let ghost pre_new = *newer;
        proof {
            assert forall|w: u64| #[trigger] pre.joint_view(&pre_new).contains_key(w) implies self.joint_key(
                newer,
                w,
            ) == pre.joint_key(&pre_new, w) by {}
            assert forall|j: int| 0 <= j < self.slots@.len() implies (#[trigger] self.slots@[j]).key
                == pre.slots@[j].key by {}
            Self::lemma_advanced(&pre, &pre, &pre);
            Self::lemma_advanced(&pre_new, &pre_new, &pre_new);
        }
        while self.copy_idx < self.slots.len()
            invariant
                self.migration_step(newer, &pre, &pre_new),
            decreases self.cap() - self.copy_idx,
        {
            let ghost before = *self;
            let ghost before_new = *newer;
            self.copy_chunk(newer);
            proof {
                assert forall|j: int| 0 <= j < self.slots@.len() implies (#[trigger] self.slots@[j]).key
                    == pre.slots@[j].key by {
                    assert(self.slots@[j].key == before.slots@[j].key);
                }
                assert forall|w: u64| #[trigger] pre.joint_view(&pre_new).contains_key(w) implies self.joint_key(
                    newer,
                    w,
                ) == pre.joint_key(&pre_new, w) by {
                    assert(before.joint_view(&before_new).contains_key(w));
                }
                Self::lemma_advanced(&pre, &before, self);
                Self::lemma_advanced(&pre_new, &before_new, newer);
            }
        }
        proof {
            self.lemma_drained(newer);
        }
    }

    /// An empty successor: twice the capacity, or the same capacity where
    /// twice would pass `MAX_CAPACITY`. This table then forwards to it.
    pub fn successor(&self) -> (r: Self)
        requires
            self.wf(),
            (self@.len() + 1) * 4 <= MAX_CAPACITY,
        ensures
            r.wf(),
            r@ == Map::<u64, V>::empty(),
            r.dist@ == Map::<u64, nat>::empty(),
            r.cap() == if self.cap() * 2 <= MAX_CAPACITY {
                2 * self.cap()
            } else {
                self.cap()
            },
            r.hasher == self.hasher,
            self.forwarding(&r),
            (r.slots_used + self.size + 1) * 4 <= r.cap() * 3,
    {
        let new_cap = if self.slots.len() <= MAX_CAPACITY / 2 {
            self.slots.len() * 2
        } else {
            self.slots.len()
        };
        let r: Self = Table::with_capacity_and_hasher(new_cap, self.hasher);
        proof {
            assert(is_pow2(new_cap as nat));
            lemma_pow2_le(new_cap as nat, r.cap() as nat);
            lemma_pow2_le(r.cap() as nat, new_cap as nat);
            lemma_len_subset(self.live@.dom(), self.dist@.dom());
            assert forall|i: int| 0 <= i < self.cap() implies #[trigger] self.migrated_at(i) by {
                assert(self.value_wf_at(i));
            }
        }
        r
    }

    /// Allocates a successor, drains this table into it chunk by chunk, and
    /// returns it. The successor stands for the same mapping and has room for
    /// one more key.
    pub fn resize(&mut self) -> (r: Self)
        requires
            old(self).wf(),
            (old(self)@.len() + 1) * 4 <= MAX_CAPACITY,
        ensures
            r.wf(),
            r@ == old(self)@,
            r.cap() == if old(self).cap() * 2 <= MAX_CAPACITY {
                2 * old(self).cap()
            } else {
                old(self).cap()
            },
            r.hasher == old(self).hasher,
            (r.slots_used + 1) * 4 <= r.cap() * 3,
            forall|w: u64| #[trigger] r@.contains_key(w) ==> r.key_of(w) == old(self).key_of(w),
            final(self).copy_done == final(self).cap(),
    {
        let mut newer = self.successor();
        proof {
            assert(self.joint_view(&newer) =~= self@);
        }
        self.drain(&mut newer);
        proof {
            lemma_len_subset(newer@.dom(), newer.dist@.dom());
        }
        newer
    }

    /// The keys of the live entries, each once, in slot order.
    pub fn keys(&self) -> (r: Vec<K>)
        requires
            self.wf(),
        ensures
            forall|j: int| 0 <= j < r@.len() ==> self@.contains_key(#[trigger] r@[j].word()),
            forall|w: u64| self@.contains_key(w) ==> exists|j: int| 0 <= j < r@.len() && #[trigger] r@[j].word() == w,
            forall|a: int, b: int| 0 <= a < b < r@.len() ==> #[trigger] r@[a].word() != #[trigger] r@[b].word(),
            r@.len() <= self.cap(),
    {
        let mut out: Vec<K> = Vec::new();
        let mut i: usize = 0;
        let ghost mut from: Seq<int> = Seq::empty();
        while i < self.slots.len()
            invariant
                self.wf(),
                i <= self.cap(),
                out@.len() <= i,
                from.len() == out@.len(),
                forall|j: int| 0 <= j < out@.len() ==> 0 <= #[trigger] from[j] < i && self.has_key(from[j]) && out@[j].word() == self.key_word(from[j]) && self@.contains_key(out@[j].word()),
                forall|a: int, b: int| 0 <= a < b < out@.len() ==> #[trigger] from[a] < #[trigger] from[b],
                forall|w: u64| self@.contains_key(w) && self.index_of(w) < i ==> exists|j: int| 0 <= j < out@.len() && #[trigger] out@[j].word() == w,
            decreases self.cap() - i,
        {
            let ghost old_out = out@;
            proof {
                assert(self.value_wf_at(i as int));
            }
            match &self.slots[i].key {
                KeySlot::Key(k) => {
                    if self.slots[i].value.is_value() {
                        out.push(*k);
                        proof {
                            from = from.push(i as int);
                            assert(out@[out@.len() - 1].word() == self.key_word(i as int));
                        }
                    }
                },
                KeySlot::Empty => {},
            }
            proof {
                assert forall|w: u64| self@.contains_key(w) && self.index_of(w) < i + 1 implies exists|j: int| 0 <= j < out@.len() && #[trigger] out@[j].word() == w by {
                    assert(self.dist@.contains_key(w));
                    if self.index_of(w) == i {
                        assert(self.has_key(i as int));
                        assert(self.value_wf_at(i as int));
                        assert(out@[out@.len() - 1].word() == w);
                    } else {
                        let j = choose|j: int| 0 <= j < old_out.len() && #[trigger] old_out[j].word() == w;
                        assert(out@[j] == old_out[j]);
                    }
                }
            }
            i = i + 1;
        }
        proof {
            assert forall|j: int| 0 <= j < out@.len() implies self@.contains_key(#[trigger] out@[j].word()) by {
                assert(0 <= from[j] < i);
            }
            assert forall|w: u64| self@.contains_key(w) implies exists|j: int| 0 <= j < out@.len() && #[trigger] out@[j].word() == w by {
                assert(self.dist@.contains_key(w));
            }
            assert forall|a: int, b: int| 0 <= a < b < out@.len() implies #[trigger] out@[a].word() != #[trigger] out@[b].word() by {
                assert(from[a] < from[b]);
                assert(self.has_key(from[a]));
                assert(self.has_key(from[b]));
            }
        }
        out
    }
}

} // verus!
