//! The map: a handle on its newest table and the operations callers use.
use vstd::prelude::*;

use vstd::set_lib::{lemma_len_subset, lemma_set_disjoint_lens};

use crate::key::{HashKey, KeyHasher};
use crate::slot::ValueSlot;
use crate::table::{
    is_capacity_for, is_pow2, put_prior, put_view, KeyCompare, Match, PutOutcome, PutValue, Table,
    MAX_CAPACITY,
};

verus! {

/// The capacity of a map made by `LockFreeHashMap::new` or left by `clear`.
pub const DEFAULT_CAPACITY: usize = 8;

/// One update of a history, as it acts on the mapping from key words to
/// values.
pub enum MapOp<V> {
    Insert(u64, V),
    Replace(u64, V),
    Remove(u64),
}

/// What an update does to a sequential reference map: `insert`, `replace`
/// and `remove` each state exactly this of the map's view.
pub open spec fn apply_op<V>(m: Map<u64, V>, op: MapOp<V>) -> Map<u64, V> {
    match op {
        MapOp::Insert(w, v) => m.insert(w, v),
        MapOp::Replace(w, v) => if m.contains_key(w) {
            m.insert(w, v)
        } else {
            m
        },
        MapOp::Remove(w) => m.remove(w),
    }
}

/// A sequential reference map after a history of updates.
pub open spec fn apply_ops<V>(m: Map<u64, V>, ops: Seq<MapOp<V>>) -> Map<u64, V>
    decreases ops.len(),
{
    if ops.len() == 0 {
        m
    } else {
        apply_op(apply_ops(m, ops.drop_last()), ops.last())
    }
}

/// A history of updates on one map, each taking the view before it to the
/// view after it as its contract states, ends in exactly the mapping that an
/// unbounded sequential reference map reaches from the same start, however
/// many resizes ran meanwhile: no entry is lost, duplicated or brought back,
/// and (`len` being the view's size) the entry counts agree.
pub proof fn lemma_history_matches_reference<V>(views: Seq<Map<u64, V>>, ops: Seq<MapOp<V>>)
    requires
        views.len() == ops.len() + 1,
        forall|i: int| 0 <= i < ops.len() ==> #[trigger] views[i + 1] == apply_op(views[i], ops[i]),
    ensures
        views.last() == apply_ops(views[0], ops),
        views.last().len() == apply_ops(views[0], ops).len(),
    decreases ops.len(),
{
    if ops.len() > 0 {
        let n = ops.len() - 1;
        lemma_history_matches_reference(views.drop_last(), ops.drop_last());
        assert(views[n + 1] == apply_op(views[n], ops[n]));
        assert(views.drop_last().last() == views[n]);
    }
}

/// A hash map from keys to values, viewed as a map from key words to values.
pub struct LockFreeHashMap<K, V> {
    /// The table every operation starts from.
    inner: Table<K, V>,
    /// The successor `inner` forwards to while a resize is in flight.
    newer: Option<Table<K, V>>,
}

/// The keys of a map at one point in time, handed out one by one.
pub struct Keys<K> {
    keys: Vec<K>,
    position: usize,
}

impl<K> Keys<K> {
    /// The keys not yet handed out.
    pub closed spec fn view(&self) -> Seq<K> {
        if self.position <= self.keys@.len() {
            self.keys@.subrange(self.position as int, self.keys@.len() as int)
        } else {
            Seq::empty()
        }
    }

    /// Hands out the next key, if any is left.
    pub fn next(&mut self) -> (r: Option<K>)
        where K: Copy
        ensures
            old(self)@.len() > 0 ==> r == Some(old(self)@[0]) && final(self)@ == old(self)@.drop_first(),
            old(self)@.len() == 0 ==> r is None && final(self)@ == old(self)@,
    {
        if self.position < self.keys.len() {
            let k = self.keys[self.position];
            self.position = self.position + 1;
            proof {
                assert(self@ =~= old(self)@.drop_first());
            }
            Some(k)
        } else {
            None
        }
    }
}

impl<K: HashKey, V> LockFreeHashMap<K, V> {
    /// The mapping from key words to values: the entries of the source
    /// slots not yet migrated, together with those of the successor.
    pub closed spec fn view(&self) -> Map<u64, V> {
        match &self.newer {
            None => self.inner@,
            Some(n) => self.inner.joint_view(n),
        }
    }

    /// The chain is the source table and, during a resize, one successor
    /// with the same hasher and twice the capacity (the same capacity where
    /// twice would pass `MAX_CAPACITY`).
    pub closed spec fn wf(&self) -> bool {
        match &self.newer {
            None => self.inner.wf(),
            Some(n) => {
                &&& self.inner.forwarding(n)
                &&& n.hasher == self.inner.hasher
                &&& n.cap() == if self.inner.cap() * 2 <= MAX_CAPACITY {
                    2 * self.inner.cap()
                } else {
                    self.inner.cap()
                }
            },
        }
    }

    /// Some table of the chain holds a key cell for the word (written once,
    /// it keeps the key object that was stored first).
    pub closed spec fn key_cell_taken(&self, w: u64) -> bool {
        match &self.newer {
            None => self.inner.dist@.contains_key(w),
            Some(n) => self.inner.dist@.contains_key(w) || n.dist@.contains_key(w),
        }
    }

    /// Every table of `prev`'s chain that `self` still holds has only moved
    /// its cells forward (value cells up the lattice, key cells written at
    /// most once). The source stays the source or is dropped once drained;
    /// the newest table stays the newest, or becomes the source when it is
    /// promoted and, possibly, a new resize starts from it.
    pub closed spec fn cells_advanced_from(&self, prev: &Self) -> bool {
        match (&prev.newer, &self.newer) {
            (None, _) => self.inner.advanced_from(&prev.inner),
            (Some(pn), None) => self.inner.advanced_from(pn),
            (Some(pn), Some(sn)) => (self.inner.advanced_from(&prev.inner) && sn.advanced_from(pn))
                || self.inner.advanced_from(pn),
        }
    }

    /// The hasher every table of the map uses.
    pub closed spec fn hasher(&self) -> KeyHasher {
        self.inner.hasher
    }

    /// The capacity of the table operations start from.
    pub closed spec fn source_capacity(&self) -> nat {
        self.inner.cap() as nat
    }

    /// What holds of every well-formed map: its mapping is finite and fits
    /// in the newest table, whose capacity is a power of two; the source
    /// table's capacity is one too, and the newest table is twice as large
    /// unless that would pass `MAX_CAPACITY`.
    pub proof fn lemma_wf(&self)
        requires
            self.wf(),
        ensures
            self@.dom().finite(),
            self@.len() <= self.spec_capacity(),
            1 <= self.spec_capacity() <= MAX_CAPACITY,
            is_pow2(self.spec_capacity()),
            is_pow2(self.source_capacity()),
            self.spec_capacity() == self.source_capacity() || (self.spec_capacity() == 2
                * self.source_capacity() && self.source_capacity() * 2 <= MAX_CAPACITY),
    {
        lemma_len_subset(self.inner.live@.dom(), self.inner.dist@.dom());
        match &self.newer {
            None => {},
            Some(n) => {
                let a = self.inner.live@.dom();
                let b = n.live@.dom();
                assert(a.disjoint(b)) by {
                    assert forall|w: u64| a.contains(w) implies !b.contains(w) by {
                        assert(self.inner.dist@.contains_key(w));
                        assert(self.inner.migrated_at(self.inner.index_of(w)));
                    }
                }
                lemma_set_disjoint_lens(a, b);
                assert(self.inner.joint_view(n).dom() =~= a + b);
                lemma_len_subset(b, n.dist@.dom());
            },
        }
    }

    /// The key object stored for a word that has a live value.
    pub closed spec fn stored_key(&self, w: u64) -> K {
        match &self.newer {
            None => self.inner.key_of(w),
            Some(n) => self.inner.joint_key(n, w),
        }
    }

    /// The capacity of the newest table.
    pub closed spec fn spec_capacity(&self) -> nat {
        match &self.newer {
            None => self.inner.cap() as nat,
            Some(n) => n.cap() as nat,
        }
    }

    /// An empty map of capacity `next_power_of_two(max(capacity, 1))` that
    /// hashes with `hasher`.
    pub fn with_capacity_and_hasher(capacity: usize, hasher: KeyHasher) -> (r: Self)
        requires
            capacity <= MAX_CAPACITY,
        ensures
            r.wf(),
            r@ == Map::<u64, V>::empty(),
            is_capacity_for(capacity as nat, r.spec_capacity()),
            r.hasher() == hasher,
    {
        LockFreeHashMap { inner: Table::with_capacity_and_hasher(capacity, hasher), newer: None }
    }

    /// An empty map of capacity `DEFAULT_CAPACITY`.
    pub fn new() -> (r: Self)
        ensures
            r.wf(),
            r@ == Map::<u64, V>::empty(),
            is_capacity_for(DEFAULT_CAPACITY as nat, r.spec_capacity()),
            r.hasher() == KeyHasher::default_spec(),
    {
        Self::with_capacity(DEFAULT_CAPACITY)
    }

    /// An empty map of capacity `next_power_of_two(max(size, 1))`.
    pub fn with_capacity(size: usize) -> (r: Self)
        requires
            size <= MAX_CAPACITY,
        ensures
            r.wf(),
            r@ == Map::<u64, V>::empty(),
            is_capacity_for(size as nat, r.spec_capacity()),
            r.hasher() == KeyHasher::default_spec(),
    {
        LockFreeHashMap {
            inner: Table::with_capacity_and_hasher(size, KeyHasher::new()),
            newer: None,
        }
    }

    /// The number of slots of the newest table.
    pub fn capacity(&self) -> (r: usize)
        ensures
            r == self.spec_capacity(),
            self.wf() ==> is_pow2(r as nat) && self@.len() <= r,
    {
        proof {
            if self.wf() {
                self.lemma_wf();
            }
        }
        match &self.newer {
            None => self.inner.capacity(),
            Some(n) => n.capacity(),
        }
    }

    /// The number of live entries.
    pub fn len(&self) -> (r: usize)
        requires
            self.wf(),
        ensures
            r == self@.len(),
            self@.dom().finite(),
    {
        proof {
            self.lemma_wf();
        }
        match &self.newer {
            None => self.inner.len(),
            Some(n) => {
                proof {
                    let a = self.inner.live@.dom();
                    let b = n.live@.dom();
                    assert(a.disjoint(b)) by {
                        assert forall|w: u64| a.contains(w) implies !b.contains(w) by {
                            assert(self.inner.dist@.contains_key(w));
                            assert(self.inner.migrated_at(self.inner.index_of(w)));
                        }
                    }
                    lemma_set_disjoint_lens(a, b);
                    assert(self.inner.joint_view(n).dom() =~= a + b);
                    lemma_len_subset(a, self.inner.dist@.dom());
                    lemma_len_subset(b, n.dist@.dom());
                }
                self.inner.size + n.size
            },
        }
    }

    /// Replaces the contents with an empty table of capacity
    /// `DEFAULT_CAPACITY`, keeping the hasher.
    pub fn clear(&mut self)
        requires
            old(self).wf(),
        ensures
            final(self).wf(),
            final(self)@ == Map::<u64, V>::empty(),
            is_capacity_for(DEFAULT_CAPACITY as nat, final(self).spec_capacity()),
            final(self).hasher() == old(self).hasher(),
    {
        self.clear_with_capacity(DEFAULT_CAPACITY);
    }

    /// Replaces the contents with an empty table of capacity
    /// `next_power_of_two(max(capacity, 1))`, keeping the hasher. A resize in
    /// flight is abandoned with the old tables.
    pub fn clear_with_capacity(&mut self, capacity: usize)
        requires
            old(self).wf(),
            capacity <= MAX_CAPACITY,
        ensures
            final(self).wf(),
            final(self)@ == Map::<u64, V>::empty(),
            is_capacity_for(capacity as nat, final(self).spec_capacity()),
            final(self).hasher() == old(self).hasher(),
    {
        let hasher = self.inner.hasher;
        self.inner = Table::with_capacity_and_hasher(capacity, hasher);
        self.newer = None;
    }

    /// Whether the key has a live value.
    pub fn contains_key(&self, key: &K) -> (r: bool)
        requires
            self.wf(),
        ensures
            r == self@.contains_key(key.word()),
    {
        self.get(key).is_some()
    }

    /// The value bound to the key, if any. While a resize is in flight the
    /// lookup starts in the source table and goes on in the successor when
    /// the key's slot has been migrated or the key is not there.
    pub fn get(&self, key: &K) -> (r: Option<&V>)
        requires
            self.wf(),
        ensures
            match r {
                Some(v) => self@.contains_key(key.word()) && *v == self@[key.word()],
                None => !self@.contains_key(key.word()),
            },
    {
        match &self.newer {
            None => self.inner.get(key),
            Some(n) => {
                let w = key.to_word();
                let (i, _d, found) = self.inner.find_slot(w);
                proof {
                    if found {
                        assert(self.inner.dist@.contains_key(w));
                        assert(self.inner.migrated_at(i as int));
                        assert(self.inner.index_of(w) == i);
                    }
                    if self.inner.live@.contains_key(w) {
                        assert(self.inner.dist@.contains_key(w));
                    }
                }
                if found && !self.inner.slots[i].value.is_prime() {
                    proof {
                        assert(self.inner.value_wf_at(i as int));
                        assert(!n.dist@.contains_key(w));
                        assert(!n@.contains_key(w));
                    }
                    match &self.inner.slots[i].value {
                        ValueSlot::Value(v) => Some(v),
                        _ => None,
                    }
                } else {
                    n.get(key)
                }
            },
        }
    }

    /// Helps a resize in flight by one chunk, and promotes the successor
    /// once the source is drained.
    fn help_copy(&mut self)
        requires
            old(self).wf(),
        ensures
            final(self).wf(),
            final(self)@ == old(self)@,
            forall|w: u64| #[trigger]
                old(self)@.contains_key(w) ==> final(self).stored_key(w) == old(self).stored_key(w),
            final(self).spec_capacity() == old(self).spec_capacity(),
            final(self).hasher() == old(self).hasher(),
            forall|w: u64| #[trigger] final(self).key_cell_taken(w) ==> old(self).key_cell_taken(w),
            old(self).newer is None ==> *final(self) == *old(self),
            old(self).newer is Some && final(self).newer is Some ==> final(self).inner.advanced_from(
                &old(self).inner,
            ) && final(self).newer->0.advanced_from(&old(self).newer->0),
            old(self).newer is Some && final(self).newer is None ==> final(self).inner.advanced_from(
                &old(self).newer->0,
            ),
    {
        let mut taken: Option<Table<K, V>> = None;
        std::mem::swap(&mut self.newer, &mut taken);
        match taken {
            None => {},
            Some(mut n) => {
                if self.inner.copy_idx < self.inner.slots.len() {
                    self.inner.copy_chunk(&mut n);
                }
                if self.inner.copy_idx == self.inner.slots.len() {
                    proof {
                        self.inner.lemma_drained(&n);
                    }
                    self.inner = n;
                } else {
                    self.newer = Some(n);
                }
            },
        }
    }

    /// Finishes a resize in flight and promotes the successor.
    fn drain_and_promote(&mut self)
        requires
            old(self).wf(),
        ensures
            final(self).wf(),
            final(self).newer is None,
            final(self)@ == old(self)@,
            forall|w: u64| #[trigger]
                old(self)@.contains_key(w) ==> final(self).stored_key(w) == old(self).stored_key(w),
            final(self).spec_capacity() == old(self).spec_capacity(),
            final(self).hasher() == old(self).hasher(),
            forall|w: u64| #[trigger] final(self).key_cell_taken(w) ==> old(self).key_cell_taken(w),
            old(self).newer is None ==> *final(self) == *old(self),
            old(self).newer is Some ==> final(self).inner.advanced_from(&old(self).newer->0),
    {
        let mut taken: Option<Table<K, V>> = None;
        std::mem::swap(&mut self.newer, &mut taken);
        match taken {
            None => {},
            Some(mut n) => {
                self.inner.drain(&mut n);
                self.inner = n;
            },
        }
    }

    /// Allocates the successor that `inner` forwards to from now on.
    fn start_resize(&mut self)
        requires
            old(self).wf(),
            old(self).newer is None,
            (old(self)@.len() + 1) * 4 <= MAX_CAPACITY,
        ensures
            final(self).wf(),
            final(self).newer is Some,
            final(self).inner == old(self).inner,
            (final(self).newer->0.slots_used + final(self).inner.size + 1) * 4 <= final(self).newer->0.cap() * 3,
            final(self)@ == old(self)@,
            forall|w: u64| #[trigger]
                old(self)@.contains_key(w) ==> final(self).stored_key(w) == old(self).stored_key(w),
            final(self).hasher() == old(self).hasher(),
            final(self).spec_capacity() >= old(self).spec_capacity(),
            forall|w: u64| #[trigger] final(self).key_cell_taken(w) ==> old(self).key_cell_taken(w),
    {
        let n = self.inner.successor();
        self.newer = Some(n);
        proof {
            assert(self.inner.joint_view(&n) =~= self.inner@);
        }
    }

    /// Puts into the successor, after migrating the key's own source slot.
    fn put_forwarding(&mut self, key: KeyCompare<K>, value: PutValue<V>, cond: Match) -> (r: Option<V>)
        requires
            old(self).wf(),
            old(self).newer is Some,
            key is OnlyCompare ==> (cond is AnyKeyValuePair || value is Tombstone),
            key is Owned ==> (old(self).newer->0.slots_used + old(self).inner.size + 1) * 4
                <= old(self).newer->0.cap() * 3,
        ensures
            final(self).wf(),
            final(self)@ == put_view(old(self)@, key.word(), value, cond),
            r == put_prior(old(self)@, key.word(), cond),
            forall|w: u64| #[trigger]
                old(self)@.contains_key(w) ==> final(self).stored_key(w) == old(self).stored_key(w),
            final(self).spec_capacity() == old(self).spec_capacity(),
            final(self).hasher() == old(self).hasher(),
            key is Owned && value is Value && !(cond is AnyKeyValuePair) && !old(
                self,
            ).key_cell_taken(key.word()) ==> final(self).stored_key(key.word()) == key.key(),
            final(self).newer is Some,
            final(self).inner.advanced_from(&old(self).inner),
            final(self).newer->0.advanced_from(&old(self).newer->0),
    {
        let ghost pre = *self;
        let mut taken: Option<Table<K, V>> = None;
        std::mem::swap(&mut self.newer, &mut taken);
        match taken {
            None => None,
            Some(mut n) => {
                let ghost n0 = n;
                let w = key.to_word();
                let (i, _d, found) = self.inner.find_slot(w);
                if found {
                    self.inner.copy_slot_at(i, &mut n);
                }
                let ghost mid = self.inner;
                let ghost n1 = n;
                proof {
                    if found {
                        assert(self.inner.dist@.contains_key(w));
                        assert(self.inner.index_of(w) == i);
                        assert(self.inner.migrated_at(i as int));
                        assert(self.inner.has_key(i as int));
                    }
                    if self.inner.live@.contains_key(w) {
                        assert(self.inner.dist@.contains_key(w));
                    }
                    assert(!self.inner.live@.contains_key(w));
                }
                let r = match n.put_if_match(key, value, cond, false) {
                    PutOutcome::Done(prior) => prior,
                    PutOutcome::NeedsResize(_) => None,
                };
                proof {
                    assert forall|w2: u64| #[trigger] n.dist@.contains_key(w2) implies !(self.inner.dist@.contains_key(w2)
                        && self.inner.unmigrated(w2)) by {
                        if !n1.dist@.contains_key(w2) {
                            assert(w2 == w);
                        }
                    }
                    assert(self.inner.joint_view(&n) =~= put_view(pre@, w, value, cond));
                    assert forall|w2: u64| #[trigger] pre@.contains_key(w2) implies self.inner.joint_key(&n, w2)
                        == pre.stored_key(w2) by {
                        assert(mid.joint_view(&n1).contains_key(w2));
                        if !self.inner.live@.contains_key(w2) {
                            assert(n1@.contains_key(w2));
                            assert(n1.dist@.contains_key(w2));
                        }
                    }
                }
                self.newer = Some(n);
                r
            },
        }
    }

    /// The placement beneath insert, replace and remove: help a resize in
    /// flight, then put into the newest table, starting a resize first when
    /// that table is full.
    fn put(&mut self, key: KeyCompare<K>, value: PutValue<V>, cond: Match) -> (r: Option<V>)
        requires
            old(self).wf(),
            key is OnlyCompare ==> (cond is AnyKeyValuePair || value is Tombstone),
            key is Owned ==> old(self)@.len() < MAX_CAPACITY / 4,
        ensures
            final(self).wf(),
            final(self)@ == put_view(old(self)@, key.word(), value, cond),
            r == put_prior(old(self)@, key.word(), cond),
            forall|w: u64| #[trigger]
                old(self)@.contains_key(w) ==> final(self).stored_key(w) == old(self).stored_key(w),
            key is OnlyCompare ==> final(self).spec_capacity() == old(self).spec_capacity(),
            final(self).hasher() == old(self).hasher(),
            final(self).spec_capacity() >= old(self).spec_capacity(),
            key is Owned && value is Value && !(cond is AnyKeyValuePair) && !old(
                self,
            ).key_cell_taken(key.word()) ==> final(self).stored_key(key.word()) == key.key(),
            final(self).cells_advanced_from(old(self)),
    {
        self.help_copy();
        let forwarding = match &self.newer {
            Some(_) => true,
            None => false,
        };
        if forwarding {
            let room = match key {
                KeyCompare::OnlyCompare(_) => true,
                KeyCompare::Owned(_) => match &self.newer {
                    Some(n) => (n.slots_used + self.inner.size + 1) * 4 <= n.slots.len() * 3,
                    None => false,
                },
            };
            if room {
                return self.put_forwarding(key, value, cond);
            }
            self.drain_and_promote();
        }
        let ghost mid = *self;
        proof {
            assert(mid.newer is None);
        }
        match self.inner.put_if_match(key, value, cond, true) {
            PutOutcome::Done(prior) => {
                proof {
                    if key is Owned && value is Value && !(cond is AnyKeyValuePair)
                        && !mid.key_cell_taken(key.word()) {
                        assert(mid.inner.claims(key, value, cond));
                        assert(self.inner.key_of(key.word()) == key.key());
                    }
                }
                prior
            },
            PutOutcome::NeedsResize(back) => {
                self.start_resize();
                self.put_forwarding(key, back, cond)
            },
        }
    }

    /// Binds the key to the value and returns the value it displaced. An
    /// equal key already stored stays in place; only its value changes.
    /// A resize starts when the newest table is too full, or when the key
    /// would land beyond the reprobe limit.
    pub fn insert(&mut self, key: K, value: V) -> (r: Option<V>)
        requires
            old(self).wf(),
            old(self)@.len() < MAX_CAPACITY / 4,
        ensures
            final(self).wf(),
            final(self)@ == old(self)@.insert(key.word(), value),
            r == old(self)@.get(key.word()),
            forall|w: u64| #[trigger]
                old(self)@.contains_key(w) ==> final(self).stored_key(w) == old(self).stored_key(w),
            final(self).hasher() == old(self).hasher(),
            final(self).spec_capacity() >= old(self).spec_capacity(),
            !old(self).key_cell_taken(key.word()) ==> final(self).stored_key(key.word()) == key,
            final(self).cells_advanced_from(old(self)),
    {
        self.put(KeyCompare::Owned(key), PutValue::Value(value), Match::Always)
    }

    /// Binds the key to the value only where it already has a live value;
    /// returns the value it displaced. An absent key is left absent.
    pub fn replace(&mut self, key: &K, value: V) -> (r: Option<V>)
        requires
            old(self).wf(),
        ensures
            final(self).wf(),
            final(self)@ == if old(self)@.contains_key(key.word()) {
                old(self)@.insert(key.word(), value)
            } else {
                old(self)@
            },
            r == old(self)@.get(key.word()),
            final(self).spec_capacity() == old(self).spec_capacity(),
            forall|w: u64| #[trigger]
                old(self)@.contains_key(w) ==> final(self).stored_key(w) == old(self).stored_key(w),
            final(self).hasher() == old(self).hasher(),
            final(self).cells_advanced_from(old(self)),
    {
        self.put(KeyCompare::OnlyCompare(*key), PutValue::Value(value), Match::AnyKeyValuePair)
    }

    /// Removes the key, leaving a tombstone in its slot; returns the value it
    /// had.
    pub fn remove(&mut self, key: &K) -> (r: Option<V>)
        requires
            old(self).wf(),
        ensures
            final(self).wf(),
            final(self)@ == old(self)@.remove(key.word()),
            r == old(self)@.get(key.word()),
            final(self).spec_capacity() == old(self).spec_capacity(),
            forall|w: u64| #[trigger]
                final(self)@.contains_key(w) ==> final(self).stored_key(w) == old(self).stored_key(w),
            final(self).hasher() == old(self).hasher(),
            final(self).cells_advanced_from(old(self)),
    {
        self.put(KeyCompare::OnlyCompare(*key), PutValue::Tombstone, Match::Always)
    }

    /// The keys of the live entries, each once, in an unspecified order.
    /// A resize in flight is finished first.
    pub fn keys(&mut self) -> (r: Keys<K>)
        requires
            old(self).wf(),
        ensures
            final(self).wf(),
            final(self)@ == old(self)@,
            forall|j: int| 0 <= j < r@.len() ==> final(self)@.contains_key(#[trigger] r@[j].word()),
            forall|w: u64|
                final(self)@.contains_key(w) ==> exists|j: int|
                    0 <= j < r@.len() && #[trigger] r@[j].word() == w,
            forall|a: int, b: int|
                0 <= a < b < r@.len() ==> #[trigger] r@[a].word() != #[trigger] r@[b].word(),
            final(self).hasher() == old(self).hasher(),
    {
        self.drain_and_promote();
        let keys = self.inner.keys();
        let r = Keys { keys, position: 0 };
        proof {
            assert(r@ =~= keys@);
        }
        r
    }
}

} // verus!
