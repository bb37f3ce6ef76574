//! The contents of a table slot and the rules its cells obey.
use vstd::prelude::*;

verus! {

/// Contents of a key cell. A key cell is written once: `Empty` becomes
/// `Key(k)` and never changes again within its table.
#[derive(Clone, Copy, Debug)]
pub enum KeySlot<K> {
    Empty,
    Key(K),
}

/// Contents of a value cell.
#[derive(Debug)]
pub enum ValueSlot<V> {
    /// No value has been written yet.
    Empty,
    /// The live value bound to the slot's key.
    Value(V),
    /// The key was removed; the key cell stays taken so that probe chains hold.
    Tombstone,
    /// A live value captured for migration: this table takes no further
    /// writes for the slot, and readers go to the successor.
    Prime(V),
    /// The slot's migration is finished (a primed tombstone).
    Copied,
}

/// One slot of a table: a key cell and its value cell.
#[derive(Debug)]
pub struct Slot<K, V> {
    pub key: KeySlot<K>,
    pub value: ValueSlot<V>,
}

impl<V> ValueSlot<V> {
    /// Position of the cell in the lattice of finality:
    /// `Empty` < `Value` = `Tombstone` < `Prime` < `Copied`.
    pub open spec fn rank(&self) -> nat {
        match self {
            ValueSlot::Empty => 0,
            ValueSlot::Value(_) => 1,
            ValueSlot::Tombstone => 1,
            ValueSlot::Prime(_) => 2,
            ValueSlot::Copied => 3,
        }
    }

    /// The cell is not captured by a migration.
    pub open spec fn is_unprimed(&self) -> bool {
        self.rank() <= 1
    }

    pub fn is_value(&self) -> (r: bool)
        ensures
            r == self is Value,
    {
        match self {
            ValueSlot::Value(_) => true,
            _ => false,
        }
    }

    pub fn is_prime(&self) -> (r: bool)
        ensures
            r == (self.rank() >= 2),
    {
        match self {
            ValueSlot::Prime(_) => true,
            ValueSlot::Copied => true,
            _ => false,
        }
    }
}

/// What capturing a cell for migration makes of it: a live value is primed,
/// an empty or removed cell is finalised at once.
pub open spec fn primed<V>(cur: ValueSlot<V>) -> ValueSlot<V> {
    match cur {
        ValueSlot::Value(v) => ValueSlot::Prime(v),
        ValueSlot::Prime(v) => ValueSlot::Prime(v),
        _ => ValueSlot::Copied,
    }
}

/// The transitions a value cell may take in one successful write:
/// insert, update, remove and re-insert among the unprimed states; capture of
/// a live value by priming it; direct finalisation of an empty or removed
/// cell; finalisation of a primed cell.
pub open spec fn value_step<V>(cur: ValueSlot<V>, next: ValueSlot<V>) -> bool {
    match (cur, next) {
        (ValueSlot::Empty, ValueSlot::Value(_)) => true,
        (ValueSlot::Empty, ValueSlot::Tombstone) => true,
        (ValueSlot::Value(_), ValueSlot::Value(_)) => true,
        (ValueSlot::Value(_), ValueSlot::Tombstone) => true,
        (ValueSlot::Tombstone, ValueSlot::Value(_)) => true,
        (ValueSlot::Value(v), ValueSlot::Prime(p)) => v == p,
        (ValueSlot::Empty, ValueSlot::Copied) => true,
        (ValueSlot::Tombstone, ValueSlot::Copied) => true,
        (ValueSlot::Prime(_), ValueSlot::Copied) => true,
        _ => false,
    }
}

/// A cell either keeps its contents or takes one allowed step.
pub open spec fn value_step_or_stay<V>(cur: ValueSlot<V>, next: ValueSlot<V>) -> bool {
    cur == next || value_step(cur, next)
}

/// The transitions a key cell may take: only `Empty` to `Key(k)`.
pub open spec fn key_step_or_stay<K>(cur: KeySlot<K>, next: KeySlot<K>) -> bool {
    cur == next || (cur is Empty && next is Key)
}

/// A value cell moved along the lattice by any number of allowed steps: its
/// rank never falls, and a primed value only stays or becomes `Copied`.
pub open spec fn value_advanced<V>(cur: ValueSlot<V>, next: ValueSlot<V>) -> bool {
    &&& next.rank() >= cur.rank()
    &&& cur is Prime ==> (next == cur || next is Copied)
}

/// Each allowed step advances a cell, and advancing composes.
pub proof fn lemma_value_advanced<V>(a: ValueSlot<V>, b: ValueSlot<V>, c: ValueSlot<V>)
    ensures
        value_step_or_stay(a, b) ==> value_advanced(a, b),
        value_advanced(a, b) && value_advanced(b, c) ==> value_advanced(a, c),
{
}

/// No allowed step lowers a value cell's rank, and once primed a cell never
/// returns to an unprimed state.
pub proof fn lemma_value_step_monotone<V>(cur: ValueSlot<V>, next: ValueSlot<V>)
    requires
        value_step_or_stay(cur, next),
    ensures
        next.rank() >= cur.rank(),
        !cur.is_unprimed() ==> !next.is_unprimed(),
{
}

/// A written key cell keeps its key.
pub proof fn lemma_key_write_once<K>(cur: KeySlot<K>, next: KeySlot<K>)
    requires
        key_step_or_stay(cur, next),
        cur is Key,
    ensures
        next == cur,
{
}

} // verus!
