use lockfreehashmap::slot::{KeySlot, ValueSlot};
use lockfreehashmap::table::{
    effective_capacity, reprobe_limit, KeyCompare, Match, PutOutcome, PutValue, Table,
};
use lockfreehashmap::KeyHasher;

fn done(r: PutOutcome<u32>) -> Option<u32> {
    match r {
        PutOutcome::Done(prior) => prior,
        PutOutcome::NeedsResize(_) => panic!("unexpected resize request"),
    }
}

#[test]
fn effective_capacity_rounds_up() {
    assert_eq!(effective_capacity(0), 1);
    assert_eq!(effective_capacity(1), 1);
    assert_eq!(effective_capacity(2), 2);
    assert_eq!(effective_capacity(3), 4);
    assert_eq!(effective_capacity(15), 16);
    assert_eq!(effective_capacity(17), 32);
    assert_eq!(effective_capacity(1024), 1024);
}

#[test]
fn reprobe_limit_values() {
    assert_eq!(reprobe_limit(1), 1);
    assert_eq!(reprobe_limit(8), 8);
    assert_eq!(reprobe_limit(16), 14);
    assert_eq!(reprobe_limit(1024), 20);
}

#[test]
fn put_asks_for_resize_past_load_limit() {
    let mut t = Table::<u32, u32>::with_capacity_and_hasher(4, KeyHasher::new());
    assert_eq!(done(t.put_if_match(KeyCompare::Owned(1), PutValue::Value(10), Match::Always, true)), None);
    assert_eq!(done(t.put_if_match(KeyCompare::Owned(2), PutValue::Value(20), Match::Always, true)), None);
    assert_eq!(done(t.put_if_match(KeyCompare::Owned(3), PutValue::Value(30), Match::Always, true)), None);
    assert_eq!(t.slots_used, 3);
    match t.put_if_match(KeyCompare::Owned(4), PutValue::Value(40), Match::Always, true) {
        PutOutcome::NeedsResize(PutValue::Value(v)) => assert_eq!(v, 40),
        _ => panic!("expected a resize request"),
    }
    assert_eq!(t.len(), 3);
    // An existing key is rewritten in place even when the table is full.
    assert_eq!(done(t.put_if_match(KeyCompare::Owned(2), PutValue::Value(21), Match::Always, true)), Some(20));
    assert_eq!(t.get(&2), Some(&21));
}

#[test]
fn put_conditions() {
    let mut t = Table::<u32, u32>::with_capacity_and_hasher(16, KeyHasher::new());
    assert_eq!(done(t.put_if_match(KeyCompare::OnlyCompare(5), PutValue::Value(1), Match::AnyKeyValuePair, true)), None);
    assert_eq!(t.get(&5), None);
    assert_eq!(done(t.put_if_match(KeyCompare::Owned(5), PutValue::Value(1), Match::NoValue, true)), None);
    assert_eq!(t.get(&5), Some(&1));
    assert_eq!(done(t.put_if_match(KeyCompare::Owned(5), PutValue::Value(2), Match::NoValue, true)), None);
    assert_eq!(t.get(&5), Some(&1));
    assert_eq!(done(t.put_if_match(KeyCompare::OnlyCompare(5), PutValue::Tombstone, Match::Always, true)), Some(1));
    assert_eq!(t.get(&5), None);
    assert_eq!(t.len(), 0);
    assert_eq!(t.slots_used, 1);
    assert_eq!(done(t.put_if_match(KeyCompare::Owned(5), PutValue::Value(3), Match::NoValue, true)), None);
    assert_eq!(t.get(&5), Some(&3));
    assert_eq!(t.slots_used, 1);
}

#[test]
fn removed_key_keeps_its_cell() {
    let mut t = Table::<u32, u32>::with_capacity_and_hasher(8, KeyHasher::new());
    done(t.put_if_match(KeyCompare::Owned(9), PutValue::Value(90), Match::Always, true));
    done(t.put_if_match(KeyCompare::OnlyCompare(9), PutValue::Tombstone, Match::Always, true));
    let mut tombstones = 0;
    for s in t.slots.iter() {
        if let (KeySlot::Key(9), ValueSlot::Tombstone) = (&s.key, &s.value) {
            tombstones += 1;
        }
    }
    assert_eq!(tombstones, 1);
}

#[test]
fn resize_moves_every_live_entry() {
    let mut t = Table::<u32, u32>::with_capacity_and_hasher(4, KeyHasher::new());
    done(t.put_if_match(KeyCompare::Owned(1), PutValue::Value(10), Match::Always, true));
    done(t.put_if_match(KeyCompare::Owned(2), PutValue::Value(20), Match::Always, true));
    done(t.put_if_match(KeyCompare::Owned(3), PutValue::Value(30), Match::Always, true));
    done(t.put_if_match(KeyCompare::OnlyCompare(2), PutValue::Tombstone, Match::Always, true));
    let newer = t.resize();
    assert_eq!(newer.capacity(), 8);
    assert_eq!(newer.len(), 2);
    assert_eq!(newer.slots_used, 2);
    assert_eq!(newer.get(&1), Some(&10));
    assert_eq!(newer.get(&2), None);
    assert_eq!(newer.get(&3), Some(&30));
    assert_eq!(t.copy_done, 4);
    assert_eq!(t.copy_idx, 4);
    for s in t.slots.iter() {
        assert!(matches!(s.value, ValueSlot::Copied));
    }
}

#[test]
fn resize_in_chunks() {
    let mut t = Table::<u32, u32>::with_capacity_and_hasher(64, KeyHasher::new());
    for i in 0..40u32 {
        done(t.put_if_match(KeyCompare::Owned(i), PutValue::Value(i + 100), Match::Always, false));
    }
    let newer = t.resize();
    assert_eq!(newer.capacity(), 128);
    assert_eq!(newer.len(), 40);
    for i in 0..40u32 {
        assert_eq!(newer.get(&i), Some(&(i + 100)));
    }
}

#[test]
fn prime_then_finish_slot() {
    let mut t = Table::<u32, u32>::with_capacity_and_hasher(4, KeyHasher::new());
    done(t.put_if_match(KeyCompare::Owned(1), PutValue::Value(10), Match::Always, true));
    let (i, _, found) = t.find_slot(1);
    assert!(found);
    t.prime_slot(i);
    assert!(matches!(t.slots[i].value, ValueSlot::Prime(10)));
    assert!(t.slots[i].value.is_prime());
    assert!(!t.slots[i].value.is_value());
    assert_eq!(t.finish_slot(i), Some(10));
    assert!(matches!(t.slots[i].value, ValueSlot::Copied));
    let (j, _, found) = t.find_slot(2);
    assert!(!found);
    t.prime_slot(j);
    assert!(matches!(t.slots[j].value, ValueSlot::Copied));
    assert_eq!(t.finish_slot(j), None);
}

#[test]
fn keys_of_a_table() {
    let mut t = Table::<u32, u32>::with_capacity_and_hasher(16, KeyHasher::with_seed(5));
    for i in 0..6u32 {
        done(t.put_if_match(KeyCompare::Owned(i), PutValue::Value(i), Match::Always, true));
    }
    done(t.put_if_match(KeyCompare::OnlyCompare(3), PutValue::Tombstone, Match::Always, true));
    let mut ks = t.keys();
    ks.sort();
    assert_eq!(ks, vec![0, 1, 2, 4, 5]);
}
