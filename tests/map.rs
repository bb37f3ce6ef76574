use lockfreehashmap::{HashKey, KeyHasher, LockFreeHashMap, DEFAULT_CAPACITY};

#[test]
fn test_basic() {
    let mut map = LockFreeHashMap::<u8, u8>::new();
    for i in 1..4 {
        map.insert(i, i);
    }
    assert_eq!(map.get(&1), Some(&1));
    assert_eq!(map.insert(100, 101), None);
    assert_eq!(map.insert(5, 4), None);
    assert_eq!(map.get(&4), None);
    assert_eq!(map.insert(3, 4), Some(3));
    assert_eq!(map.get(&3), Some(&4));
}

fn single_thread_insert(size: usize) {
    let mut map = LockFreeHashMap::<usize, String>::new();
    for i in 0..size {
        map.insert(i, i.to_string());
        assert_eq!(i + 1, map.len());
        for j in 0..(i + 1) {
            assert_eq!(Some(&j.to_string()), map.get(&j));
        }
    }
    let mut one = String::new();
    if size > 1 {
        one = map.get(&1).expect("map should have at least one").clone();
    }
    for i in 0..size {
        assert_eq!(Some(&i.to_string()), map.get(&i));
    }
    if size > 1 {
        assert_eq!(one, "1");
    }
}

#[test]
fn test_single_thread() {
    for i in [1, 2, 3, 4, 5, 6, 7, 8, 9, 10, 11, 15, 16, 17, 31, 32, 33].iter() {
        single_thread_insert(*i);
    }
    single_thread_insert(256);
}

#[test]
fn test_resize() {
    let mut map = LockFreeHashMap::<u32, Box<u32>>::with_capacity(4);
    for i in 1..256 {
        map.insert(i, Box::new(i));
        let got = **map.get(&i).expect(&format!("test_resize get {}", i));
        assert_eq!(i, got);
    }
    for i in 1..256 {
        let got = *map.remove(&i).expect(&format!("test_resize remove {}", i));
        assert_eq!(i, got);
    }
}

/// A small linear congruential generator, so that the run is repeatable.
struct Lcg(u64);

impl Lcg {
    fn next(&mut self) -> u64 {
        self.0 = self.0.wrapping_mul(6364136223846793005).wrapping_add(1442695040888963407);
        self.0 >> 33
    }
}

#[test]
fn test_heavy_usage() {
    const NUMBER_OF_KEYS: usize = 100;
    const NUMBER_OF_VALUES_PER_KEY: usize = 5;
    const NUMBER_OF_THREADS: usize = 30;
    const NUMBER_OF_OPERATIONS_PER_THREAD: usize = 1000;
    let mut rng = Lcg(1);
    let mut valid_states: Vec<(u32, Vec<u32>)> = Vec::new();
    for _ in 0..NUMBER_OF_KEYS {
        let key = rng.next() as u32;
        let mut valid_values = Vec::new();
        for _ in 0..NUMBER_OF_VALUES_PER_KEY {
            valid_values.push(rng.next() as u32);
        }
        valid_values.sort();
        valid_states.push((key, valid_values));
    }
    let mut map = LockFreeHashMap::<u32, u32>::new();
    for _ in 0..NUMBER_OF_THREADS {
        for _ in 0..NUMBER_OF_OPERATIONS_PER_THREAD {
            let op = rng.next() % 3;
            let key = (rng.next() as usize) % NUMBER_OF_KEYS;
            let value = (rng.next() as usize) % NUMBER_OF_VALUES_PER_KEY;
            match op {
                0 => {
                    if let Some(previous) =
                        map.insert(valid_states[key].0, valid_states[key].1[value])
                    {
                        valid_states[key].1.binary_search(&previous).expect("test_heavy_usage 0");
                    }
                }
                1 => {
                    if let Some(previous) = map.remove(&valid_states[key].0) {
                        valid_states[key].1.binary_search(&previous).expect("test_heavy_usage 1");
                    }
                }
                _ => {
                    if let Some(get) = map.get(&valid_states[key].0) {
                        valid_states[key].1.binary_search(get).expect("test_heavy_usage 2");
                    }
                }
            }
        }
    }
}

#[test]
fn three_inserts_then_lookups() {
    let mut map = LockFreeHashMap::<u64, u64>::new();
    map.insert(1, 1);
    map.insert(2, 2);
    map.insert(3, 3);
    assert_eq!(map.len(), 3);
    assert_eq!(map.get(&2), Some(&2));
    assert_eq!(map.get(&4), None);
}

#[test]
fn many_keys_from_capacity_four() {
    let mut map = LockFreeHashMap::<usize, String>::with_capacity(4);
    assert_eq!(map.capacity(), 4);
    for i in 0..256 {
        map.insert(i, i.to_string());
        assert_eq!(map.len(), i + 1);
        for j in 0..=i {
            assert_eq!(map.get(&j), Some(&j.to_string()));
        }
    }
    assert!(map.capacity() >= 256);
}

#[test]
fn four_disjoint_writers() {
    let mut map = LockFreeHashMap::<u64, u64>::new();
    // Four writers, each with its own hundred keys, interleaved one step at a time.
    for i in 1..=100u64 {
        for t in 0..4u64 {
            let k = t * 100 + i;
            assert_eq!(map.insert(k, k), None);
        }
    }
    assert_eq!(map.len(), 400);
    for k in 1..=400u64 {
        assert_eq!(map.get(&k), Some(&k));
    }
}

#[test]
fn insert_replace_remove_cycle() {
    let mut map = LockFreeHashMap::<u64, String>::new();
    assert_eq!(map.insert(7, "v".to_string()), None);
    assert_eq!(map.replace(&7, "v1".to_string()), Some("v".to_string()));
    assert_eq!(map.remove(&7), Some("v1".to_string()));
    assert_eq!(map.get(&7), None);
    assert_eq!(map.replace(&7, "v2".to_string()), None);
    assert_eq!(map.get(&7), None);
    assert_eq!(map.len(), 0);
}

#[test]
fn inserts_from_capacity_four_then_remove_all() {
    let mut map = LockFreeHashMap::<u32, u32>::with_capacity(4);
    for i in 1..256u32 {
        map.insert(i, i * 10);
        assert_eq!(map.get(&i), Some(&(i * 10)));
    }
    assert_eq!(map.len(), 255);
    for i in 1..256u32 {
        assert_eq!(map.remove(&i), Some(i * 10));
    }
    assert_eq!(map.len(), 0);
    for i in 1..256u32 {
        assert_eq!(map.get(&i), None);
    }
}

#[test]
fn clear_with_capacity_fifteen() {
    let mut map = LockFreeHashMap::<u32, String>::with_capacity(8);
    map.insert(5, String::from("five"));
    let held = map.get(&5).cloned();
    assert_eq!(map.capacity(), 8);
    assert_eq!(map.len(), 1);
    map.clear_with_capacity(15);
    assert_eq!(map.capacity(), 16);
    assert_eq!(map.len(), 0);
    assert_eq!(map.get(&5), None);
    assert_eq!(held, Some(String::from("five")));
}

#[test]
fn clear_restores_default_capacity() {
    let mut map = LockFreeHashMap::<u32, u32>::with_capacity(2);
    for i in 0..20 {
        map.insert(i, i);
    }
    assert!(map.capacity() > DEFAULT_CAPACITY);
    map.clear();
    assert_eq!(map.capacity(), DEFAULT_CAPACITY);
    assert_eq!(map.len(), 0);
    assert!(!map.contains_key(&3));
}

#[test]
fn capacity_is_next_power_of_two() {
    assert_eq!(LockFreeHashMap::<u32, u32>::new().capacity(), 8);
    assert_eq!(LockFreeHashMap::<u32, u32>::with_capacity(0).capacity(), 1);
    assert_eq!(LockFreeHashMap::<u32, u32>::with_capacity(1).capacity(), 1);
    assert_eq!(LockFreeHashMap::<u32, u32>::with_capacity(12).capacity(), 16);
    assert_eq!(LockFreeHashMap::<u32, u32>::with_capacity(16).capacity(), 16);
    let map = LockFreeHashMap::<u32, u32>::with_capacity_and_hasher(10, KeyHasher::with_seed(3));
    assert_eq!(map.capacity(), 16);
    assert_eq!(map.len(), 0);
}

#[test]
fn contains_key_follows_insert_and_remove() {
    let mut map = LockFreeHashMap::<i32, i32>::new();
    assert!(!map.contains_key(&3));
    map.insert(3, 8934);
    assert!(map.contains_key(&3));
    map.remove(&3);
    assert!(!map.contains_key(&3));
}

#[test]
fn replace_only_touches_present_keys() {
    let mut map = LockFreeHashMap::<i32, i32>::new();
    assert_eq!(map.replace(&1, 1), None);
    assert_eq!(map.replace(&1, 1), None);
    assert_eq!(map.insert(1, 1), None);
    assert_eq!(map.replace(&1, 3), Some(1));
    assert_eq!(map.get(&1), Some(&3));
    assert_eq!(map.len(), 1);
}

#[test]
fn remove_of_absent_key_is_a_no_op() {
    let mut map = LockFreeHashMap::<u64, u64>::new();
    assert_eq!(map.remove(&1), None);
    map.insert(2, 20);
    assert_eq!(map.remove(&1), None);
    assert_eq!(map.len(), 1);
    assert_eq!(map.get(&2), Some(&20));
}

#[test]
fn reinsert_after_remove_reuses_the_key() {
    let mut map = LockFreeHashMap::<u64, u64>::with_capacity(4);
    for round in 0..50u64 {
        assert_eq!(map.insert(9, round), None);
        assert_eq!(map.get(&9), Some(&round));
        assert_eq!(map.remove(&9), Some(round));
    }
    assert_eq!(map.len(), 0);
}

#[test]
fn tombstone_churn_keeps_mapping() {
    let mut map = LockFreeHashMap::<u64, u64>::with_capacity(8);
    for i in 0..500u64 {
        map.insert(i, i + 1);
        if i >= 3 {
            assert_eq!(map.remove(&(i - 3)), Some(i - 2));
        }
    }
    assert_eq!(map.len(), 3);
    for i in 0..497u64 {
        assert_eq!(map.get(&i), None);
    }
    for i in 497..500u64 {
        assert_eq!(map.get(&i), Some(&(i + 1)));
    }
}

#[test]
fn keys_lists_each_live_key_once() {
    let mut map = LockFreeHashMap::<i32, String>::new();
    map.insert(4, "Four".to_string());
    map.insert(8, "Eight".to_string());
    map.insert(15, "Fifteen".to_string());
    map.insert(16, "Sixteen".to_string());
    map.insert(23, "TwentyThree".to_string());
    map.insert(42, "FortyTwo".to_string());
    let mut keys = Vec::new();
    let mut it = map.keys();
    while let Some(k) = it.next() {
        keys.push(k);
    }
    keys.sort();
    assert_eq!(vec![4, 8, 15, 16, 23, 42], keys);
    map.remove(&16);
    let mut keys = Vec::new();
    let mut it = map.keys();
    while let Some(k) = it.next() {
        keys.push(k);
    }
    keys.sort();
    assert_eq!(vec![4, 8, 15, 23, 42], keys);
}

#[test]
fn keys_after_many_resizes() {
    let mut map = LockFreeHashMap::<u64, u64>::with_capacity(1);
    for i in 0..300u64 {
        map.insert(i * 7, i);
    }
    let mut keys = Vec::new();
    let mut it = map.keys();
    while let Some(k) = it.next() {
        keys.push(k);
    }
    assert_eq!(it.next(), None);
    keys.sort();
    let expected: Vec<u64> = (0..300u64).map(|i| i * 7).collect();
    assert_eq!(keys, expected);
}

#[test]
fn seeded_hasher_gives_same_mapping() {
    let mut a = LockFreeHashMap::<u64, u64>::with_capacity_and_hasher(4, KeyHasher::with_seed(0));
    let mut b = LockFreeHashMap::<u64, u64>::with_capacity_and_hasher(4, KeyHasher::with_seed(99));
    for i in 0..100u64 {
        a.insert(i, i * i);
        b.insert(i, i * i);
    }
    for i in 0..100u64 {
        assert_eq!(a.get(&i), b.get(&i));
    }
    assert_eq!(a.len(), b.len());
}

#[test]
fn hash_mix_values() {
    let h = KeyHasher::new();
    assert_eq!(h.seed, 0);
    assert_eq!(h.hash_word_of(0), 0);
    assert_eq!(h.hash_word_of(1), 0x9e37_79b9_e17d_05ac);
    assert_eq!(KeyHasher::with_seed(7).hash_word_of(1), 0xb54c_da58_4ef2_3226);
}

#[test]
fn key_words() {
    assert_eq!(200u8.to_word(), 200);
    assert_eq!(60000u16.to_word(), 60000);
    assert_eq!(4_000_000_000u32.to_word(), 4_000_000_000);
    assert_eq!(u64::MAX.to_word(), u64::MAX);
    assert_eq!(12usize.to_word(), 12);
}

/// A key whose tag takes no part in equality.
#[derive(Clone, Copy, Debug, PartialEq)]
struct Tagged {
    id: u64,
    tag: char,
}

impl HashKey for Tagged {
    fn word(&self) -> u64 {
        self.id
    }

    fn to_word(&self) -> u64 {
        self.id
    }
}

#[test]
fn equal_key_keeps_first_stored_key() {
    let mut map = LockFreeHashMap::<Tagged, u32>::with_capacity(2);
    assert_eq!(map.insert(Tagged { id: 1, tag: 'a' }, 10), None);
    assert_eq!(map.insert(Tagged { id: 1, tag: 'b' }, 11), Some(10));
    for i in 2..40u64 {
        map.insert(Tagged { id: i, tag: 'x' }, i as u32);
    }
    assert_eq!(map.replace(&Tagged { id: 1, tag: 'c' }, 12), Some(11));
    assert_eq!(map.get(&Tagged { id: 1, tag: 'z' }), Some(&12));
    let mut it = map.keys();
    let mut found = None;
    while let Some(k) = it.next() {
        if k.id == 1 {
            found = Some(k);
        }
    }
    assert_eq!(found, Some(Tagged { id: 1, tag: 'a' }));
}

#[test]
fn signed_keys() {
    let mut map = LockFreeHashMap::<i64, i64>::new();
    for i in -50..50i64 {
        map.insert(i, -i);
    }
    assert_eq!(map.len(), 100);
    assert_eq!(map.get(&-1), Some(&1));
    assert_eq!(map.get(&49), Some(&-49));
    assert_eq!(map.get(&50), None);
    assert_eq!((-1i32).to_word(), u64::MAX);
}

#[test]
fn resize_in_flight_between_operations() {
    let mut map = LockFreeHashMap::<u64, u64>::with_capacity(64);
    for i in 0..49u64 {
        map.insert(i, i + 1000);
    }
    // The successor is the newest table while its source is still being drained.
    assert_eq!(map.capacity(), 128);
    assert_eq!(map.len(), 49);
    for i in 0..49u64 {
        assert_eq!(map.get(&i), Some(&(i + 1000)));
    }
    assert_eq!(map.get(&49), None);
    assert_eq!(map.replace(&3, 3), Some(1003));
    assert_eq!(map.remove(&40), Some(1040));
    assert_eq!(map.insert(60, 60), None);
    assert_eq!(map.len(), 49);
    for i in 0..49u64 {
        let expected = if i == 3 { Some(3) } else if i == 40 { None } else { Some(i + 1000) };
        assert_eq!(map.get(&i).copied(), expected);
    }
    assert_eq!(map.get(&60), Some(&60));
    assert_eq!(map.capacity(), 128);
    let mut count = 0;
    let mut it = map.keys();
    while it.next().is_some() {
        count += 1;
    }
    assert_eq!(count, 49);
}
