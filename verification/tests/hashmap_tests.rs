use std::hash::{Hash, Hasher};
use jaysondb::hashers::AHHasher;
use jaysondb::hashmap::AmazingHashMap;
use jaysondb::keys::HashKey;

fn home_of(key: usize, mask: u64) -> usize {
    let mut hasher = AHHasher::new();
    key.feed(&mut hasher);
    (hasher.finish() & mask) as usize
}

#[test]
fn basic_no_collision_insert() {
    let mut hashmap = AmazingHashMap::<usize, usize>::new();
    let key = 1usize;
    let value = 1337usize;

    let mut hasher = AHHasher::new();
    key.feed(&mut hasher);
    let hash = hasher.finish() & hashmap.mask();

    hashmap.insert(key, value);

    let index = hashmap.entry_index()[hash as usize].unwrap().index;
    let returned_val = hashmap.table()[index].unwrap().value;

    assert_eq!(value, returned_val);

    let key = 42usize;
    let value = 1231;

    let mut hasher = AHHasher::new();
    key.feed(&mut hasher);
    let hash = hasher.finish() & hashmap.mask();

    hashmap.insert(key, value);

    let index = hashmap.entry_index()[hash as usize].unwrap().index;
    let returned_val = hashmap.table()[index].unwrap().value;

    assert_eq!(value, returned_val);
}

#[test]
fn test_update_value_no_collision() {
    let mut hashmap = AmazingHashMap::<usize, usize>::new();
    let key = 1usize;

    hashmap.insert(key, 1337);

    hashmap.insert(key, 2021);

    let mut hasher = AHHasher::new();
    key.feed(&mut hasher);
    let hash = hasher.finish() & hashmap.mask();

    let returned_val = hashmap.table()[hashmap.entry_index()[hash as usize].unwrap().index]
        .unwrap()
        .value;
    assert_eq!(2021, returned_val);
}

#[test]
fn test_lookup() {
    let mut hashmap = AmazingHashMap::<usize, usize>::new();
    hashmap.insert(321, 4124);

    assert_eq!(4124, hashmap.lookup(&321).unwrap().value);
    assert!(hashmap.lookup(&31231).is_none())
}

#[test]
fn test_resize() {
    let mut hashmap = AmazingHashMap::<usize, usize>::new();
    for i in 0..14 {
        hashmap.insert(i, i * 10);
    }
    for i in 0..14 {
        assert!(hashmap.lookup(&i).unwrap().value == i * 10)
    }
}

#[test]
fn hasher_starts_at_seed() {
    assert_eq!(AHHasher::new().finish(), 5381);
}

#[test]
fn hasher_folds_bytes_with_djb2() {
    let mut hasher = AHHasher::new();
    hasher.write(b"hello");
    assert_eq!(hasher.finish(), 210714636441);
    let mut split = AHHasher::new();
    split.write(b"he");
    split.write(b"llo");
    assert_eq!(split.finish(), 210714636441);
}

#[test]
fn key_hashes_have_known_values() {
    let m = AmazingHashMap::<usize, usize>::new();
    assert_eq!(m.hash(&0usize), 7567884774754821);
    assert_eq!(m.hash(&1usize), 7567927393197798);
    assert_eq!(m.hash(&42usize), 7569674749359855);
    let s = AmazingHashMap::<String, String>::new();
    assert_eq!(s.hash(&"abc".to_string()), 6385037034);
    assert_eq!(s.hash(&String::new()), 177828);
}

#[test]
fn new_map_is_empty_with_eight_slots() {
    let m = AmazingHashMap::<usize, usize>::new();
    assert_eq!(m.capacity(), 8);
    assert_eq!(m.mask(), 7);
    assert!(m.table().is_empty());
    assert!(m.entry_index().iter().all(|s| s.is_none()));
}

#[test]
fn colliding_keys_probe_linearly() {
    let mut m = AmazingHashMap::<usize, usize>::new();
    // 0, 8 and 16 share home slot 5 of eight slots; 1 has home 6.
    assert_eq!(home_of(0, 7), 5);
    assert_eq!(home_of(8, 7), 5);
    assert_eq!(home_of(16, 7), 5);
    assert_eq!(home_of(1, 7), 6);
    m.insert(0, 100);
    m.insert(8, 108);
    m.insert(16, 116);
    m.insert(1, 101);
    assert_eq!(m.capacity(), 8);
    let slots = m.entry_index();
    assert_eq!(slots[5].unwrap().index, 0);
    assert_eq!(slots[6].unwrap().index, 1);
    assert_eq!(slots[7].unwrap().index, 2);
    assert_eq!(slots[0].unwrap().index, 3);
    for (k, v) in [(0, 100), (8, 108), (16, 116), (1, 101)] {
        assert_eq!(m.lookup(&k).unwrap().value, v);
    }
    assert!(m.lookup(&24).is_none());
    assert!(m.lookup(&2).is_none());
}

#[test]
fn robin_hood_steals_from_the_rich() {
    let mut m = AmazingHashMap::<usize, usize>::new();
    // 1 sits at its home 6, and 0 at its home 5.
    m.insert(1, 1);
    m.insert(0, 0);
    // 8 (home 5) is one step from home at slot 6, where 1 is at home: 8 takes
    // slot 6 and 1 moves on to slot 7.
    m.insert(8, 8);
    let slots = m.entry_index();
    assert_eq!(slots[5].unwrap().index, 1);
    assert_eq!(slots[6].unwrap().index, 2);
    assert_eq!(slots[7].unwrap().index, 0);
    // 16 (home 5) is two steps from home at slot 7, where 1 is one step from
    // home: 16 takes slot 7 and 1 moves on to slot 0.
    m.insert(16, 16);
    let slots = m.entry_index();
    assert_eq!(slots[7].unwrap().index, 3);
    assert_eq!(slots[0].unwrap().index, 0);
    for k in [1usize, 0, 8, 16] {
        assert_eq!(m.lookup(&k).unwrap().value, k);
    }
}

#[test]
fn delete_shifts_followers_back() {
    let mut m = AmazingHashMap::<usize, usize>::new();
    m.insert(0, 100);
    m.insert(8, 108);
    m.insert(16, 116);
    m.insert(1, 101);
    assert_eq!(m.delete(8), Ok(()));
    assert!(m.lookup(&8).is_none());
    for (k, v) in [(0, 100), (16, 116), (1, 101)] {
        assert_eq!(m.lookup(&k).unwrap().value, v);
    }
    let slots = m.entry_index();
    assert!(slots[0].is_none());
    assert_eq!(m.table().len(), 3);
    // The last entry (key 1) took the deleted entry's place in the table.
    assert_eq!(m.table()[1].unwrap().key, 1);
}

#[test]
fn delete_missing_key_is_an_error() {
    let mut m = AmazingHashMap::<usize, usize>::new();
    m.insert(3, 30);
    assert_eq!(m.delete(4), Err("No entry with that key"));
    assert_eq!(m.table().len(), 1);
    assert_eq!(m.lookup(&3).unwrap().value, 30);
    let mut empty = AmazingHashMap::<usize, usize>::new();
    assert_eq!(empty.delete(0), Err("No entry with that key"));
    assert!(empty.table().is_empty());
    assert_eq!(empty.capacity(), 8);
    assert!(empty.entry_index().iter().all(|s| s.is_none()));
}

#[test]
fn delete_most_recent_and_only_entries() {
    let mut m = AmazingHashMap::<usize, usize>::new();
    m.insert(5, 50);
    m.insert(6, 60);
    assert_eq!(m.delete(6), Ok(()));
    assert!(m.lookup(&6).is_none());
    assert_eq!(m.lookup(&5).unwrap().value, 50);
    assert_eq!(m.delete(5), Ok(()));
    assert!(m.table().is_empty());
    assert!(m.entry_index().iter().all(|s| s.is_none()));
}

#[test]
fn insert_then_delete_restores_the_map() {
    let mut m = AmazingHashMap::<usize, usize>::new();
    m.insert(10, 1);
    m.insert(20, 2);
    m.insert(30, 3);
    assert_eq!(m.delete(30), Ok(()));
    assert!(m.lookup(&30).is_none());
    assert_eq!(m.lookup(&10).unwrap().value, 1);
    assert_eq!(m.lookup(&20).unwrap().value, 2);
    assert_eq!(m.table().len(), 2);
}

#[test]
fn table_keeps_insertion_order() {
    let mut m = AmazingHashMap::<usize, usize>::new();
    for k in [7usize, 3, 9, 1] {
        m.insert(k, k + 100);
    }
    m.insert(3, 0);
    let keys: Vec<usize> = m.table().iter().map(|e| e.unwrap().key).collect();
    assert_eq!(keys, vec![7, 3, 9, 1]);
    assert_eq!(m.table()[1].unwrap().value, 0);
}

#[test]
fn resize_doubles_and_keeps_load_below_two_thirds() {
    let mut m = AmazingHashMap::<usize, usize>::new();
    for i in 0..5 {
        m.insert(i, i);
    }
    assert_eq!(m.capacity(), 8);
    m.insert(5, 5);
    assert_eq!(m.capacity(), 16);
    assert_eq!(m.mask(), 15);
    for i in 6..11 {
        m.insert(i, i);
    }
    assert_eq!(m.capacity(), 32);
    for i in 0..11 {
        assert_eq!(m.lookup(&i).unwrap().value, i);
    }
}

#[test]
fn string_keys() {
    let mut m = AmazingHashMap::<String, String>::new();
    m.insert("alpha".to_string(), "1".to_string());
    m.insert("beta".to_string(), "2".to_string());
    m.insert("alpha".to_string(), "3".to_string());
    assert_eq!(m.lookup(&"alpha".to_string()).unwrap().value, "3");
    assert_eq!(m.lookup(&"beta".to_string()).unwrap().value, "2");
    assert!(m.lookup(&"gamma".to_string()).is_none());
    assert_eq!(m.delete("alpha".to_string()), Ok(()));
    assert!(m.lookup(&"alpha".to_string()).is_none());
}

#[test]
fn agrees_with_std_map_under_churn() {
    let mut m = AmazingHashMap::<usize, usize>::new();
    let mut model = std::collections::HashMap::new();
    let mut x: u64 = 12345;
    for step in 0..4000usize {
        x = x.wrapping_mul(6364136223846793005).wrapping_add(1442695040888963407);
        let key = ((x >> 33) % 300) as usize;
        if (x >> 20) % 3 == 0 {
            let r = m.delete(key);
            assert_eq!(r.is_ok(), model.remove(&key).is_some());
        } else {
            m.insert(key, step);
            model.insert(key, step);
        }
        if step % 97 == 0 {
            for k in 0..300usize {
                assert_eq!(m.lookup(&k).map(|e| e.value), model.get(&k).copied());
            }
        }
    }
    assert_eq!(m.table().len(), model.len());
    assert!(3 * m.table().len() < 2 * m.capacity());
}

#[test]
fn std_hashing_through_the_hasher_matches_the_key_bytes() {
    let m = AmazingHashMap::<usize, usize>::new();
    for k in [0usize, 1, 42, 321, 31231] {
        let mut hasher = AHHasher::new();
        k.hash(&mut hasher);
        assert_eq!(Hasher::finish(&hasher), m.hash(&k));
    }
    let s = AmazingHashMap::<String, String>::new();
    let mut hasher = AHHasher::new();
    "abc".to_string().hash(&mut hasher);
    assert_eq!(Hasher::finish(&hasher), s.hash(&"abc".to_string()));
}

#[test]
fn map_debug_lists_fields() {
    let mut m = AmazingHashMap::<usize, usize>::new();
    m.insert(1, 2);
    let text = format!("{:?}", m);
    assert!(text.contains("capacity: 8"));
}
