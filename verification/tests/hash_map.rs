use fixed_containers::ConstantHasher;
use fixed_containers::HashMap;
use fixed_containers::HashMapEntry;

#[test]
fn test_insert_contains() {
    let mut map = HashMap::new(50);

    map.insert(1, 1.0);
    map.insert(2, 2.0);
    map.insert(3, 3.0);
    map.insert(4, 4.0);

    assert_eq!(map.get(&1), Some(&1.0));
    assert_eq!(map.get(&2), Some(&2.0));
    assert_eq!(map.get(&3), Some(&3.0));
    assert_eq!(map.get(&4), Some(&4.0));

    assert!(map.contains_key(&1));
    assert!(map.contains_key(&2));
    assert!(map.contains_key(&3));
    assert!(map.contains_key(&4));

    assert!(!map.contains_key(&5));

    assert_eq!(map.len, 4);
}

#[test]
fn test_map_macro() {
    let mut map = HashMap::new(50);
    map.insert(1, 1.0);
    map.insert(2, 2.0);
    map.insert(3, 3.0);
    map.insert(4, 4.0);

    assert_eq!(map.get(&1), Some(&1.0));
    assert_eq!(map.get(&2), Some(&2.0));
    assert_eq!(map.get(&3), Some(&3.0));
    assert_eq!(map.get(&4), Some(&4.0));

    assert!(map.contains_key(&1));
    assert!(map.contains_key(&2));
    assert!(map.contains_key(&3));
    assert!(map.contains_key(&4));

    assert!(!map.contains_key(&5));

    assert_eq!(map.len, 4);
}

#[test]
fn hash_map_test_remove() {
    let mut map = HashMap::new(50);
    map.insert(1, 1.0);
    map.insert(2, 2.0);
    map.insert(3, 3.0);
    map.insert(4, 4.0);

    assert_eq!(map.remove(&1), Some(1.0));
    assert_eq!(map.len, 3);
    assert!(!map.contains_key(&1));
    assert_eq!(map.get(&1), None);
    assert_eq!(map.remove(&1), None);

    assert_eq!(map.remove(&2), Some(2.0));
    assert_eq!(map.len, 2);
    assert!(!map.contains_key(&2));
    assert_eq!(map.get(&2), None);
    assert_eq!(map.remove(&2), None);

    assert_eq!(map.remove(&3), Some(3.0));
    assert_eq!(map.len, 1);
    assert!(!map.contains_key(&3));
    assert_eq!(map.get(&3), None);
    assert_eq!(map.remove(&3), None);

    assert_eq!(map.remove(&4), Some(4.0));
    assert_eq!(map.len, 0);
    assert!(!map.contains_key(&4));
    assert_eq!(map.get(&4), None);
    assert_eq!(map.remove(&4), None);
}

#[test]
fn hash_map_test_collisions() {
    let bh = ConstantHasher { value: 0 };
    let mut map = HashMap::new_with_hasher(50, bh);

    map.insert(1, 1.0);
    map.insert(2, 2.0);
    map.insert(3, 3.0);
    map.insert(4, 4.0);

    assert_eq!(map.entries[0], HashMapEntry::Occupied(1, 1.0));
    assert_eq!(map.entries[1], HashMapEntry::Occupied(2, 2.0));
    assert_eq!(map.entries[2], HashMapEntry::Occupied(3, 3.0));
    assert_eq!(map.entries[3], HashMapEntry::Occupied(4, 4.0));

    assert!(map.contains_key(&1));
    assert!(map.contains_key(&2));
    assert!(map.contains_key(&3));
    assert!(map.contains_key(&4));

    assert_eq!(map.len, 4);

    assert_eq!(map.get(&1), Some(&1.0));
    assert_eq!(map.get(&2), Some(&2.0));
    assert_eq!(map.get(&3), Some(&3.0));
    assert_eq!(map.get(&4), Some(&4.0));

    assert_eq!(map.remove(&2), Some(2.0));

    assert_eq!(map.entries[0], HashMapEntry::Occupied(1, 1.0));
    assert_eq!(map.entries[1], HashMapEntry::Deleted);
    assert_eq!(map.entries[2], HashMapEntry::Occupied(3, 3.0));
    assert_eq!(map.entries[3], HashMapEntry::Occupied(4, 4.0));

    assert!(map.contains_key(&1));
    assert!(!map.contains_key(&2));
    assert!(map.contains_key(&3));
    assert!(map.contains_key(&4));

    assert_eq!(map.len, 3);

    assert_eq!(map.get(&1), Some(&1.0));
    assert_eq!(map.get(&2), None);
    assert_eq!(map.get(&3), Some(&3.0));
    assert_eq!(map.get(&4), Some(&4.0));

    assert_eq!(map.remove(&1), Some(1.0));

    assert_eq!(map.entries[0], HashMapEntry::Deleted);
    assert_eq!(map.entries[1], HashMapEntry::Deleted);
    assert_eq!(map.entries[2], HashMapEntry::Occupied(3, 3.0));
    assert_eq!(map.entries[3], HashMapEntry::Occupied(4, 4.0));

    assert!(!map.contains_key(&1));
    assert!(!map.contains_key(&2));
    assert!(map.contains_key(&3));
    assert!(map.contains_key(&4));

    assert_eq!(map.len, 2);

    assert_eq!(map.get(&1), None);
    assert_eq!(map.get(&2), None);
    assert_eq!(map.get(&3), Some(&3.0));
    assert_eq!(map.get(&4), Some(&4.0));

    assert!(map.insert(5, 5.0));

    assert_eq!(map.entries[0], HashMapEntry::Occupied(5, 5.0));
    assert_eq!(map.entries[1], HashMapEntry::Deleted);
    assert_eq!(map.entries[2], HashMapEntry::Occupied(3, 3.0));
    assert_eq!(map.entries[3], HashMapEntry::Occupied(4, 4.0));

    assert!(!map.contains_key(&1));
    assert!(!map.contains_key(&2));
    assert!(map.contains_key(&3));
    assert!(map.contains_key(&4));
    assert!(map.contains_key(&5));

    assert_eq!(map.len, 3);

    assert_eq!(map.get(&1), None);
    assert_eq!(map.get(&2), None);
    assert_eq!(map.get(&3), Some(&3.0));
    assert_eq!(map.get(&4), Some(&4.0));
    assert_eq!(map.get(&5), Some(&5.0));
}

#[test]
fn hash_map_test_capacity() {
    let mut map = HashMap::new(3);
    assert!(map.insert(10, 1u32));
    assert!(map.insert(20, 2));
    assert!(map.insert(30, 3));
    assert_eq!(map.len, 3);
    // the table is full: a fourth distinct key is turned away and the
    // table is left untouched
    assert!(!map.insert(40, 4));
    assert_eq!(map.len, 3);
    assert!(!map.contains_key(&40));
    assert_eq!(map.get(&10), Some(&1));
    assert_eq!(map.get(&20), Some(&2));
    assert_eq!(map.get(&30), Some(&3));
}

#[test]
fn hash_map_test_duplicate_keeps_value() {
    let mut map = HashMap::new(8);
    assert!(map.insert(7, "first"));
    // inserting the same key again is a no-op that reports failure
    assert!(!map.insert(7, "second"));
    assert_eq!(map.len, 1);
    assert_eq!(map.get(&7), Some(&"first"));
}

#[test]
fn hash_map_test_tombstone_shadowing() {
    // a key re-inserted into a tombstone in front of its older copy
    // shadows that copy until removed again
    let mut map = HashMap::new_with_hasher(10, ConstantHasher { value: 0 });
    assert!(map.insert(1, 10u32));
    assert!(map.insert(2, 20));
    assert!(map.insert(3, 30));
    assert_eq!(map.remove(&2), Some(20));
    // key 3 still lives in slot 2, but the tombstone in slot 1 is the
    // first reusable slot on its probe path, so a second insert succeeds
    assert!(map.insert(3, 33));
    assert_eq!(map.len, 3);
    assert_eq!(map.get(&3), Some(&33));
    assert_eq!(map.remove(&3), Some(33));
    // the older copy surfaces again
    assert_eq!(map.get(&3), Some(&30));
    assert_eq!(map.remove(&3), Some(30));
    assert_eq!(map.get(&3), None);
}

#[test]
fn hash_map_test_get_mut() {
    let mut map = HashMap::new(8);
    map.insert(3, 30u32);
    map.insert(4, 40);
    assert_eq!(map.get_mut(&5), None);
    if let Some(v) = map.get_mut(&3) {
        *v = 33;
    }
    assert_eq!(map.get(&3), Some(&33));
    assert_eq!(map.get(&4), Some(&40));
    assert_eq!(map.len, 2);
}

#[test]
fn hash_map_test_entry_accessors() {
    let mut e = HashMapEntry::Occupied(5u64, 50u32);
    match e.as_ref() {
        HashMapEntry::Occupied(k, v) => {
            assert_eq!(k, 5);
            assert_eq!(*v, 50);
        },
        _ => panic!("expected an occupied entry"),
    }
    if let Some(v) = e.as_mut_val() {
        *v = 51;
    }
    assert_eq!(e.take(), HashMapEntry::Occupied(5, 51));
    assert_eq!(e, HashMapEntry::Deleted);
    assert_eq!(e.as_mut_val(), None);
}
