use fixed_containers::ConstantHasher;
use fixed_containers::HashSet;
use fixed_containers::HashSetEntry;

fn set_of(elems: &[u64], capacity: usize) -> HashSet<fixed_containers::BuildDefaultHasher> {
    let mut set = HashSet::new(capacity);
    for e in elems {
        set.insert(*e);
    }
    set
}

#[test]
fn hash_set_test_insert() {
    let mut set = HashSet::new(50);

    assert_eq!(set.len(), 0);

    assert!(set.insert(10));
    assert!(set.contains(&10));
    assert_eq!(set.get(&10), Some(&10));
    assert_eq!(set.len(), 1);

    assert!(set.insert(20));
    assert!(set.contains(&20));
    assert_eq!(set.get(&20), Some(&20));
    assert_eq!(set.len(), 2);

    assert!(!set.insert(10));
    assert!(set.contains(&10));
    assert_eq!(set.get(&10), Some(&10));
    assert_eq!(set.len(), 2);
}

#[test]
fn test_set_macro() {
    let set = set_of(&[1, 2, 3], 20);

    assert_eq!(set.len(), 3);
    assert!(set.contains(&1));
    assert!(set.contains(&2));
    assert!(set.contains(&3));

    assert_eq!(set.get(&1), Some(&1));
    assert_eq!(set.get(&2), Some(&2));
    assert_eq!(set.get(&3), Some(&3));
}

#[test]
fn hash_set_test_remove() {
    let mut set = set_of(&[1, 2, 3], 20);

    assert_eq!(set.len(), 3);
    assert_eq!(set.remove(&4), None);
    assert_eq!(set.len(), 3);

    assert_eq!(set.remove(&3), Some(3));
    assert!(!set.contains(&3));
    assert_eq!(set.get(&3), None);
    assert_eq!(set.len(), 2);

    assert_eq!(set.remove(&2), Some(2));
    assert!(!set.contains(&2));
    assert_eq!(set.get(&2), None);
    assert_eq!(set.len(), 1);

    assert_eq!(set.remove(&1), Some(1));
    assert!(!set.contains(&1));
    assert_eq!(set.get(&1), None);
    assert_eq!(set.len(), 0);
}

#[test]
fn hash_set_test_collisions() {
    let bh = ConstantHasher { value: 0 };
    let mut map = HashSet::new_with_hasher(50, bh);

    map.insert(1);
    map.insert(2);
    map.insert(3);
    map.insert(4);

    assert_eq!(map.slot(0), HashSetEntry::Occupied(1));
    assert_eq!(map.slot(1), HashSetEntry::Occupied(2));
    assert_eq!(map.slot(2), HashSetEntry::Occupied(3));
    assert_eq!(map.slot(3), HashSetEntry::Occupied(4));

    assert!(map.contains(&1));
    assert!(map.contains(&2));
    assert!(map.contains(&3));
    assert!(map.contains(&4));

    assert_eq!(map.len(), 4);

    assert_eq!(map.get(&1), Some(&1));
    assert_eq!(map.get(&2), Some(&2));
    assert_eq!(map.get(&3), Some(&3));
    assert_eq!(map.get(&4), Some(&4));

    assert_eq!(map.remove(&2), Some(2));

    assert_eq!(map.slot(0), HashSetEntry::Occupied(1));
    assert_eq!(map.slot(1), HashSetEntry::Deleted);
    assert_eq!(map.slot(2), HashSetEntry::Occupied(3));
    assert_eq!(map.slot(3), HashSetEntry::Occupied(4));

    assert!(map.contains(&1));
    assert!(!map.contains(&2));
    assert!(map.contains(&3));
    assert!(map.contains(&4));

    assert_eq!(map.len(), 3);

    assert_eq!(map.get(&1), Some(&1));
    assert_eq!(map.get(&2), None);
    assert_eq!(map.get(&3), Some(&3));
    assert_eq!(map.get(&4), Some(&4));

    assert_eq!(map.remove(&1), Some(1));

    assert_eq!(map.slot(0), HashSetEntry::Deleted);
    assert_eq!(map.slot(1), HashSetEntry::Deleted);
    assert_eq!(map.slot(2), HashSetEntry::Occupied(3));
    assert_eq!(map.slot(3), HashSetEntry::Occupied(4));

    assert!(!map.contains(&1));
    assert!(!map.contains(&2));
    assert!(map.contains(&3));
    assert!(map.contains(&4));

    assert_eq!(map.len(), 2);

    assert_eq!(map.get(&1), None);
    assert_eq!(map.get(&2), None);
    assert_eq!(map.get(&3), Some(&3));
    assert_eq!(map.get(&4), Some(&4));

    assert!(map.insert(5));

    assert_eq!(map.slot(0), HashSetEntry::Occupied(5));
    assert_eq!(map.slot(1), HashSetEntry::Deleted);
    assert_eq!(map.slot(2), HashSetEntry::Occupied(3));
    assert_eq!(map.slot(3), HashSetEntry::Occupied(4));

    assert!(!map.contains(&1));
    assert!(!map.contains(&2));
    assert!(map.contains(&3));
    assert!(map.contains(&4));
    assert!(map.contains(&5));

    assert_eq!(map.len(), 3);

    assert_eq!(map.get(&1), None);
    assert_eq!(map.get(&2), None);
    assert_eq!(map.get(&3), Some(&3));
    assert_eq!(map.get(&4), Some(&4));
    assert_eq!(map.get(&5), Some(&5));
}

#[test]
fn hash_set_test_capacity() {
    let mut set = HashSet::new(2);
    assert!(set.insert(8));
    assert!(set.insert(9));
    assert_eq!(set.len(), 2);
    assert!(!set.insert(10));
    assert_eq!(set.len(), 2);
    assert!(!set.contains(&10));
}

#[test]
fn hash_set_test_entry_accessors() {
    let mut e = HashSetEntry::Occupied(7u64);
    match e.as_ref() {
        HashSetEntry::Occupied(v) => assert_eq!(*v, 7),
        _ => panic!("expected an occupied entry"),
    }
    if let HashSetEntry::Occupied(v) = e.as_mut() {
        *v = 8;
    }
    assert_eq!(e.take(), HashSetEntry::Occupied(8));
    assert_eq!(e, HashSetEntry::Deleted);
    assert!(matches!(e.as_mut(), HashSetEntry::Deleted));
}
