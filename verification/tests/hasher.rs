use fixed_containers::BuildDefaultHasher;
use fixed_containers::BuildKeyHasher;
use fixed_containers::ConstantHasher;
use fixed_containers::HashMap;
use fixed_containers::HashSet;
use fixed_containers::List;
use fixed_containers::PriorityQueue;
use fixed_containers::Queue;
use fixed_containers::SearchableList;
use fixed_containers::Stack;

#[test]
fn default_hasher_sums_bytes() {
    let bh = BuildDefaultHasher { seed: 0 };
    let mut h = bh.build_hasher();
    h.write(&[1, 2, 3]);
    assert_eq!(h.finish(), 6);

    // the digest of a key is the sum of its little-endian bytes plus the seed
    assert_eq!(bh.hash_key(0x0102), 3);
    assert_eq!(bh.hash_key(0xff00ff), 510);
    assert_eq!(bh.hash_key(0), 0);

    let seeded = BuildDefaultHasher { seed: 5 };
    assert_eq!(seeded.hash_key(0x0102), 8);
}

#[test]
fn default_hasher_wrapping() {
    let bh = BuildDefaultHasher { seed: u64::MAX };
    let mut h = bh.build_hasher();
    h.write(&[1]);
    assert_eq!(h.finish(), 0);
}

#[test]
fn constant_hasher_collides_everything() {
    let ch = ConstantHasher { value: 42 };
    assert_eq!(ch.hash_key(0), 42);
    assert_eq!(ch.hash_key(1), 42);
    assert_eq!(ch.hash_key(u64::MAX), 42);
}

/// A hash strategy that refuses to be invoked, to observe that lookups on
/// an empty table return early without hashing.
struct RefuseToHash;

impl BuildKeyHasher for RefuseToHash {
    // the specification half of the trait; never invoked at run time
    fn hash_spec(&self, _key: u64) -> u64 {
        0
    }

    fn hash_key(&self, _key: u64) -> u64 {
        panic!("the hash function was invoked")
    }
}

#[test]
fn empty_table_does_not_hash() {
    let mut map: HashMap<u32, RefuseToHash> = HashMap::new_with_hasher(10, RefuseToHash);
    assert_eq!(map.get(&1), None);
    assert_eq!(map.remove(&1), None);
    assert!(!map.contains_key(&1));

    let mut set = HashSet::new_with_hasher(10, RefuseToHash);
    assert_eq!(set.get(&2), None);
    assert_eq!(set.remove(&2), None);
    assert!(!set.contains(&2));
}

#[test]
fn empty_structures_yield_nothing() {
    // lookups and removals on empty structures return the empty result
    // and leave the structure untouched
    let mut map: HashMap<u32, BuildDefaultHasher> = HashMap::new(10);
    assert_eq!(map.get(&1), None);
    assert_eq!(map.remove(&1), None);
    assert!(!map.contains_key(&1));
    assert_eq!(map.len, 0);

    let mut set = HashSet::new(10);
    assert_eq!(set.get(&1), None);
    assert_eq!(set.remove(&1), None);
    assert!(!set.contains(&1));
    assert_eq!(set.len(), 0);

    let mut slist = SearchableList::new(10);
    assert_eq!(slist.pop(), None);
    assert_eq!(slist.find(&1), None);
    assert_eq!(slist.len(), 0);

    let mut stack: Stack<u32> = Stack::new(10);
    assert_eq!(stack.pop(), None);

    let mut list: List<u32> = List::new(10);
    assert_eq!(list.pop_back(), None);
    assert_eq!(list.remove_by(|_| true), None);

    let mut queue: Queue<u32> = Queue::new(10);
    assert_eq!(queue.pop_front(), None);

    let mut pqueue = PriorityQueue::new(10);
    assert_eq!(pqueue.pop(), None);
}

#[test]
fn zero_capacity_structures() {
    let mut map: HashMap<u32, BuildDefaultHasher> = HashMap::new(0);
    assert!(!map.insert(1, 10));
    assert_eq!(map.get(&1), None);
    assert_eq!(map.len, 0);

    let mut slist = SearchableList::new(0);
    assert!(slist.push(1).is_err());
    assert_eq!(slist.pop(), None);
}

#[test]
fn map_round_trip() {
    // insert then get observes the value; remove then get observes nothing
    let mut map = HashMap::new(10);
    for k in 0..10u64 {
        assert!(map.insert(k, k * 100));
        assert_eq!(map.get(&k), Some(&(k * 100)));
    }
    for k in 0..10u64 {
        assert_eq!(map.remove(&k), Some(k * 100));
        assert_eq!(map.get(&k), None);
        assert_eq!(map.remove(&k), None);
    }
    assert_eq!(map.len, 0);
}

#[test]
fn map_collision_round_trip() {
    // the same round trip with every key forced into one bucket
    let mut map = HashMap::new_with_hasher(10, ConstantHasher { value: 7 });
    for k in 0..10u64 {
        assert!(map.insert(k, k + 1));
    }
    assert!(!map.insert(11, 12));
    for k in 0..10u64 {
        assert_eq!(map.get(&k), Some(&(k + 1)));
    }
    assert_eq!(map.remove(&3), Some(4));
    assert_eq!(map.get(&3), None);
    assert_eq!(map.get(&9), Some(&10));
    assert!(map.insert(11, 12));
    assert_eq!(map.get(&11), Some(&12));
}
