//! Fixed-capacity set of `u64` elements.
//!
//! The set shares the open-addressing design of the map — the algorithm is
//! identical, a slot simply carries no value next to its key — so it is
//! realised as a table whose entries hold the unit value, and every
//! operation inherits the table's verified probe behaviour.

use crate::hash_map::HashMap;
use crate::hash_map::HashMapEntry;
use crate::hasher::BuildDefaultHasher;
use crate::hasher::BuildKeyHasher;
use vstd::prelude::*;

verus! {

/// One slot of the set, as handed out for inspection.
#[derive(Debug, PartialEq, Eq)]
pub enum HashSetEntry<T> {
    Occupied(T),
    Empty,
    /// This set uses open addressing, so removals leave a marker behind to
    /// keep probe chains intact.
    Deleted,
}

impl<T> HashSetEntry<T> {
    pub open spec fn element(self) -> T
        recommends
            self is Occupied,
    {
        self->Occupied_0
    }

    /// Replace this slot with a tombstone and hand back what it held.
    pub fn take(&mut self) -> (r: HashSetEntry<T>)
        ensures
            r == *old(self),
            *final(self) == HashSetEntry::<T>::Deleted,
    {
        let mut t = HashSetEntry::Deleted;
        core::mem::swap(self, &mut t);
        t
    }

    /// Mutably view the held element.
    pub fn as_mut(&mut self) -> (r: HashSetEntry<&mut T>)
        ensures
            (*old(self)) is Occupied ==> (r matches HashSetEntry::Occupied(v) && *v == old(
                self,
            ).element() && *final(self) == HashSetEntry::Occupied(*final(v))),
            (*old(self)) is Empty ==> r is Empty && *final(self) == *old(self),
            (*old(self)) is Deleted ==> r is Deleted && *final(self) == *old(self),
    {
        match self {
            HashSetEntry::Occupied(elem) => HashSetEntry::Occupied(elem),
            HashSetEntry::Empty => HashSetEntry::Empty,
            HashSetEntry::Deleted => HashSetEntry::Deleted,
        }
    }

    /// View the held element by reference.
    pub fn as_ref(&self) -> (r: HashSetEntry<&T>)
        ensures
            self is Occupied ==> r is Occupied && *r.element() == self.element(),
            self is Empty ==> r is Empty,
            self is Deleted ==> r is Deleted,
    {
        match self {
            HashSetEntry::Occupied(elem) => HashSetEntry::Occupied(elem),
            HashSetEntry::Empty => HashSetEntry::Empty,
            HashSetEntry::Deleted => HashSetEntry::Deleted,
        }
    }
}

/// Fixed-capacity set with a pluggable hash strategy `H`, backed by the
/// probing table.
pub struct HashSet<H> {
    pub table: HashMap<(), H>,
}

impl<H: BuildKeyHasher> HashSet<H> {
    /// Number of slots; fixed at construction.
    pub open spec fn capacity(self) -> int {
        self.table.capacity()
    }

    pub open spec fn wf(self) -> bool {
        self.table.wf()
    }

    /// Some occupied slot holds `elem`.
    pub open spec fn has(self, elem: u64) -> bool {
        self.table.has_key(elem)
    }

    /// What slot `j` holds, in the inspection form handed out by `slot`.
    pub open spec fn slot_view(self, j: int) -> HashSetEntry<u64> {
        match self.table.entries@[j] {
            HashMapEntry::Occupied(k, _) => HashSetEntry::Occupied(k),
            HashMapEntry::Empty => HashSetEntry::Empty,
            HashMapEntry::Deleted => HashSetEntry::Deleted,
        }
    }

    pub fn new_with_hasher(capacity: usize, hasher: H) -> (r: HashSet<H>)
        ensures
            r.wf(),
            r.table.len == 0,
            r.capacity() == capacity,
            r.table.build_hasher == hasher,
            forall|j: int| 0 <= j < capacity ==> (#[trigger] r.slot_view(j)) is Empty,
            forall|k: u64| !(#[trigger] r.has(k)),
    {
        HashSet { table: HashMap::new_with_hasher(capacity, hasher) }
    }

    /// Insert `elem`. Returns `false`, leaving the set untouched, either
    /// when the set is at capacity or when the probe meets `elem` itself
    /// before any reusable slot (a duplicate); otherwise occupies the
    /// first reusable slot of the probe sequence and returns `true`.
    pub fn insert(&mut self, elem: u64) -> (r: bool)
        requires
            old(self).wf(),
        ensures
            final(self).wf(),
            final(self).capacity() == old(self).capacity(),
            final(self).table.build_hasher == old(self).table.build_hasher,
            r == (old(self).table.avail_slot(elem) is Some),
            old(self).table.len >= old(self).capacity() ==> !r,
            old(self).table.len < old(self).capacity() && !old(self).has(elem) ==> r,
            !r ==> *final(self) == *old(self),
            r ==> final(self).table.len == old(self).table.len + 1 && final(self).has(elem),
            forall|k2: u64| k2 != elem ==> (#[trigger] final(self).has(k2)) == old(self).has(k2),
    {
        self.table.insert(elem, ())
    }

    pub fn len(&self) -> (r: usize)
        ensures
            r == self.table.len,
    {
        self.table.len()
    }

    /// Remove `elem`, handing it back, or `None` when it is not present.
    /// A removal leaves a tombstone where the element stood.
    pub fn remove(&mut self, elem: &u64) -> (r: Option<u64>)
        requires
            old(self).wf(),
        ensures
            final(self).wf(),
            final(self).capacity() == old(self).capacity(),
            final(self).table.build_hasher == old(self).table.build_hasher,
            old(self).has(*elem) ==> r == Some(*elem) && final(self).table.len == old(
                self,
            ).table.len - 1,
            !old(self).has(*elem) ==> r is None && *final(self) == *old(self),
            forall|k2: u64| k2 != *elem ==> (#[trigger] final(self).has(k2)) == old(self).has(k2),
    {
        let ghost m = self.table;
        proof {
            crate::hash_map::lemma_find_slot_characterize(m, *elem);
        }
        match self.table.remove(elem) {
            Some(_) => Some(*elem),
            None => None,
        }
    }

    /// Whether an occupied slot holds `elem`.
    pub fn contains(&self, elem: &u64) -> (r: bool)
        requires
            self.wf(),
        ensures
            r == self.has(*elem),
    {
        self.table.contains_key(elem)
    }

    /// Borrow the stored copy of `elem`, if present.
    pub fn get(&self, elem: &u64) -> (r: Option<&u64>)
        requires
            self.wf(),
        ensures
            self.has(*elem) ==> (r matches Some(v) && *v == *elem),
            !self.has(*elem) ==> r is None,
    {
        proof {
            crate::hash_map::lemma_find_slot_characterize(self.table, *elem);
        }
        match self.table.probe_for_existing_spot(elem) {
            None => None,
            Some(spot) => {
                proof {
                    crate::hash_map::lemma_probe_find_some(
                        self.table.entries@,
                        *elem,
                        self.table.start_slot(*elem),
                        self.table.entries@.len(),
                    );
                }
                match &self.table.entries[spot] {
                    HashMapEntry::Occupied(k, _) => Some(k),
                    _ => unreached(),
                }
            },
        }
    }

    /// Inspect slot `j` of the backing array.
    pub fn slot(&self, j: usize) -> (r: HashSetEntry<u64>)
        requires
            j < self.capacity(),
        ensures
            r == self.slot_view(j as int),
    {
        match &self.table.entries[j] {
            HashMapEntry::Occupied(k, _) => HashSetEntry::Occupied(*k),
            HashMapEntry::Empty => HashSetEntry::Empty,
            HashMapEntry::Deleted => HashSetEntry::Deleted,
        }
    }
}

impl HashSet<BuildDefaultHasher> {
    /// A set with the default (byte-summing, seed zero) hash strategy.
    pub fn new(capacity: usize) -> (r: HashSet<BuildDefaultHasher>)
        ensures
            r.wf(),
            r.table.len == 0,
            r.capacity() == capacity,
            r.table.build_hasher.seed == 0,
            forall|j: int| 0 <= j < capacity ==> (#[trigger] r.slot_view(j)) is Empty,
            forall|k: u64| !(#[trigger] r.has(k)),
    {
        HashSet { table: HashMap::new(capacity) }
    }
}

} // verus!
