//! Fixed-capacity associative table with open addressing.
//!
//! Collisions are resolved by linear probing: a key's digest picks a start
//! slot, and the walk proceeds slot by slot, wrapping at the end of the
//! array. Removal leaves a `Deleted` tombstone rather than an `Empty` slot,
//! so that a later lookup still walks past the removed entry's position to
//! reach entries placed beyond it. The two probe routines stop differently,
//! and that asymmetry is the crux of the design: the search for a free slot
//! treats tombstones as reusable and stops at them, while the search for an
//! existing key skips tombstones and stops only at `Empty` (proof that the
//! key was never placed further along) or after a full wrap.

use crate::hasher::BuildDefaultHasher;
use crate::hasher::BuildKeyHasher;
use vstd::prelude::*;

verus! {

/// One slot of the table.
#[derive(Debug, PartialEq, Eq)]
pub enum HashMapEntry<V> {
    Occupied(u64, V),
    Empty,
    /// Tombstone left behind by a removal; kept so probe chains stay intact.
    Deleted,
}

impl<V> HashMapEntry<V> {
    pub open spec fn key(self) -> u64
        recommends
            self is Occupied,
    {
        self->Occupied_0
    }

    pub open spec fn value(self) -> V
        recommends
            self is Occupied,
    {
        self->Occupied_1
    }

    /// Replace this slot with a tombstone and hand back what it held.
    pub fn take(&mut self) -> (r: HashMapEntry<V>)
        ensures
            r == *old(self),
            *final(self) == HashMapEntry::<V>::Deleted,
    {
        let mut t = HashMapEntry::Deleted;
        core::mem::swap(self, &mut t);
        t
    }

    /// Mutably view the held value, if any.
    pub fn as_mut_val(&mut self) -> (r: Option<&mut V>)
        ensures
            (*old(self)) is Occupied ==> (r matches Some(v) && *v == old(self).value()
                && *final(self) == HashMapEntry::Occupied(old(self).key(), *final(v))),
            !((*old(self)) is Occupied) ==> r is None && *final(self) == *old(self),
    {
        match self {
            HashMapEntry::Occupied(_, v) => Some(v),
            HashMapEntry::Empty => None,
            HashMapEntry::Deleted => None,
        }
    }

    /// View the held key and value by reference.
    pub fn as_ref(&self) -> (r: HashMapEntry<&V>)
        ensures
            self is Occupied ==> r is Occupied && r.key() == self.key() && *r.value()
                == self.value(),
            self is Empty ==> r is Empty,
            self is Deleted ==> r is Deleted,
    {
        match self {
            HashMapEntry::Occupied(k, v) => HashMapEntry::Occupied(*k, v),
            HashMapEntry::Empty => HashMapEntry::Empty,
            HashMapEntry::Deleted => HashMapEntry::Deleted,
        }
    }
}

/// The slot one step further along the probe sequence.
pub open spec fn next_slot(n: int, i: int) -> int {
    if i + 1 == n {
        0
    } else {
        i + 1
    }
}

/// The slot `d` steps along the probe sequence from `from`.
pub open spec fn slot_add(n: int, from: int, d: int) -> int
    recommends
        0 <= from < n,
        0 <= d < n,
{
    if from + d < n {
        from + d
    } else {
        from + d - n
    }
}

/// How many probe steps lead from `from` to `to`.
pub open spec fn slot_dist(n: int, from: int, to: int) -> int
    recommends
        0 <= from < n,
        0 <= to < n,
{
    if to >= from {
        to - from
    } else {
        to + n - from
    }
}

/// Start slot of `key`'s probe sequence in a table of `n` slots.
pub open spec fn table_start<V>(s: Seq<HashMapEntry<V>>, hash: spec_fn(u64) -> u64, key: u64) -> int {
    ((hash(key) as usize) as int) % (s.len() as int)
}

/// The slot where the probe for an existing `key` ends, walking from `i`
/// with `steps` slots still to visit: tombstones and foreign keys are
/// stepped over, `Empty` ends the search, and so does running out of steps.
pub open spec fn probe_find<V>(
    s: Seq<HashMapEntry<V>>,
    key: u64,
    i: int,
    steps: nat,
) -> Option<int>
    decreases steps,
{
    if steps == 0 || !(0 <= i < s.len()) {
        None
    } else if s[i] is Empty {
        None
    } else if s[i] is Occupied && s[i].key() == key {
        Some(i)
    } else {
        probe_find(s, key, next_slot(s.len() as int, i), (steps - 1) as nat)
    }
}

/// The slot where the probe for a free spot ends: the first `Empty` or
/// `Deleted` slot is reusable, while meeting `key` itself means the
/// insertion is a duplicate and yields no slot.
pub open spec fn probe_avail<V>(
    s: Seq<HashMapEntry<V>>,
    key: u64,
    i: int,
    steps: nat,
) -> Option<int>
    decreases steps,
{
    if steps == 0 || !(0 <= i < s.len()) {
        None
    } else if s[i] is Empty || s[i] is Deleted {
        Some(i)
    } else if s[i].key() == key {
        None
    } else {
        probe_avail(s, key, next_slot(s.len() as int, i), (steps - 1) as nat)
    }
}

/// How many slots of `s` are occupied.
pub open spec fn occupied_count<V>(s: Seq<HashMapEntry<V>>) -> nat
    decreases s.len(),
{
    if s.len() == 0 {
        0
    } else {
        occupied_count(s.drop_last()) + if s.last() is Occupied {
            1nat
        } else {
            0nat
        }
    }
}

/// No `Empty` slot lies strictly between `from` and `to` on the probe
/// sequence (the slot `to` itself is not constrained).
pub open spec fn path_clear<V>(s: Seq<HashMapEntry<V>>, from: int, to: int) -> bool {
    forall|d: int|
        0 <= d < slot_dist(s.len() as int, from, to) ==> !((#[trigger] s[slot_add(
            s.len() as int,
            from,
            d,
        )]) is Empty)
}

/// Every occupied slot is reachable from its key's start slot without
/// meeting an `Empty` slot first; this is what keeps lookups complete.
pub open spec fn table_paths_clear<V>(s: Seq<HashMapEntry<V>>, hash: spec_fn(u64) -> u64) -> bool {
    forall|j: int|
        0 <= j < s.len() && (#[trigger] s[j]) is Occupied ==> path_clear(
            s,
            table_start(s, hash, s[j].key()),
            j,
        )
}

/// Full well-formedness of a table: the stored length counts the occupied
/// slots, and all probe paths are intact.
pub open spec fn table_wf<V>(s: Seq<HashMapEntry<V>>, hash: spec_fn(u64) -> u64, len: nat) -> bool {
    &&& len == occupied_count(s)
    &&& table_paths_clear(s, hash)
}

/// Walking `d` steps from `from` and then measuring the distance walked
/// gets back to where one started.
pub proof fn lemma_slot_add_dist(n: int, from: int, to: int)
    requires
        0 <= from < n,
        0 <= to < n,
    ensures
        0 <= slot_dist(n, from, to) < n,
        slot_add(n, from, slot_dist(n, from, to)) == to,
{
}

/// A successful existence probe points at an occupied slot holding `key`.
pub proof fn lemma_probe_find_some<V>(s: Seq<HashMapEntry<V>>, key: u64, i: int, steps: nat)
    requires
        probe_find(s, key, i, steps) is Some,
    ensures
        ({
            let j = probe_find(s, key, i, steps)->0;
            0 <= j < s.len() && s[j] is Occupied && s[j].key() == key
        }),
    decreases steps,
{
    if steps == 0 || !(0 <= i < s.len()) {
    } else if s[i] is Empty {
    } else if s[i] is Occupied && s[i].key() == key {
    } else {
        lemma_probe_find_some(s, key, next_slot(s.len() as int, i), (steps - 1) as nat);
    }
}

/// If some occupied slot holds `key` within reach of the walk, and no
/// `Empty` slot comes before it, the walk succeeds.
pub proof fn lemma_probe_find_complete<V>(
    s: Seq<HashMapEntry<V>>,
    key: u64,
    i: int,
    steps: nat,
    j: int,
)
    requires
        0 <= i < s.len(),
        0 <= j < s.len(),
        s[j] is Occupied,
        s[j].key() == key,
        slot_dist(s.len() as int, i, j) < steps,
        forall|d: int|
            0 <= d < slot_dist(s.len() as int, i, j) ==> !((#[trigger] s[slot_add(
                s.len() as int,
                i,
                d,
            )]) is Empty),
    ensures
        probe_find(s, key, i, steps) is Some,
    decreases steps,
{
    let n = s.len() as int;
    if i == j {
    } else {
        assert(slot_add(n, i, 0) == i);
        assert(!(s[i] is Empty));
        if s[i] is Occupied && s[i].key() == key {
        } else {
            let i2 = next_slot(n, i);
            assert(slot_dist(n, i2, j) == slot_dist(n, i, j) - 1);
            assert forall|d: int| 0 <= d < slot_dist(n, i2, j) implies !((#[trigger] s[slot_add(
                n,
                i2,
                d,
            )]) is Empty) by {
                assert(slot_add(n, i2, d) == slot_add(n, i, d + 1));
            }
            lemma_probe_find_complete(s, key, i2, (steps - 1) as nat, j);
        }
    }
}

/// If `j` holds `key` and every slot strictly before it on the walk is
/// occupied by some other key, the walk ends exactly at `j`.
pub proof fn lemma_probe_find_exact<V>(
    s: Seq<HashMapEntry<V>>,
    key: u64,
    i: int,
    steps: nat,
    j: int,
)
    requires
        0 <= i < s.len(),
        0 <= j < s.len(),
        s[j] is Occupied,
        s[j].key() == key,
        slot_dist(s.len() as int, i, j) < steps,
        forall|d: int|
            0 <= d < slot_dist(s.len() as int, i, j) ==> (#[trigger] s[slot_add(
                s.len() as int,
                i,
                d,
            )]) is Occupied && s[slot_add(s.len() as int, i, d)].key() != key,
    ensures
        probe_find(s, key, i, steps) == Some(j),
    decreases steps,
{
    let n = s.len() as int;
    if i == j {
    } else {
        assert(slot_add(n, i, 0) == i);
        let i2 = next_slot(n, i);
        assert(slot_dist(n, i2, j) == slot_dist(n, i, j) - 1);
        assert forall|d: int| 0 <= d < slot_dist(n, i2, j) implies (#[trigger] s[slot_add(
            n,
            i2,
            d,
        )]) is Occupied && s[slot_add(n, i2, d)].key() != key by {
            assert(slot_add(n, i2, d) == slot_add(n, i, d + 1));
        }
        lemma_probe_find_exact(s, key, i2, (steps - 1) as nat, j);
    }
}

/// A successful availability probe points at a reusable slot, and every
/// slot strictly before it on the walk is occupied by some other key.
pub proof fn lemma_probe_avail_some<V>(s: Seq<HashMapEntry<V>>, key: u64, i: int, steps: nat)
    requires
        0 <= i < s.len(),
        probe_avail(s, key, i, steps) is Some,
    ensures
        ({
            let j = probe_avail(s, key, i, steps)->0;
            &&& 0 <= j < s.len()
            &&& !(s[j] is Occupied)
            &&& slot_dist(s.len() as int, i, j) < steps
            &&& forall|d: int|
                0 <= d < slot_dist(s.len() as int, i, j) ==> (#[trigger] s[slot_add(
                    s.len() as int,
                    i,
                    d,
                )]) is Occupied && s[slot_add(s.len() as int, i, d)].key() != key
        }),
    decreases steps,
{
    let n = s.len() as int;
    if s[i] is Empty || s[i] is Deleted {
        assert(slot_dist(n, i, i) == 0);
    } else if s[i].key() == key {
    } else {
        let i2 = next_slot(n, i);
        lemma_probe_avail_some(s, key, i2, (steps - 1) as nat);
        let j = probe_avail(s, key, i2, (steps - 1) as nat)->0;
        assert(slot_dist(n, i2, j) == slot_dist(n, i, j) - 1) by {
            assert(i != j);
        }
        assert forall|d: int| 0 <= d < slot_dist(n, i, j) implies (#[trigger] s[slot_add(
            n,
            i,
            d,
        )]) is Occupied && s[slot_add(n, i, d)].key() != key by {
            if d == 0 {
                assert(slot_add(n, i, 0) == i);
            } else {
                assert(slot_add(n, i, d) == slot_add(n, i2, d - 1));
            }
        }
    }
}

/// A failed availability probe either ran into `key` itself somewhere in
/// the table, or every slot it could visit was occupied.
pub proof fn lemma_probe_avail_none<V>(s: Seq<HashMapEntry<V>>, key: u64, i: int, steps: nat)
    requires
        0 <= i < s.len(),
        steps <= s.len(),
        probe_avail(s, key, i, steps) is None,
    ensures
        (exists|j: int|
            0 <= j < s.len() && (#[trigger] s[j]) is Occupied && s[j].key() == key) || (forall|
            d: int,
        |
            0 <= d < steps ==> (#[trigger] s[slot_add(s.len() as int, i, d)]) is Occupied),
    decreases steps,
{
    let n = s.len() as int;
    if steps == 0 {
    } else if s[i] is Empty || s[i] is Deleted {
    } else if s[i].key() == key {
        assert(0 <= i < s.len() && s[i] is Occupied && s[i].key() == key);
    } else {
        let i2 = next_slot(n, i);
        lemma_probe_avail_none(s, key, i2, (steps - 1) as nat);
        if !(exists|j: int|
            0 <= j < s.len() && (#[trigger] s[j]) is Occupied && s[j].key() == key) {
            assert forall|d: int| 0 <= d < steps implies (#[trigger] s[slot_add(
                n,
                i,
                d,
            )]) is Occupied by {
                if d == 0 {
                    assert(slot_add(n, i, 0) == i);
                } else {
                    assert(slot_add(n, i, d) == slot_add(n, i2, d - 1));
                }
            }
        }
    }
}

/// A table with no occupied slot has count zero, and conversely.
pub proof fn lemma_occupied_count_zero<V>(s: Seq<HashMapEntry<V>>)
    requires
        occupied_count(s) == 0,
    ensures
        forall|j: int| 0 <= j < s.len() ==> !((#[trigger] s[j]) is Occupied),
    decreases s.len(),
{
    if s.len() > 0 {
        lemma_occupied_count_zero(s.drop_last());
        assert forall|j: int| 0 <= j < s.len() implies !((#[trigger] s[j]) is Occupied) by {
            if j < s.len() - 1 {
                assert(s[j] == s.drop_last()[j]);
            }
        }
    }
}

/// A table whose every slot is occupied has count equal to its size.
pub proof fn lemma_all_occupied_count<V>(s: Seq<HashMapEntry<V>>)
    requires
        forall|j: int| 0 <= j < s.len() ==> (#[trigger] s[j]) is Occupied,
    ensures
        occupied_count(s) == s.len(),
    decreases s.len(),
{
    if s.len() > 0 {
        assert forall|j: int| 0 <= j < s.drop_last().len() implies (#[trigger] s.drop_last()[j])
            is Occupied by {
            assert(s.drop_last()[j] == s[j]);
        }
        lemma_all_occupied_count(s.drop_last());
    }
}

/// The occupied count never exceeds the number of slots.
pub proof fn lemma_occupied_count_le<V>(s: Seq<HashMapEntry<V>>)
    ensures
        occupied_count(s) <= s.len(),
    decreases s.len(),
{
    if s.len() > 0 {
        lemma_occupied_count_le(s.drop_last());
    }
}

/// How overwriting one slot changes the occupied count.
pub proof fn lemma_occupied_count_update<V>(s: Seq<HashMapEntry<V>>, j: int, e: HashMapEntry<V>)
    requires
        0 <= j < s.len(),
    ensures
        occupied_count(s.update(j, e)) == occupied_count(s) - (if s[j] is Occupied {
            1int
        } else {
            0int
        }) + (if e is Occupied {
            1int
        } else {
            0int
        }),
    decreases s.len(),
{
    let s2 = s.update(j, e);
    if j == s.len() - 1 {
        assert(s2.drop_last() =~= s.drop_last());
    } else {
        assert(s2.drop_last() =~= s.drop_last().update(j, e));
        lemma_occupied_count_update(s.drop_last(), j, e);
    }
}

/// A clear path stays clear when the table changes without introducing any
/// new `Empty` slot.
pub proof fn lemma_path_clear_preserved<V>(
    s: Seq<HashMapEntry<V>>,
    s2: Seq<HashMapEntry<V>>,
    from: int,
    to: int,
)
    requires
        s2.len() == s.len(),
        0 <= from < s.len(),
        0 <= to < s.len(),
        forall|x: int| 0 <= x < s2.len() && (#[trigger] s2[x]) is Empty ==> s[x] is Empty,
        path_clear(s, from, to),
    ensures
        path_clear(s2, from, to),
{
    let n = s.len() as int;
    assert forall|d: int| 0 <= d < slot_dist(n, from, to) implies !((#[trigger] s2[slot_add(
        n,
        from,
        d,
    )]) is Empty) by {
        assert(0 <= slot_add(n, from, d) < n);
        assert(!(s[slot_add(n, from, d)] is Empty));
    }
}

/// Two walks for `key` agree when the tables differ only in one slot that
/// both walks step over.
pub proof fn lemma_probe_find_agree<V>(
    s: Seq<HashMapEntry<V>>,
    s2: Seq<HashMapEntry<V>>,
    key: u64,
    i: int,
    steps: nat,
    spot: int,
)
    requires
        s2.len() == s.len(),
        0 <= spot < s.len(),
        forall|x: int| 0 <= x < s.len() && x != spot ==> s2[x] == s[x],
        s[spot] is Deleted || (s[spot] is Occupied && s[spot].key() != key),
        s2[spot] is Deleted || (s2[spot] is Occupied && s2[spot].key() != key),
    ensures
        probe_find(s2, key, i, steps) == probe_find(s, key, i, steps),
    decreases steps,
{
    let n = s.len() as int;
    if steps == 0 || !(0 <= i < n) {
    } else {
        if i != spot {
            assert(s2[i] == s[i]);
        }
        if s[i] is Empty {
        } else if s[i] is Occupied && s[i].key() == key {
        } else {
            lemma_probe_find_agree(s, s2, key, next_slot(n, i), (steps - 1) as nat, spot);
        }
    }
}

/// A successful walk is unaffected by changing a slot that was `Empty`,
/// because a successful walk never reaches an `Empty` slot.
pub proof fn lemma_probe_find_agree_over_empty<V>(
    s: Seq<HashMapEntry<V>>,
    s2: Seq<HashMapEntry<V>>,
    key: u64,
    i: int,
    steps: nat,
    spot: int,
)
    requires
        s2.len() == s.len(),
        0 <= spot < s.len(),
        forall|x: int| 0 <= x < s.len() && x != spot ==> s2[x] == s[x],
        s[spot] is Empty,
        probe_find(s, key, i, steps) is Some,
    ensures
        probe_find(s2, key, i, steps) == probe_find(s, key, i, steps),
    decreases steps,
{
    let n = s.len() as int;
    if steps == 0 || !(0 <= i < n) {
    } else {
        assert(i != spot);
        assert(s2[i] == s[i]);
        if s[i] is Empty {
        } else if s[i] is Occupied && s[i].key() == key {
        } else {
            lemma_probe_find_agree_over_empty(s, s2, key, next_slot(n, i), (steps - 1) as nat, spot);
        }
    }
}

/// Fixed-capacity map from `u64` keys to values of type `V`, with a
/// pluggable hash strategy `H`.
pub struct HashMap<V, H> {
    pub build_hasher: H,
    pub entries: Vec<HashMapEntry<V>>,
    pub len: usize,
}

impl<V, H: BuildKeyHasher> HashMap<V, H> {
    /// Number of slots; fixed at construction.
    pub open spec fn capacity(self) -> int {
        self.entries@.len() as int
    }

    /// The digest function of the configured hash strategy.
    pub open spec fn hash_of(self) -> spec_fn(u64) -> u64 {
        |k: u64| self.build_hasher.hash_spec(k)
    }

    pub open spec fn wf(self) -> bool {
        table_wf(self.entries@, self.hash_of(), self.len as nat)
    }

    /// Where `key`'s probe sequence starts.
    pub open spec fn start_slot(self, key: u64) -> int {
        table_start(self.entries@, self.hash_of(), key)
    }

    /// Where a lookup for `key` ends, if anywhere.
    pub open spec fn find_slot(self, key: u64) -> Option<int> {
        if self.capacity() == 0 {
            None
        } else {
            probe_find(self.entries@, key, self.start_slot(key), self.entries@.len())
        }
    }

    /// Where an insertion of `key` would land, if anywhere: `None` both
    /// when the table is at capacity and when the probe runs into `key`
    /// itself before any reusable slot.
    pub open spec fn avail_slot(self, key: u64) -> Option<int> {
        if self.len >= self.capacity() {
            None
        } else {
            probe_avail(self.entries@, key, self.start_slot(key), self.entries@.len())
        }
    }

    /// Some occupied slot holds `key`.
    pub open spec fn has_key(self, key: u64) -> bool {
        exists|j: int|
            0 <= j < self.entries@.len() && (#[trigger] self.entries@[j]) is Occupied
                && self.entries@[j].key() == key
    }

    /// The value a lookup for `key` observes.
    pub open spec fn spec_get(self, key: u64) -> Option<V> {
        match self.find_slot(key) {
            Some(j) => Some(self.entries@[j].value()),
            None => None,
        }
    }

    pub fn new_with_hasher(capacity: usize, hasher: H) -> (r: HashMap<V, H>)
        ensures
            r.wf(),
            r.len == 0,
            r.capacity() == capacity,
            r.build_hasher == hasher,
            forall|j: int| 0 <= j < capacity ==> (#[trigger] r.entries@[j]) is Empty,
            forall|k: u64| !(#[trigger] r.has_key(k)),
            forall|k: u64| (#[trigger] r.spec_get(k)) is None,
    {
        let mut entries: Vec<HashMapEntry<V>> = Vec::new();
        let mut i: usize = 0;
        while i < capacity
            invariant
                entries@.len() == i,
                i <= capacity,
                occupied_count(entries@) == 0,
                forall|j: int| 0 <= j < i ==> (#[trigger] entries@[j]) is Empty,
            decreases capacity - i,
        {
            let ghost prev = entries@;
            entries.push(HashMapEntry::Empty);
            i = i + 1;
            proof {
                assert(entries@.drop_last() =~= prev);
            }
        }
        let r = HashMap { build_hasher: hasher, entries, len: 0 };
        proof {
            assert forall|k: u64| !(#[trigger] r.has_key(k)) by {}
            assert forall|k: u64| (#[trigger] r.spec_get(k)) is None by {
                if r.find_slot(k) is Some {
                    lemma_probe_find_some(r.entries@, k, r.start_slot(k), r.entries@.len());
                }
            }
        }
        r
    }

    pub fn len(&self) -> (r: usize)
        ensures
            r == self.len,
    {
        self.len
    }

    /// Digest `key` with the configured strategy.
    fn hash_key(&self, key: &u64) -> (h: u64)
        ensures
            h == self.hash_of()(*key),
    {
        self.build_hasher.hash_key(*key)
    }

    /// Walk `key`'s probe sequence looking for the slot that holds it:
    /// tombstones are skipped, `Empty` ends the search, and a full wrap
    /// means the key is absent.
    pub(crate) fn probe_for_existing_spot(&self, key: &u64) -> (r: Option<usize>)
        requires
            self.wf(),
        ensures
            match r {
                Some(j) => self.find_slot(*key) == Some(j as int),
                None => self.find_slot(*key) is None,
            },
    {
        if self.len == 0 {
            proof {
                if self.find_slot(*key) is Some {
                    lemma_probe_find_some(
                        self.entries@,
                        *key,
                        self.start_slot(*key),
                        self.entries@.len(),
                    );
                    lemma_occupied_count_zero(self.entries@);
                }
            }
            return None;
        }
        let n = self.entries.len();
        proof {
            lemma_occupied_count_le(self.entries@);
        }
        let hash = self.hash_key(key);
        let start = (hash as usize) % n;
        let mut spot = start;
        let mut step: usize = 0;
        while step < n
            invariant
                self.wf(),
                n == self.entries@.len(),
                0 < n,
                step <= n,
                0 <= start < n,
                spot == slot_add(n as int, start as int, step as int),
                0 <= spot < n,
                self.find_slot(*key) == probe_find(
                    self.entries@,
                    *key,
                    spot as int,
                    (n - step) as nat,
                ),
            decreases n - step,
        {
            match &self.entries[spot] {
                HashMapEntry::Empty => {
                    return None;
                },
                HashMapEntry::Deleted => {},
                HashMapEntry::Occupied(k, _) => {
                    if *k == *key {
                        return Some(spot);
                    }
                },
            }
            spot = if spot + 1 == n {
                0
            } else {
                spot + 1
            };
            step = step + 1;
        }
        None
    }

    /// Walk `key`'s probe sequence looking for a reusable slot: the first
    /// `Empty` or tombstone slot is the landing spot, unless an occupied
    /// slot holding `key` itself comes first (a duplicate insertion).
    fn probe_for_available_spot(&self, key: &u64) -> (r: Option<usize>)
        requires
            self.wf(),
        ensures
            match r {
                Some(j) => self.avail_slot(*key) == Some(j as int),
                None => self.avail_slot(*key) is None,
            },
    {
        let n = self.entries.len();
        if self.len >= n {
            return None;
        }
        let hash = self.hash_key(key);
        let start = (hash as usize) % n;
        let mut spot = start;
        let mut step: usize = 0;
        while step < n
            invariant
                self.wf(),
                n == self.entries@.len(),
                self.len < n,
                step <= n,
                0 <= start < n,
                spot == slot_add(n as int, start as int, step as int),
                0 <= spot < n,
                forall|d: int|
                    0 <= d < step ==> (#[trigger] self.entries@[slot_add(
                        n as int,
                        start as int,
                        d,
                    )]) is Occupied && self.entries@[slot_add(n as int, start as int, d)].key()
                        != *key,
                self.avail_slot(*key) == probe_avail(
                    self.entries@,
                    *key,
                    spot as int,
                    (n - step) as nat,
                ),
            decreases n - step,
        {
            match &self.entries[spot] {
                HashMapEntry::Empty => {
                    return Some(spot);
                },
                HashMapEntry::Deleted => {
                    return Some(spot);
                },
                HashMapEntry::Occupied(k, _) => {
                    if *k == *key {
                        return None;
                    }
                },
            }
            spot = if spot + 1 == n {
                0
            } else {
                spot + 1
            };
            step = step + 1;
        }
        // A full wrap would mean every slot is occupied, contradicting
        // `len < n`; the loop above always returns before this point.
        proof {
            assert forall|x: int| 0 <= x < n implies (#[trigger] self.entries@[x]) is Occupied by {
                lemma_slot_add_dist(n as int, start as int, x);
                assert(self.entries@[slot_add(n as int, start as int, slot_dist(
                    n as int,
                    start as int,
                    x,
                ))] is Occupied);
            }
            lemma_all_occupied_count(self.entries@);
            assert(false);
        }
        None
    }
}

impl<V> HashMap<V, BuildDefaultHasher> {
    /// A table with the default (byte-summing, seed zero) hash strategy.
    pub fn new(capacity: usize) -> (r: HashMap<V, BuildDefaultHasher>)
        ensures
            r.wf(),
            r.len == 0,
            r.capacity() == capacity,
            r.build_hasher.seed == 0,
            forall|j: int| 0 <= j < capacity ==> (#[trigger] r.entries@[j]) is Empty,
            forall|k: u64| !(#[trigger] r.has_key(k)),
            forall|k: u64| (#[trigger] r.spec_get(k)) is None,
    {
        Self::new_with_hasher(capacity, BuildDefaultHasher { seed: 0 })
    }
}

impl<V, H: BuildKeyHasher> HashMap<V, H> {
    /// Insert `key` with value `val`. Returns `false`, leaving the table
    /// untouched, either when the table is at capacity or when the probe
    /// meets `key` itself before any reusable slot (a duplicate, whose
    /// existing value is preserved); otherwise writes the new entry into
    /// the first reusable slot of the probe sequence and returns `true`.
    pub fn insert(&mut self, key: u64, val: V) -> (r: bool)
        requires
            old(self).wf(),
        ensures
            final(self).wf(),
            final(self).capacity() == old(self).capacity(),
            final(self).build_hasher == old(self).build_hasher,
            r == (old(self).avail_slot(key) is Some),
            old(self).len >= old(self).capacity() ==> !r,
            old(self).len < old(self).capacity() && !old(self).has_key(key) ==> r,
            !r ==> *final(self) == *old(self),
            r ==> final(self).len == old(self).len + 1 && (old(self).avail_slot(key) matches Some(
                spot,
            ) && final(self).entries@ == old(self).entries@.update(
                spot,
                HashMapEntry::Occupied(key, val),
            )) && final(self).has_key(key) && final(self).spec_get(key) == Some(val),
            forall|k2: u64|
                k2 != key ==> (#[trigger] final(self).spec_get(k2)) == old(self).spec_get(k2),
            forall|k2: u64|
                k2 != key ==> (#[trigger] final(self).has_key(k2)) == old(self).has_key(k2),
    {
        let ghost m = *self;
        let ghost s = self.entries@;
        let ghost n = self.entries@.len() as int;
        let _cap = self.entries.len();
        match self.probe_for_available_spot(&key) {
            None => {
                proof {
                    if m.len < m.capacity() && !m.has_key(key) {
                        lemma_probe_avail_none(s, key, m.start_slot(key), s.len());
                        assert forall|x: int| 0 <= x < n implies (#[trigger] s[x]) is Occupied by {
                            lemma_slot_add_dist(n, m.start_slot(key), x);
                            assert(s[slot_add(n, m.start_slot(key), slot_dist(
                                n,
                                m.start_slot(key),
                                x,
                            ))] is Occupied);
                        }
                        lemma_all_occupied_count(s);
                    }
                }
                false
            },
            Some(spot) => {
                proof {
                    lemma_probe_avail_some(s, key, m.start_slot(key), s.len());
                }
                self.entries.set(spot, HashMapEntry::Occupied(key, val));
                self.len = self.len + 1;
                proof {
                    let m2 = *self;
                    let s2 = self.entries@;
                    let hash = m.hash_of();
                    lemma_occupied_count_update(s, spot as int, HashMapEntry::Occupied(key, val));
                    let start = table_start(s, hash, key);
                    // every slot strictly before `spot` on `key`'s walk is
                    // occupied by some other key, in the new table as well
                    assert forall|d: int| 0 <= d < slot_dist(n, start, spot as int) implies (
                    #[trigger] s2[slot_add(n, start, d)]) is Occupied && s2[slot_add(
                        n,
                        start,
                        d,
                    )].key() != key by {
                        assert(s[slot_add(n, start, d)] is Occupied);
                        assert(slot_add(n, start, d) != spot as int);
                    }
                    lemma_slot_add_dist(n, start, spot as int);
                    lemma_probe_find_exact(s2, key, start, s2.len(), spot as int);
                    // all probe paths stay clear
                    assert forall|j: int|
                        0 <= j < s2.len() && (#[trigger] s2[j]) is Occupied implies path_clear(
                        s2,
                        table_start(s2, hash, s2[j].key()),
                        j,
                    ) by {
                        if j == spot as int {
                            assert forall|d: int|
                                0 <= d < slot_dist(n, start, j) implies !((#[trigger] s2[slot_add(
                                n,
                                start,
                                d,
                            )]) is Empty) by {
                                assert(s2[slot_add(n, start, d)] is Occupied);
                            }
                        } else {
                            assert(s[j] is Occupied);
                            lemma_path_clear_preserved(
                                s,
                                s2,
                                table_start(s, hash, s[j].key()),
                                j,
                            );
                        }
                    }
                    // the new entry is found at `spot`
                    assert(m2.entries@[spot as int] is Occupied && m2.entries@[spot as int].key()
                        == key);
                    assert(m2.has_key(key));
                    // other keys are untouched
                    assert forall|k2: u64| k2 != key implies (#[trigger] m2.has_key(k2))
                        == m.has_key(k2) by {
                        assert forall|j: int|
                            0 <= j < n && (#[trigger] s[j]) is Occupied && s[j].key()
                                == k2 implies s2[j] is Occupied && s2[j].key() == k2 by {
                            assert(j != spot as int);
                        }
                        if m2.has_key(k2) {
                            let j = choose|j: int|
                                0 <= j < s2.len() && (#[trigger] s2[j]) is Occupied && s2[j].key()
                                    == k2;
                            assert(j != spot as int);
                            assert(s[j] is Occupied && s[j].key() == k2);
                            assert(m.has_key(k2));
                        }
                    }
                    assert forall|k2: u64| k2 != key implies (#[trigger] m2.spec_get(k2))
                        == m.spec_get(k2) by {
                        let start2 = table_start(s, hash, k2);
                        match m.find_slot(k2) {
                            Some(j0) => {
                                if s[spot as int] is Empty {
                                    lemma_probe_find_agree_over_empty(
                                        s,
                                        s2,
                                        k2,
                                        start2,
                                        s.len(),
                                        spot as int,
                                    );
                                } else {
                                    lemma_probe_find_agree(
                                        s,
                                        s2,
                                        k2,
                                        start2,
                                        s.len(),
                                        spot as int,
                                    );
                                }
                                lemma_probe_find_some(s, k2, start2, s.len());
                                assert(s2[j0] == s[j0]);
                            },
                            None => {
                                lemma_find_slot_characterize(m, k2);
                                if m2.find_slot(k2) is Some {
                                    lemma_probe_find_some(s2, k2, start2, s2.len());
                                    assert(m2.has_key(k2));
                                    assert(m.has_key(k2));
                                }
                            },
                        }
                    }
                }
                true
            },
        }
    }

    /// Remove `key`, handing back its value, or `None` when no occupied
    /// slot holds it. A removal leaves a tombstone where the entry stood.
    pub fn remove(&mut self, key: &u64) -> (r: Option<V>)
        requires
            old(self).wf(),
        ensures
            final(self).wf(),
            final(self).capacity() == old(self).capacity(),
            final(self).build_hasher == old(self).build_hasher,
            r is Some <==> old(self).has_key(*key),
            old(self).find_slot(*key) matches Some(j) ==> r == Some(old(self).entries@[j].value())
                && final(self).entries@ == old(self).entries@.update(j, HashMapEntry::Deleted)
                && final(self).len == old(self).len - 1,
            old(self).find_slot(*key) is None ==> r is None && *final(self) == *old(self),
            forall|k2: u64|
                k2 != *key ==> (#[trigger] final(self).spec_get(k2)) == old(self).spec_get(k2),
            forall|k2: u64|
                k2 != *key ==> (#[trigger] final(self).has_key(k2)) == old(self).has_key(k2),
    {
        let ghost m = *self;
        let ghost s = self.entries@;
        let ghost n = self.entries@.len() as int;
        proof {
            lemma_find_slot_characterize(m, *key);
        }
        match self.probe_for_existing_spot(key) {
            None => None,
            Some(spot) => {
                proof {
                    lemma_probe_find_some(s, *key, m.start_slot(*key), s.len());
                    lemma_occupied_count_update(s, spot as int, HashMapEntry::Deleted);
                    if self.len == 0 {
                        lemma_occupied_count_zero(s);
                    }
                }
                self.len = self.len - 1;
                let e = self.entries[spot].take();
                proof {
                    let m2 = *self;
                    let s2 = self.entries@;
                    let hash = m.hash_of();
                    assert(s2 =~= s.update(spot as int, HashMapEntry::Deleted));
                    // all probe paths stay clear
                    assert forall|j: int|
                        0 <= j < s2.len() && (#[trigger] s2[j]) is Occupied implies path_clear(
                        s2,
                        table_start(s2, hash, s2[j].key()),
                        j,
                    ) by {
                        assert(s[j] is Occupied);
                        lemma_path_clear_preserved(s, s2, table_start(s, hash, s[j].key()), j);
                    }
                    // other keys are untouched
                    assert forall|k2: u64| k2 != *key implies (#[trigger] m2.has_key(k2))
                        == m.has_key(k2) by {
                        assert forall|j: int|
                            0 <= j < n && (#[trigger] s[j]) is Occupied && s[j].key()
                                == k2 implies s2[j] is Occupied && s2[j].key() == k2 by {
                            assert(j != spot as int);
                        }
                        if m2.has_key(k2) {
                            let j = choose|j: int|
                                0 <= j < s2.len() && (#[trigger] s2[j]) is Occupied && s2[j].key()
                                    == k2;
                            assert(j != spot as int);
                            assert(s[j] is Occupied && s[j].key() == k2);
                            assert(m.has_key(k2));
                        }
                    }
                    assert forall|k2: u64| k2 != *key implies (#[trigger] m2.spec_get(k2))
                        == m.spec_get(k2) by {
                        let start2 = table_start(s, hash, k2);
                        lemma_probe_find_agree(s, s2, k2, start2, s.len(), spot as int);
                        if m.find_slot(k2) is Some {
                            lemma_probe_find_some(s, k2, start2, s.len());
                            let j0 = m.find_slot(k2)->0;
                            assert(s2[j0] == s[j0]);
                        }
                    }
                }
                match e {
                    HashMapEntry::Occupied(_, v) => Some(v),
                    _ => unreached(),
                }
            },
        }
    }

    /// Mutably borrow the value stored under `key`, if any.
    pub fn get_mut(&mut self, key: &u64) -> (r: Option<&mut V>)
        requires
            old(self).wf(),
        ensures
            r is Some <==> old(self).has_key(*key),
            !old(self).has_key(*key) ==> r is None && *final(self) == *old(self),
            old(self).has_key(*key) ==> (r matches Some(v) && (old(self).find_slot(*key)
                matches Some(j) && *v == old(self).entries@[j].value() && final(self).entries@
                == old(self).entries@.update(j, HashMapEntry::Occupied(*key, *final(v))))
                && final(self).len == old(self).len && final(self).build_hasher == old(
                self,
            ).build_hasher && final(self).wf()),
    {
        let ghost m = *self;
        let ghost s = self.entries@;
        proof {
            lemma_find_slot_characterize(m, *key);
        }
        match self.probe_for_existing_spot(key) {
            None => None,
            Some(spot) => {
                proof {
                    lemma_probe_find_some(s, *key, m.start_slot(*key), s.len());
                    assert forall|v2: V|
                        table_wf(
                            #[trigger] s.update(spot as int, HashMapEntry::Occupied(*key, v2)),
                            m.hash_of(),
                            m.len as nat,
                        ) by {
                        let s2 = s.update(spot as int, HashMapEntry::Occupied(*key, v2));
                        lemma_occupied_count_update(
                            s,
                            spot as int,
                            HashMapEntry::Occupied(*key, v2),
                        );
                        assert forall|j: int|
                            0 <= j < s2.len() && (#[trigger] s2[j]) is Occupied implies path_clear(
                            s2,
                            table_start(s2, m.hash_of(), s2[j].key()),
                            j,
                        ) by {
                            assert(s[j] is Occupied && s[j].key() == s2[j].key());
                            lemma_path_clear_preserved(
                                s,
                                s2,
                                table_start(s, m.hash_of(), s[j].key()),
                                j,
                            );
                        }
                    }
                }
                match &mut self.entries[spot] {
                    HashMapEntry::Occupied(_, v) => Some(v),
                    _ => unreached(),
                }
            },
        }
    }

    /// Whether an occupied slot holds `key`.
    pub fn contains_key(&self, key: &u64) -> (r: bool)
        requires
            self.wf(),
        ensures
            r == self.has_key(*key),
    {
        proof {
            lemma_find_slot_characterize(*self, *key);
        }
        self.probe_for_existing_spot(key).is_some()
    }

    /// Borrow the value stored under `key`, if any.
    pub fn get(&self, key: &u64) -> (r: Option<&V>)
        requires
            self.wf(),
        ensures
            r is Some <==> self.has_key(*key),
            match r {
                Some(v) => self.spec_get(*key) == Some(*v),
                None => self.spec_get(*key) is None,
            },
    {
        proof {
            lemma_find_slot_characterize(*self, *key);
        }
        match self.probe_for_existing_spot(key) {
            None => None,
            Some(spot) => match &self.entries[spot] {
                HashMapEntry::Occupied(_, v) => Some(v),
                _ => unreached(),
            },
        }
    }
}

/// Under well-formedness, a lookup succeeds exactly when some occupied
/// slot holds the key, and it points at such a slot.
pub proof fn lemma_find_slot_characterize<V, H: BuildKeyHasher>(m: HashMap<V, H>, key: u64)
    requires
        m.wf(),
    ensures
        m.find_slot(key) is Some <==> m.has_key(key),
        m.find_slot(key) matches Some(j) ==> 0 <= j < m.capacity() && m.entries@[j] is Occupied
            && m.entries@[j].key() == key,
        m.spec_get(key) is Some <==> m.has_key(key),
{
    if m.find_slot(key) is Some {
        lemma_probe_find_some(m.entries@, key, m.start_slot(key), m.entries@.len());
    }
    if m.has_key(key) {
        let j = choose|j: int|
            0 <= j < m.entries@.len() && (#[trigger] m.entries@[j]) is Occupied
                && m.entries@[j].key() == key;
        let n = m.entries@.len() as int;
        let start = m.start_slot(key);
        lemma_slot_add_dist(n, start, j);
        lemma_probe_find_complete(m.entries@, key, start, m.entries@.len(), j);
    }
}

/// An empty table holds no key at all: lookups and removals on it return
/// the empty result.
pub proof fn lemma_empty_has_no_keys<V, H: BuildKeyHasher>(m: HashMap<V, H>)
    requires
        m.wf(),
        m.len == 0,
    ensures
        forall|k: u64| !(#[trigger] m.has_key(k)),
        forall|k: u64| (#[trigger] m.spec_get(k)) is None,
{
    lemma_occupied_count_zero(m.entries@);
    assert forall|k: u64| (#[trigger] m.spec_get(k)) is None by {
        if m.find_slot(k) is Some {
            lemma_probe_find_some(m.entries@, k, m.start_slot(k), m.entries@.len());
        }
    }
}

/// `key` sits in at most one occupied slot of `m`.
///
/// This is a property of particular histories, not an invariant of the
/// table: because an insertion lands in the first reusable slot of the
/// probe sequence, a key can be inserted into a tombstone that lies in
/// front of an older copy of the same key further along the chain (fill a
/// bucket's chain, remove an entry from its middle, insert the chain's
/// last key again). Lookups then observe the copy nearest the start slot.
pub open spec fn key_unique<V, H: BuildKeyHasher>(m: HashMap<V, H>, key: u64) -> bool {
    forall|j1: int, j2: int|
        0 <= j1 < m.entries@.len() && 0 <= j2 < m.entries@.len() && (#[trigger] m.entries@[j1])
            is Occupied && (#[trigger] m.entries@[j2]) is Occupied && m.entries@[j1].key() == key
            && m.entries@[j2].key() == key ==> j1 == j2
}

/// Round trip of a removal: when `key` sits in exactly one slot of `m`,
/// tombstoning that slot (which is what `remove` does on a hit) leaves a
/// table where `key` is gone — a lookup returns nothing and a second
/// removal finds nothing.
pub proof fn lemma_remove_clears_unique_key<V, H: BuildKeyHasher>(
    m: HashMap<V, H>,
    m2: HashMap<V, H>,
    key: u64,
)
    requires
        m.wf(),
        key_unique(m, key),
        m.find_slot(key) matches Some(j) && m2.entries@ == m.entries@.update(
            j,
            HashMapEntry::Deleted,
        ),
    ensures
        !m2.has_key(key),
        m2.spec_get(key) is None,
{
    let j = m.find_slot(key)->0;
    lemma_probe_find_some(m.entries@, key, m.start_slot(key), m.entries@.len());
    if m2.has_key(key) {
        let j2 = choose|j2: int|
            0 <= j2 < m2.entries@.len() && (#[trigger] m2.entries@[j2]) is Occupied
                && m2.entries@[j2].key() == key;
        assert(j2 != j);
        assert(m.entries@[j2] is Occupied && m.entries@[j2].key() == key);
        assert(false);
    }
    if m2.find_slot(key) is Some {
        lemma_probe_find_some(m2.entries@, key, m2.start_slot(key), m2.entries@.len());
    }
}

} // verus!
