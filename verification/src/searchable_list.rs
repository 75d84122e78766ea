//! Fixed-capacity list that stays sorted by value while every element keeps
//! a permanent handle.
//!
//! Two parallel arrays are kept in lockstep: `backing[0..len]` holds
//! `(handle, value)` pairs sorted ascending by value, and `indices[handle]`
//! gives the current position of that handle's element inside `backing`.
//! A push binary-searches its insertion position (after all equal values),
//! shifts the tail one slot to the right, and assigns the next free handle;
//! every shifted element's `indices` entry is updated in the same
//! operation, so the cross-reference between the two arrays never breaks.
//! Handles are assigned in arrival order, and only the most recently
//! assigned one can be popped, so removal is LIFO by handle rather than by
//! value.

use vstd::prelude::*;

verus! {

/// Error of a push into a structure whose backing array is full.
#[derive(Debug, PartialEq, Eq)]
pub struct CapacityExceeded;

/// `s` is non-decreasing.
pub open spec fn sorted(s: Seq<u64>) -> bool {
    forall|j1: int, j2: int| 0 <= j1 <= j2 < s.len() ==> #[trigger] s[j1] <= #[trigger] s[j2]
}

/// How many entries of `s` are less than or equal to `v`; on a sorted
/// sequence this is where an insertion of `v` lands, placing it after all
/// equal entries.
pub open spec fn count_le(s: Seq<u64>, v: u64) -> int
    decreases s.len(),
{
    if s.len() == 0 {
        0
    } else {
        count_le(s.drop_last(), v) + if s.last() <= v {
            1int
        } else {
            0int
        }
    }
}

/// On a sorted sequence, `count_le` splits the entries into a prefix of
/// values at most `v` and a suffix of values above it.
pub proof fn lemma_count_le_bracket(s: Seq<u64>, v: u64)
    requires
        sorted(s),
    ensures
        0 <= count_le(s, v) <= s.len(),
        forall|x: int| 0 <= x < count_le(s, v) ==> s[x] <= v,
        forall|x: int| count_le(s, v) <= x < s.len() ==> s[x] > v,
    decreases s.len(),
{
    if s.len() > 0 {
        let d = s.drop_last();
        assert forall|j1: int, j2: int| 0 <= j1 <= j2 < d.len() implies #[trigger] d[j1]
            <= #[trigger] d[j2] by {
            assert(d[j1] == s[j1] && d[j2] == s[j2]);
        }
        lemma_count_le_bracket(d, v);
        assert forall|x: int| 0 <= x < count_le(s, v) implies s[x] <= v by {
            if s.last() <= v {
                assert(s[x] <= s[s.len() - 1]);
            } else {
                assert(s[x] == d[x]);
            }
        }
        assert forall|x: int| count_le(s, v) <= x < s.len() implies s[x] > v by {
            if x < s.len() - 1 {
                assert(s[x] == d[x]);
            }
        }
    }
}

/// However the list was built, its live values are sorted: every
/// operation keeps `backing[0..len]` non-decreasing by value, so on any
/// well-formed list the value sequence is sorted.
pub proof fn lemma_vals_sorted(l: SearchableList)
    requires
        l.wf(),
    ensures
        sorted(l.vals()),
{
    assert forall|j1: int, j2: int| 0 <= j1 <= j2 < l.vals().len() implies #[trigger] l.vals()[j1]
        <= #[trigger] l.vals()[j2] by {
        assert(l.val_at(j1) <= l.val_at(j2));
    }
}

/// A value that lives in only one position has only one handle: for such
/// a value the handle a lookup returns is the handle its insertion was
/// assigned, not merely some matching one.
pub proof fn lemma_handle_of_unique_value(l: SearchableList, h1: int, h2: int)
    requires
        l.wf(),
        0 <= h1 < l.len,
        0 <= h2 < l.len,
        l.handle_val(h1) == l.handle_val(h2),
        forall|x1: int, x2: int|
            0 <= x1 < l.len && 0 <= x2 < l.len && #[trigger] l.val_at(x1) == #[trigger] l.val_at(
                x2,
            ) && l.val_at(x1) == l.handle_val(h1) ==> x1 == x2,
    ensures
        h1 == h2,
{
    assert(l.val_at(l.pos_of(h1)) == l.val_at(l.pos_of(h2)));
    assert(l.pos_of(h1) == l.pos_of(h2));
    assert(l.handle_at(l.pos_of(h1)) == h1);
    assert(l.handle_at(l.pos_of(h2)) == h2);
}

/// Order-indexed sequence: a sorted list whose elements are addressed by
/// permanent insertion handles.
pub struct SearchableList {
    /// `backing[j]` holds `(handle, value)` for positions below `len`,
    /// sorted ascending by value.
    pub backing: Vec<Option<(usize, u64)>>,
    /// `indices[h]` gives the position in `backing` of the element whose
    /// handle is `h`.
    pub indices: Vec<Option<usize>>,
    pub len: usize,
}

impl SearchableList {
    /// Number of slots in the backing arrays; fixed at construction.
    pub open spec fn capacity(self) -> int {
        self.backing@.len() as int
    }

    pub open spec fn entry_at(self, j: int) -> (usize, u64) {
        self.backing@[j]->0
    }

    /// Handle of the element at position `j`.
    pub open spec fn handle_at(self, j: int) -> int {
        self.entry_at(j).0 as int
    }

    /// Value of the element at position `j`.
    pub open spec fn val_at(self, j: int) -> u64 {
        self.entry_at(j).1
    }

    /// Position of the element whose handle is `h`.
    pub open spec fn pos_of(self, h: int) -> int {
        self.indices@[h]->0 as int
    }

    /// Value of the element whose handle is `h`.
    pub open spec fn handle_val(self, h: int) -> u64 {
        self.val_at(self.pos_of(h))
    }

    /// The live values in sorted order.
    pub open spec fn vals(self) -> Seq<u64> {
        Seq::new(self.len as nat, |j: int| self.val_at(j))
    }

    pub open spec fn wf(self) -> bool {
        &&& self.indices@.len() == self.backing@.len()
        &&& self.len <= self.backing@.len()
        &&& forall|j: int|
            0 <= j < self.len ==> (#[trigger] self.backing@[j]) is Some && 0 <= self.handle_at(j)
                < self.len && self.indices@[self.handle_at(j)] is Some && self.pos_of(
                self.handle_at(j),
            ) == j
        &&& forall|j: int|
            self.len <= j < self.backing@.len() ==> (#[trigger] self.backing@[j]) is None
        &&& forall|h: int|
            0 <= h < self.len ==> (#[trigger] self.indices@[h]) is Some && 0 <= self.pos_of(h)
                < self.len && self.handle_at(self.pos_of(h)) == h
        &&& forall|h: int|
            self.len <= h < self.indices@.len() ==> (#[trigger] self.indices@[h]) is None
        &&& forall|j1: int, j2: int|
            0 <= j1 <= j2 < self.len ==> #[trigger] self.val_at(j1) <= #[trigger] self.val_at(j2)
    }

    pub fn new(capacity: usize) -> (r: SearchableList)
        ensures
            r.wf(),
            r.len == 0,
            r.capacity() == capacity,
            forall|j: int| 0 <= j < capacity ==> (#[trigger] r.backing@[j]) is None,
            forall|j: int| 0 <= j < capacity ==> (#[trigger] r.indices@[j]) is None,
    {
        let mut backing: Vec<Option<(usize, u64)>> = Vec::new();
        let mut indices: Vec<Option<usize>> = Vec::new();
        let mut i: usize = 0;
        while i < capacity
            invariant
                backing@.len() == i,
                indices@.len() == i,
                i <= capacity,
                forall|j: int| 0 <= j < i ==> (#[trigger] backing@[j]) is None,
                forall|j: int| 0 <= j < i ==> (#[trigger] indices@[j]) is None,
            decreases capacity - i,
        {
            backing.push(None);
            indices.push(None);
            i = i + 1;
        }
        SearchableList { backing, indices, len: 0 }
    }

    /// The size of the backing arrays (not the number of live elements).
    pub fn max_len(&self) -> (r: usize)
        ensures
            r == self.capacity(),
    {
        self.backing.len()
    }

    /// The number of live elements.
    pub fn len(&self) -> (r: usize)
        ensures
            r == self.len,
            r == self.vals().len(),
    {
        self.len
    }

    /// The value of the element whose handle is `index`.
    pub fn index(&self, index: usize) -> (r: &u64)
        requires
            self.wf(),
            index < self.len,
        ensures
            *r == self.handle_val(index as int),
    {
        let j = match &self.indices[index] {
            Some(j) => *j,
            None => unreached(),
        };
        match &self.backing[j] {
            Some(el) => &el.1,
            None => unreached(),
        }
    }

    /// Binary search for the handle of an element holding `elem`, inside
    /// the position range `[start_j, end_j)`; positions outside the range
    /// are known not to hold it.
    fn search_for_existing_spot(&self, elem: &u64, start_j: usize, end_j: usize) -> (r: Option<
        usize,
    >)
        requires
            self.wf(),
            start_j <= end_j <= self.len,
            forall|x: int| 0 <= x < start_j ==> self.val_at(x) != *elem,
            forall|x: int| end_j <= x < self.len ==> self.val_at(x) != *elem,
        ensures
            match r {
                Some(h) => h < self.len && self.handle_val(h as int) == *elem,
                None => forall|x: int| 0 <= x < self.len ==> self.val_at(x) != *elem,
            },
        decreases end_j - start_j,
    {
        let diff = end_j - start_j;
        if diff == 0 {
            None
        } else if diff == 1 {
            match &self.backing[start_j] {
                Some(el) => if el.1 == *elem {
                    Some(el.0)
                } else {
                    None
                },
                None => unreached(),
            }
        } else {
            let midpoint = start_j + diff / 2;
            match &self.backing[midpoint] {
                Some(el) => {
                    if el.1 == *elem {
                        Some(el.0)
                    } else if el.1 < *elem {
                        proof {
                            assert forall|x: int| 0 <= x < midpoint implies self.val_at(x)
                                != *elem by {
                                assert(self.val_at(x) <= self.val_at(midpoint as int));
                            }
                        }
                        self.search_for_existing_spot(elem, midpoint, end_j)
                    } else {
                        proof {
                            assert forall|x: int| midpoint <= x < self.len implies self.val_at(x)
                                != *elem by {
                                if x < end_j {
                                    assert(self.val_at(midpoint as int) <= self.val_at(x));
                                }
                            }
                        }
                        self.search_for_existing_spot(elem, start_j, midpoint)
                    }
                },
                None => unreached(),
            }
        }
    }

    /// Binary search for the position where `elem` should be inserted,
    /// inside `[start_j, end_j)`: the position after every value at most
    /// `elem` and before every value above it.
    fn search_for_new_spot(&self, elem: &u64, start_j: usize, end_j: usize) -> (r: usize)
        requires
            self.wf(),
            start_j <= end_j <= self.len,
            end_j == start_j ==> self.len == 0,
            forall|x: int| 0 <= x < start_j ==> self.val_at(x) <= *elem,
            forall|x: int| end_j <= x < self.len ==> self.val_at(x) > *elem,
        ensures
            r <= self.len,
            forall|x: int| 0 <= x < r ==> self.val_at(x) <= *elem,
            forall|x: int| r <= x < self.len ==> self.val_at(x) > *elem,
        decreases end_j - start_j,
    {
        let diff = end_j - start_j;
        if diff == 0 {
            0
        } else if diff == 1 {
            match &self.backing[start_j] {
                Some(el) => {
                    if el.1 <= *elem {
                        proof {
                            assert forall|x: int| 0 <= x < end_j implies self.val_at(x)
                                <= *elem by {
                                assert(self.val_at(x) <= self.val_at(start_j as int));
                            }
                        }
                        end_j
                    } else {
                        proof {
                            assert forall|x: int| start_j <= x < self.len implies self.val_at(x)
                                > *elem by {
                                if x < end_j {
                                } else {
                                    assert(self.val_at(x) > *elem);
                                }
                            }
                        }
                        start_j
                    }
                },
                None => unreached(),
            }
        } else {
            let midpoint = start_j + diff / 2;
            match &self.backing[midpoint] {
                Some(el) => {
                    if el.1 <= *elem {
                        proof {
                            assert forall|x: int| 0 <= x < midpoint implies self.val_at(x)
                                <= *elem by {
                                assert(self.val_at(x) <= self.val_at(midpoint as int));
                            }
                        }
                        self.search_for_new_spot(elem, midpoint, end_j)
                    } else {
                        proof {
                            assert forall|x: int| midpoint <= x < self.len implies self.val_at(x)
                                > *elem by {
                                assert(self.val_at(midpoint as int) <= self.val_at(x));
                            }
                        }
                        self.search_for_new_spot(elem, start_j, midpoint)
                    }
                },
                None => unreached(),
            }
        }
    }

    /// Re-check the structural invariants at run time: length in bounds,
    /// the two arrays cross-referencing each other, and the backing array
    /// sorted. On a well-formed list every check passes.
    pub fn verify_invariates(&self) -> (r: bool)
        requires
            self.wf(),
        ensures
            r,
    {
        if self.len > self.backing.len() {
            return false;
        }
        let mut index: usize = 0;
        while index < self.len
            invariant
                self.wf(),
                index <= self.len,
            decreases self.len - index,
        {
            let i = match &self.backing[index] {
                Some(e) => e.0,
                None => {
                    return false;
                },
            };
            if self.indices[index].is_none() {
                return false;
            }
            proof {
                assert(i as int == self.handle_at(index as int));
                assert(self.pos_of(self.handle_at(index as int)) == index as int);
            }
            match &self.indices[i] {
                Some(j2) => {
                    if *j2 != index {
                        return false;
                    }
                },
                None => {
                    return false;
                },
            }
            index = index + 1;
        }
        if self.len > 0 {
            let mut j: usize = 0;
            while j < self.len - 1
                invariant
                    self.wf(),
                    self.len > 0,
                    j <= self.len - 1,
                decreases self.len - j,
            {
                let el1 = match &self.backing[j] {
                    Some(e) => e.1,
                    None => {
                        return false;
                    },
                };
                let el2 = match &self.backing[j + 1] {
                    Some(e) => e.1,
                    None => {
                        return false;
                    },
                };
                proof {
                    assert(self.val_at(j as int) <= self.val_at(j + 1));
                }
                if el1 > el2 {
                    return false;
                }
                j = j + 1;
            }
        }
        true
    }

    /// Insert `elem`, assigning it the next handle (`len` before the
    /// call). The element lands after every value at most `elem` and
    /// before every larger one; everything from that position on shifts
    /// one slot to the right, each shifted element's `indices` entry
    /// following along.
    pub fn push(&mut self, elem: u64) -> (r: Result<(), CapacityExceeded>)
        requires
            old(self).wf(),
        ensures
            final(self).wf(),
            final(self).capacity() == old(self).capacity(),
            old(self).len >= old(self).capacity() ==> r is Err && *final(self) == *old(self),
            old(self).len < old(self).capacity() ==> r is Ok && ({
                let spot = count_le(old(self).vals(), elem);
                &&& final(self).len == old(self).len + 1
                &&& final(self).vals() == old(self).vals().insert(spot, elem)
                &&& final(self).pos_of(old(self).len as int) == spot
                &&& final(self).handle_val(old(self).len as int) == elem
                &&& forall|h: int|
                    0 <= h < old(self).len ==> (#[trigger] final(self).handle_val(h)) == old(
                        self,
                    ).handle_val(h)
            }),
    {
        let cap = self.backing.len();
        if self.len >= cap {
            return Err(CapacityExceeded);
        }
        let ghost m = *self;
        proof {
            assert forall|j1: int, j2: int| 0 <= j1 <= j2 < m.vals().len() implies #[trigger] m.vals()[j1]
                <= #[trigger] m.vals()[j2] by {
                assert(m.val_at(j1) <= m.val_at(j2));
            }
            lemma_count_le_bracket(m.vals(), elem);
        }
        let spot = self.search_for_new_spot(&elem, 0, self.len);
        proof {
            let cl = count_le(m.vals(), elem);
            if spot < cl {
                assert(m.vals()[spot as int] <= elem);
                assert(false);
            }
            if cl < spot {
                assert(m.vals()[cl] > elem);
                assert(m.val_at(cl) <= elem);
                assert(false);
            }
        }
        let mut j = self.len;
        while j > spot
            invariant
                m.wf(),
                spot <= j <= m.len,
                m.len < m.backing@.len(),
                self.len == m.len,
                self.backing@.len() == m.backing@.len(),
                self.indices@.len() == m.indices@.len(),
                forall|x: int| 0 <= x <= j ==> (#[trigger] self.backing@[x]) == m.backing@[x],
                forall|x: int|
                    j < x <= m.len ==> (#[trigger] self.backing@[x]) == m.backing@[x - 1],
                forall|x: int|
                    m.len < x < m.backing@.len() ==> (#[trigger] self.backing@[x]) is None,
                forall|h: int|
                    0 <= h < m.len && !(j <= m.pos_of(h) < m.len) ==> (
                    #[trigger] self.indices@[h]) == m.indices@[h],
                forall|h: int|
                    0 <= h < m.len && j <= m.pos_of(h) < m.len ==> (#[trigger] self.indices@[h])
                        == Some(((m.pos_of(h) + 1) as usize)),
                forall|h: int|
                    m.len <= h < m.indices@.len() ==> (#[trigger] self.indices@[h]) is None,
            decreases j,
        {
            j = j - 1;
            let e = match &self.backing[j] {
                Some(e) => *e,
                None => unreached(),
            };
            proof {
                assert(m.backing@[j as int] is Some);
                assert(e.0 as int == m.handle_at(j as int));
                assert(m.pos_of(e.0 as int) == j as int);
            }
            self.indices.set(e.0, Some(j + 1));
            self.backing.set(j + 1, Some(e));
            proof {
                assert forall|h: int|
                    0 <= h < m.len && !(j <= m.pos_of(h) < m.len) implies (
                #[trigger] self.indices@[h]) == m.indices@[h] by {
                    if h == e.0 as int {
                        assert(m.pos_of(h) == j as int);
                    }
                }
            }
        }
        let h_new = self.len;
        self.backing.set(spot, Some((h_new, elem)));
        self.indices.set(h_new, Some(spot));
        self.len = self.len + 1;
        proof {
            let f = *self;
            let s = spot as int;
            // layout of the new backing array
            assert(f.len == m.len + 1);
            assert(forall|x: int| 0 <= x < s ==> (#[trigger] f.backing@[x]) == m.backing@[x]);
            assert(f.backing@[s] == Some((h_new, elem)));
            assert(forall|x: int|
                s < x <= m.len ==> (#[trigger] f.backing@[x]) == m.backing@[x - 1]);
            // positions and values after the shift
            assert forall|x: int| 0 <= x < f.len implies (#[trigger] f.backing@[x]) is Some by {}
            assert(forall|x: int| 0 <= x < s ==> (#[trigger] f.val_at(x)) == m.val_at(x));
            assert(f.val_at(s) == elem);
            assert(forall|x: int| s < x < f.len ==> (#[trigger] f.val_at(x)) == m.val_at(x - 1));
            // well-formedness clause by clause
            assert forall|x: int|
                0 <= x < f.len implies (#[trigger] f.backing@[x]) is Some && 0 <= f.handle_at(x)
                < f.len && f.indices@[f.handle_at(x)] is Some && f.pos_of(f.handle_at(x))
                == x by {
                if x < s {
                    assert(f.handle_at(x) == m.handle_at(x));
                    assert(!(s <= m.pos_of(m.handle_at(x)) < m.len));
                } else if x == s {
                    assert(f.handle_at(x) == m.len);
                } else {
                    assert(f.handle_at(x) == m.handle_at(x - 1));
                    assert(s <= m.pos_of(m.handle_at(x - 1)) < m.len);
                }
            }
            assert forall|h: int|
                0 <= h < f.len implies (#[trigger] f.indices@[h]) is Some && 0 <= f.pos_of(h)
                < f.len && f.handle_at(f.pos_of(h)) == h by {
                if h == m.len {
                    assert(f.pos_of(h) == s);
                } else {
                    assert(0 <= m.pos_of(h) < m.len);
                    if s <= m.pos_of(h) {
                        assert(f.pos_of(h) == m.pos_of(h) + 1);
                        assert(f.handle_at(m.pos_of(h) + 1) == m.handle_at(m.pos_of(h)));
                    } else {
                        assert(f.pos_of(h) == m.pos_of(h));
                    }
                }
            }
            assert forall|j1: int, j2: int|
                0 <= j1 <= j2 < f.len implies #[trigger] f.val_at(j1) <= #[trigger] f.val_at(
                j2,
            ) by {
                if j1 < s {
                    assert(m.vals()[j1] == m.val_at(j1));
                    assert(m.vals()[j1] <= elem);
                }
                if j2 > s {
                    assert(m.vals()[j2 - 1] == m.val_at(j2 - 1));
                    assert(m.vals()[j2 - 1] > elem);
                }
                if j1 < s && j2 < s {
                    assert(m.val_at(j1) <= m.val_at(j2));
                }
                if j1 > s && j2 > s {
                    assert(m.val_at(j1 - 1) <= m.val_at(j2 - 1));
                }
            }
            // the stated contract
            assert(f.vals() =~= m.vals().insert(s, elem));
            assert forall|h: int| 0 <= h < m.len implies (#[trigger] f.handle_val(h))
                == m.handle_val(h) by {
                if s <= m.pos_of(h) {
                    assert(f.pos_of(h) == m.pos_of(h) + 1);
                } else {
                    assert(f.pos_of(h) == m.pos_of(h));
                }
            }
        }
        Ok(())
    }

    /// Remove the element holding the highest currently assigned handle —
    /// the most recently pushed element, which is generally neither the
    /// smallest nor the largest value. Elements to its right shift one
    /// slot to the left, their `indices` entries following along.
    pub fn pop(&mut self) -> (r: Option<u64>)
        requires
            old(self).wf(),
        ensures
            final(self).wf(),
            final(self).capacity() == old(self).capacity(),
            old(self).len == 0 ==> r is None && *final(self) == *old(self),
            old(self).len > 0 ==> ({
                let j = old(self).pos_of(old(self).len - 1);
                &&& r == Some(old(self).handle_val(old(self).len - 1))
                &&& final(self).len == old(self).len - 1
                &&& final(self).vals() == old(self).vals().remove(j)
                &&& forall|h2: int|
                    0 <= h2 < old(self).len - 1 ==> (#[trigger] final(self).handle_val(h2)) == old(
                        self,
                    ).handle_val(h2)
            }),
    {
        if self.len == 0 {
            return None;
        }
        let ghost m = *self;
        let h = self.len - 1;
        let j = match &self.indices[h] {
            Some(j) => *j,
            None => unreached(),
        };
        let elem = match &self.backing[j] {
            Some(el) => el.1,
            None => unreached(),
        };
        let mut j2 = j;
        while j2 < h
            invariant
                m.wf(),
                m.len > 0,
                h == m.len - 1,
                j == m.pos_of(m.len - 1),
                j <= j2 <= h,
                self.len == m.len,
                self.backing@.len() == m.backing@.len(),
                self.indices@.len() == m.indices@.len(),
                forall|x: int| 0 <= x < j ==> (#[trigger] self.backing@[x]) == m.backing@[x],
                forall|x: int|
                    j <= x < j2 ==> (#[trigger] self.backing@[x]) == m.backing@[x + 1],
                forall|x: int|
                    j2 <= x < m.backing@.len() ==> (#[trigger] self.backing@[x]) == m.backing@[x],
                forall|h2: int|
                    0 <= h2 < m.len && !(j < m.pos_of(h2) <= j2) ==> (
                    #[trigger] self.indices@[h2]) == m.indices@[h2],
                forall|h2: int|
                    0 <= h2 < m.len && j < m.pos_of(h2) <= j2 ==> (#[trigger] self.indices@[h2])
                        == Some(((m.pos_of(h2) - 1) as usize)),
                forall|h2: int|
                    m.len <= h2 < m.indices@.len() ==> (#[trigger] self.indices@[h2])
                        == m.indices@[h2],
            decreases h - j2,
        {
            let e = match &self.backing[j2 + 1] {
                Some(e) => *e,
                None => unreached(),
            };
            proof {
                assert(m.backing@[j2 + 1] is Some);
                assert(e.0 as int == m.handle_at(j2 + 1));
                assert(m.pos_of(e.0 as int) == j2 + 1);
            }
            self.indices.set(e.0, Some(j2));
            self.backing.set(j2, Some(e));
            j2 = j2 + 1;
            proof {
                assert forall|h2: int|
                    0 <= h2 < m.len && !(j < m.pos_of(h2) <= j2) implies (
                #[trigger] self.indices@[h2]) == m.indices@[h2] by {
                    if h2 == e.0 as int {
                        assert(m.pos_of(h2) == j2);
                    }
                }
            }
        }
        self.len = h;
        self.indices.set(h, None);
        self.backing.set(h, None);
        proof {
            let f = *self;
            let jj = j as int;
            assert(elem == m.handle_val(m.len - 1));
            // layout of the new arrays
            assert(forall|x: int| 0 <= x < jj ==> (#[trigger] f.backing@[x]) == m.backing@[x]);
            assert(forall|x: int|
                jj <= x < f.len ==> (#[trigger] f.backing@[x]) == m.backing@[x + 1]);
            assert(forall|x: int|
                f.len <= x < f.backing@.len() ==> (#[trigger] f.backing@[x]) is None);
            assert(forall|x: int| 0 <= x < jj ==> (#[trigger] f.val_at(x)) == m.val_at(x));
            assert(forall|x: int|
                jj <= x < f.len ==> (#[trigger] f.val_at(x)) == m.val_at(x + 1));
            // a handle below the popped one sat at a position other than `j`
            assert forall|h2: int| 0 <= h2 < f.len implies m.pos_of(h2) != jj by {
                if m.pos_of(h2) == jj {
                    assert(m.handle_at(jj) == h2);
                    assert(m.handle_at(jj) == m.len - 1);
                }
            }
            // well-formedness clause by clause
            assert forall|x: int|
                0 <= x < f.len implies (#[trigger] f.backing@[x]) is Some && 0 <= f.handle_at(x)
                < f.len && f.indices@[f.handle_at(x)] is Some && f.pos_of(f.handle_at(x))
                == x by {
                if x < jj {
                    assert(f.handle_at(x) == m.handle_at(x));
                    assert(m.handle_at(x) != m.len - 1) by {
                        assert(m.pos_of(m.handle_at(x)) == x);
                    }
                    assert(!(j < m.pos_of(m.handle_at(x)) <= h));
                } else {
                    assert(f.handle_at(x) == m.handle_at(x + 1));
                    assert(m.handle_at(x + 1) != m.len - 1) by {
                        assert(m.pos_of(m.handle_at(x + 1)) == x + 1);
                    }
                    assert(j < m.pos_of(m.handle_at(x + 1)) <= h);
                }
            }
            assert forall|h2: int|
                0 <= h2 < f.len implies (#[trigger] f.indices@[h2]) is Some && 0 <= f.pos_of(h2)
                < f.len && f.handle_at(f.pos_of(h2)) == h2 by {
                assert(m.pos_of(h2) != jj);
                if jj < m.pos_of(h2) {
                    assert(f.pos_of(h2) == m.pos_of(h2) - 1);
                    assert(f.handle_at(m.pos_of(h2) - 1) == m.handle_at(m.pos_of(h2)));
                } else {
                    assert(f.pos_of(h2) == m.pos_of(h2));
                }
            }
            assert forall|j1: int, j2x: int|
                0 <= j1 <= j2x < f.len implies #[trigger] f.val_at(j1) <= #[trigger] f.val_at(
                j2x,
            ) by {
                if j1 < jj && j2x < jj {
                    assert(m.val_at(j1) <= m.val_at(j2x));
                } else if j1 < jj {
                    assert(m.val_at(j1) <= m.val_at(j2x + 1));
                } else {
                    assert(m.val_at(j1 + 1) <= m.val_at(j2x + 1));
                }
            }
            // the stated contract
            assert(f.vals() =~= m.vals().remove(jj));
            assert forall|h2: int| 0 <= h2 < m.len - 1 implies (#[trigger] f.handle_val(h2))
                == m.handle_val(h2) by {
                assert(m.pos_of(h2) != jj);
                if jj < m.pos_of(h2) {
                    assert(f.pos_of(h2) == m.pos_of(h2) - 1);
                } else {
                    assert(f.pos_of(h2) == m.pos_of(h2));
                }
            }
        }
        Some(elem)
    }

    /// Look up the handle of an element holding `elem`, or `None` when no
    /// live element does.
    pub fn find(&self, elem: &u64) -> (r: Option<usize>)
        requires
            self.wf(),
        ensures
            r is Some <==> self.vals().contains(*elem),
            r matches Some(h) ==> h < self.len && self.handle_val(h as int) == *elem,
    {
        let r = self.search_for_existing_spot(elem, 0, self.len);
        proof {
            match r {
                Some(h) => {
                    assert(self.vals()[self.pos_of(h as int)] == *elem);
                },
                None => {
                    if self.vals().contains(*elem) {
                        let x = choose|x: int|
                            0 <= x < self.vals().len() && self.vals()[x] == *elem;
                        assert(self.val_at(x) == *elem);
                    }
                },
            }
        }
        r
    }
}

} // verus!
