//! Fixed-capacity priority buffer, kept sorted by insertion.
//!
//! Elements are stored in descending order, so the smallest element sits
//! at the back of the live range and is the one `pop` removes. An insert
//! binary-searches its position — after every element at least as large,
//! which keeps arrival order among equal elements — and shifts the tail
//! one slot to the right.

use vstd::prelude::*;

verus! {

/// `s` is non-increasing.
pub open spec fn sorted_desc(s: Seq<u64>) -> bool {
    forall|j1: int, j2: int| 0 <= j1 <= j2 < s.len() ==> #[trigger] s[j1] >= #[trigger] s[j2]
}

/// How many entries of `s` are greater than or equal to `v`; on a
/// descending sequence this is where an insertion of `v` lands.
pub open spec fn count_ge(s: Seq<u64>, v: u64) -> int
    decreases s.len(),
{
    if s.len() == 0 {
        0
    } else {
        count_ge(s.drop_last(), v) + if s.last() >= v {
            1int
        } else {
            0int
        }
    }
}

/// On a descending sequence, `count_ge` splits the entries into a prefix
/// of values at least `v` and a suffix of values below it.
pub proof fn lemma_count_ge_bracket(s: Seq<u64>, v: u64)
    requires
        sorted_desc(s),
    ensures
        0 <= count_ge(s, v) <= s.len(),
        forall|x: int| 0 <= x < count_ge(s, v) ==> s[x] >= v,
        forall|x: int| count_ge(s, v) <= x < s.len() ==> s[x] < v,
    decreases s.len(),
{
    if s.len() > 0 {
        let d = s.drop_last();
        assert forall|j1: int, j2: int| 0 <= j1 <= j2 < d.len() implies #[trigger] d[j1]
            >= #[trigger] d[j2] by {
            assert(d[j1] == s[j1] && d[j2] == s[j2]);
        }
        lemma_count_ge_bracket(d, v);
        assert forall|x: int| 0 <= x < count_ge(s, v) implies s[x] >= v by {
            if s.last() >= v {
                assert(s[x] >= s[s.len() - 1]);
            } else {
                assert(s[x] == d[x]);
            }
        }
        assert forall|x: int| count_ge(s, v) <= x < s.len() implies s[x] < v by {
            if x < s.len() - 1 {
                assert(s[x] == d[x]);
            }
        }
    }
}

/// A priority buffer that can hold at most `capacity()` elements.
pub struct PriorityQueue {
    pub arr: Vec<Option<u64>>,
    pub len: usize,
}

impl View for PriorityQueue {
    type V = Seq<u64>;

    /// The live elements, largest first.
    open spec fn view(&self) -> Seq<u64> {
        Seq::new(self.len as nat, |i: int| self.arr@[i]->0)
    }
}

impl PriorityQueue {
    /// Number of slots in the backing array; fixed at construction.
    pub open spec fn capacity(&self) -> int {
        self.arr@.len() as int
    }

    /// Slots below `len` are occupied and descending, the rest vacant.
    pub open spec fn wf(&self) -> bool {
        &&& self.len <= self.arr@.len()
        &&& forall|i: int| 0 <= i < self.len ==> (#[trigger] self.arr@[i]) is Some
        &&& forall|i: int|
            self.len <= i < self.arr@.len() ==> (#[trigger] self.arr@[i]) is None
        &&& sorted_desc(self@)
    }

    pub fn new(capacity: usize) -> (r: PriorityQueue)
        ensures
            r.wf(),
            r.capacity() == capacity,
            r@ == Seq::<u64>::empty(),
            r.len == 0,
            forall|i: int| 0 <= i < capacity ==> (#[trigger] r.arr@[i]) is None,
    {
        let mut arr: Vec<Option<u64>> = Vec::new();
        let mut i: usize = 0;
        while i < capacity
            invariant
                arr@.len() == i,
                i <= capacity,
                forall|j: int| 0 <= j < i ==> (#[trigger] arr@[j]) is None,
            decreases capacity - i,
        {
            arr.push(None);
            i = i + 1;
        }
        let q = PriorityQueue { arr, len: 0 };
        proof {
            assert(q@ =~= Seq::<u64>::empty());
        }
        q
    }

    pub fn len(&self) -> (r: usize)
        ensures
            r == self.len,
            r == self@.len(),
    {
        self.len
    }

    /// Binary search for the position where `elem` should be inserted,
    /// inside `[start, end)`: after every value at least `elem` and
    /// before every smaller one.
    fn search_for_new_spot(&self, elem: &u64, start: usize, end: usize) -> (r: usize)
        requires
            self.wf(),
            start <= end <= self.len,
            end == start ==> self.len == 0,
            forall|x: int| 0 <= x < start ==> self@[x] >= *elem,
            forall|x: int| end <= x < self.len ==> self@[x] < *elem,
        ensures
            r <= self.len,
            forall|x: int| 0 <= x < r ==> self@[x] >= *elem,
            forall|x: int| r <= x < self.len ==> self@[x] < *elem,
        decreases end - start,
    {
        let diff = end - start;
        if diff == 0 {
            0
        } else if diff == 1 {
            match &self.arr[start] {
                Some(el) => {
                    if *el >= *elem {
                        proof {
                            assert forall|x: int| 0 <= x < end implies self@[x] >= *elem by {
                                assert(self@[x] >= self@[start as int]);
                            }
                        }
                        end
                    } else {
                        proof {
                            assert forall|x: int| start <= x < self.len implies self@[x]
                                < *elem by {
                                if x >= end {
                                } else {
                                    assert(self@[x] == self@[start as int]);
                                }
                            }
                        }
                        start
                    }
                },
                None => unreached(),
            }
        } else {
            let midpoint = start + diff / 2;
            match &self.arr[midpoint] {
                Some(el) => {
                    if *el >= *elem {
                        proof {
                            assert forall|x: int| 0 <= x < midpoint implies self@[x] >= *elem by {
                                assert(self@[x] >= self@[midpoint as int]);
                            }
                        }
                        self.search_for_new_spot(elem, midpoint, end)
                    } else {
                        proof {
                            assert forall|x: int| midpoint <= x < self.len implies self@[x]
                                < *elem by {
                                assert(self@[midpoint as int] >= self@[x]);
                            }
                        }
                        self.search_for_new_spot(elem, start, midpoint)
                    }
                },
                None => unreached(),
            }
        }
    }

    /// Insert `elem` at its place in the descending order, after every
    /// element at least as large.
    pub fn insert(&mut self, elem: u64)
        requires
            old(self).wf(),
            old(self).len < old(self).capacity(),
        ensures
            final(self).wf(),
            final(self).capacity() == old(self).capacity(),
            final(self).len == old(self).len + 1,
            final(self)@ == old(self)@.insert(count_ge(old(self)@, elem), elem),
    {
        let ghost m = *self;
        let _cap = self.arr.len();
        proof {
            lemma_count_ge_bracket(m@, elem);
        }
        let spot = self.search_for_new_spot(&elem, 0, self.len);
        proof {
            let cg = count_ge(m@, elem);
            if spot < cg {
                assert(m@[spot as int] >= elem);
                assert(false);
            }
            if cg < spot {
                assert(m@[cg] < elem);
                assert(false);
            }
        }
        let mut i = self.len;
        while i > spot
            invariant
                m.wf(),
                spot <= i <= m.len,
                m.len < m.arr@.len(),
                self.len == m.len,
                self.arr@.len() == m.arr@.len(),
                forall|x: int| 0 <= x <= i ==> (#[trigger] self.arr@[x]) == m.arr@[x],
                forall|x: int| i < x <= m.len ==> (#[trigger] self.arr@[x]) == m.arr@[x - 1],
                forall|x: int|
                    m.len < x < m.arr@.len() ==> (#[trigger] self.arr@[x]) is None,
            decreases i,
        {
            i = i - 1;
            let e = match &self.arr[i] {
                Some(e) => *e,
                None => unreached(),
            };
            self.arr.set(i + 1, Some(e));
        }
        self.arr.set(spot, Some(elem));
        self.len = self.len + 1;
        proof {
            let f = *self;
            let s = spot as int;
            assert(forall|x: int| 0 <= x < s ==> (#[trigger] f.arr@[x]) == m.arr@[x]);
            assert(forall|x: int| s < x <= m.len ==> (#[trigger] f.arr@[x]) == m.arr@[x - 1]);
            assert(f@ =~= m@.insert(s, elem));
            assert forall|j1: int, j2: int| 0 <= j1 <= j2 < f@.len() implies #[trigger] f@[j1]
                >= #[trigger] f@[j2] by {
                if j1 < s {
                    assert(m@[j1] >= elem);
                }
                if j2 > s {
                    assert(m@[j2 - 1] < elem);
                }
                if j1 < s && j2 < s {
                    assert(m@[j1] >= m@[j2]);
                }
                if j1 > s && j2 > s {
                    assert(m@[j1 - 1] >= m@[j2 - 1]);
                }
            }
        }
    }

    /// Remove and return the smallest element, which sits at the back of
    /// the live range.
    pub fn pop(&mut self) -> (r: Option<u64>)
        requires
            old(self).wf(),
        ensures
            final(self).wf(),
            final(self).capacity() == old(self).capacity(),
            old(self)@.len() == 0 ==> r is None && *final(self) == *old(self),
            old(self)@.len() > 0 ==> r == Some(old(self)@.last()) && final(self)@
                == old(self)@.drop_last() && forall|x: int|
                0 <= x < old(self)@.len() ==> old(self)@.last() <= old(self)@[x],
    {
        if self.len == 0 {
            None
        } else {
            self.len = self.len - 1;
            let r = self.arr[self.len].take();
            proof {
                assert(self@ =~= old(self)@.drop_last());
                assert forall|x: int| 0 <= x < old(self)@.len() implies old(self)@.last() <= old(
                    self,
                )@[x] by {
                    assert(old(self)@[x] >= old(self)@[old(self)@.len() - 1]);
                }
            }
            r
        }
    }
}

} // verus!
