//! Fixed-capacity queue, backed by a ring buffer.

use vstd::prelude::*;

verus! {

/// The backing position of the element `o` places behind a front at
/// `index`, in a ring of `n` slots.
pub open spec fn ring_pos_of(n: int, index: int, o: int) -> int
    recommends
        0 <= index < n,
        0 <= o < n,
{
    if index + o < n {
        index + o
    } else {
        index + o - n
    }
}

/// The window of `len` slots from `index` is occupied, the rest of the
/// ring is vacant.
pub open spec fn ring_wf<T>(arr: Seq<Option<T>>, index: int, len: int) -> bool {
    &&& len <= arr.len()
    &&& (index < arr.len() || (index == 0 && arr.len() == 0))
    &&& forall|o: int|
        0 <= o < len ==> (#[trigger] arr[ring_pos_of(arr.len() as int, index, o)]) is Some
    &&& forall|o: int|
        len <= o < arr.len() ==> (#[trigger] arr[ring_pos_of(arr.len() as int, index, o)]) is None
}

/// The elements of the window, front first.
pub open spec fn ring_view<T>(arr: Seq<Option<T>>, index: int, len: int) -> Seq<T> {
    Seq::new(len as nat, |o: int| arr[ring_pos_of(arr.len() as int, index, o)]->0)
}

/// A queue that can hold at most `capacity()` elements. `index` marks the
/// front; the live elements occupy `len` consecutive slots from there,
/// wrapping at the end of the backing array.
pub struct Queue<T> {
    pub arr: Vec<Option<T>>,
    pub index: usize,
    pub len: usize,
}

impl<T> View for Queue<T> {
    type V = Seq<T>;

    /// The live elements, front of the queue first.
    open spec fn view(&self) -> Seq<T> {
        ring_view(self.arr@, self.index as int, self.len as int)
    }
}

impl<T> Queue<T> {
    /// Number of slots in the backing array; fixed at construction.
    pub open spec fn capacity(&self) -> int {
        self.arr@.len() as int
    }

    /// The backing position of the element `o` places behind the front.
    #[verifier::inline]
    pub open spec fn ring_pos(&self, o: int) -> int
        recommends
            0 <= o < self.capacity(),
    {
        ring_pos_of(self.arr@.len() as int, self.index as int, o)
    }

    pub open spec fn wf(&self) -> bool {
        ring_wf(self.arr@, self.index as int, self.len as int)
    }

    pub fn new(capacity: usize) -> (r: Queue<T>)
        ensures
            r.wf(),
            r.capacity() == capacity,
            r@ == Seq::<T>::empty(),
            r.len == 0,
            r.index == 0,
            forall|i: int| 0 <= i < capacity ==> (#[trigger] r.arr@[i]) is None,
    {
        let mut arr: Vec<Option<T>> = Vec::new();
        let mut i: usize = 0;
        while i < capacity
            invariant
                arr@.len() == i,
                i <= capacity,
                forall|j: int| 0 <= j < i ==> (#[trigger] arr@[j]) is None,
            decreases capacity - i,
        {
            arr.push(None);
            i = i + 1;
        }
        let q = Queue { arr, index: 0, len: 0 };
        proof {
            assert(q@ =~= Seq::<T>::empty());
        }
        q
    }

    pub fn len(&self) -> (r: usize)
        ensures
            r == self.len,
            r == self@.len(),
    {
        self.len
    }

    /// The backing position `offset` places behind the front, computed
    /// without wrapping past the machine's integer range.
    fn phys_pos(&self, offset: usize) -> (r: usize)
        requires
            self.wf(),
            offset < self.capacity() || (offset == self.len && self.len < self.capacity()),
        ensures
            r == self.ring_pos(offset as int),
            r < self.capacity(),
    {
        let cap = self.arr.len();
        let rem = cap - self.index;
        if offset >= rem {
            offset - rem
        } else {
            self.index + offset
        }
    }

    /// Push a value to the back of the queue.
    pub fn push_back(&mut self, elem: T)
        requires
            old(self).wf(),
            old(self).len < old(self).capacity(),
        ensures
            final(self).wf(),
            final(self).capacity() == old(self).capacity(),
            final(self).index == old(self).index,
            final(self)@ == old(self)@.push(elem),
    {
        let _cap = self.arr.len();
        let pos = self.phys_pos(self.len);
        self.arr.set(pos, Some(elem));
        self.len = self.len + 1;
        proof {
            assert forall|o: int|
                0 <= o < self.len implies (#[trigger] self.arr@[self.ring_pos(o)]) is Some by {
                if o < old(self).len {
                    assert(self.ring_pos(o) != pos as int);
                    assert(old(self).arr@[old(self).ring_pos(o)] is Some);
                }
            }
            assert forall|o: int|
                self.len <= o < self.arr@.len() implies (#[trigger] self.arr@[self.ring_pos(
                o,
            )]) is None by {
                assert(self.ring_pos(o) != pos as int);
                assert(old(self).arr@[old(self).ring_pos(o)] is None);
            }
            assert(self@ =~= old(self)@.push(elem));
        }
    }

    /// Pop a value from the front of the queue.
    pub fn pop_front(&mut self) -> (r: Option<T>)
        requires
            old(self).wf(),
        ensures
            final(self).wf(),
            final(self).capacity() == old(self).capacity(),
            old(self)@.len() == 0 ==> r is None && *final(self) == *old(self),
            old(self)@.len() > 0 ==> r == Some(old(self)@[0]) && final(self)@ == old(
                self,
            )@.subrange(1, old(self)@.len() as int),
    {
        if self.len == 0 {
            return None;
        }
        let cap = self.arr.len();
        let r = self.arr[self.index].take();
        self.len = self.len - 1;
        self.index = if self.index + 1 == cap {
            0
        } else {
            self.index + 1
        };
        proof {
            assert forall|o: int|
                0 <= o < self.len implies (#[trigger] self.arr@[self.ring_pos(o)]) is Some by {
                assert(self.ring_pos(o) == old(self).ring_pos(o + 1));
                assert(old(self).arr@[old(self).ring_pos(o + 1)] is Some);
            }
            assert forall|o: int|
                self.len <= o < self.arr@.len() implies (#[trigger] self.arr@[self.ring_pos(
                o,
            )]) is None by {
                if o < self.arr@.len() - 1 {
                    assert(self.ring_pos(o) == old(self).ring_pos(o + 1));
                    assert(old(self).arr@[old(self).ring_pos(o + 1)] is None);
                } else {
                    assert(self.ring_pos(o) == old(self).index);
                }
            }
            assert(self@ =~= old(self)@.subrange(1, old(self)@.len() as int));
        }
        r
    }

    /// Borrow the element `index` places behind the front.
    pub fn index(&self, index: usize) -> (r: &T)
        requires
            self.wf(),
            index < self.len,
        ensures
            *r == self@[index as int],
    {
        let pos = self.phys_pos(index);
        match &self.arr[pos] {
            Some(v) => v,
            None => unreached(),
        }
    }

    /// Mutably borrow the element `index` places behind the front.
    pub fn index_mut(&mut self, index: usize) -> (r: &mut T)
        requires
            old(self).wf(),
            index < old(self).len,
        ensures
            *r == old(self)@[index as int],
            final(self).len == old(self).len,
            final(self).index == old(self).index,
            final(self).arr@ =~= old(self).arr@.update(
                old(self).ring_pos(index as int),
                Some(*final(r)),
            ),
            final(self).wf(),
            final(self)@ =~= old(self)@.update(index as int, *final(r)),
    {
        let pos = self.phys_pos(index);
        proof {
            let m = *self;
            let n = m.arr@.len() as int;
            let p = m.ring_pos(index as int);
            // whatever value the caller writes through the borrow, the
            // ring layout and the rest of the view are untouched
            assert forall|t: T|
                #![trigger m.arr@.update(p, Some(t))]
                ring_wf(m.arr@.update(p, Some(t)), m.index as int, m.len as int) && ring_view(
                    m.arr@.update(p, Some(t)),
                    m.index as int,
                    m.len as int,
                ) =~= m@.update(index as int, t) by {
                let a2 = m.arr@.update(p, Some(t));
                assert(0 <= p < n);
                assert forall|o: int| 0 <= o < m.len implies (#[trigger] a2[ring_pos_of(
                    n,
                    m.index as int,
                    o,
                )]) is Some by {
                    assert(0 <= m.ring_pos(o) < n);
                    if m.ring_pos(o) != p {
                        assert(m.arr@[m.ring_pos(o)] is Some);
                    }
                }
                assert forall|o: int| m.len <= o < n implies (#[trigger] a2[ring_pos_of(
                    n,
                    m.index as int,
                    o,
                )]) is None by {
                    assert(m.ring_pos(o) != p);
                    assert(m.arr@[m.ring_pos(o)] is None);
                }
                assert forall|o: int| 0 <= o < m.len && o != index implies a2[m.ring_pos(o)]
                    == m.arr@[m.ring_pos(o)] by {
                    assert(m.ring_pos(o) != p);
                }
                assert(ring_view(a2, m.index as int, m.len as int) =~= m@.update(
                    index as int,
                    t,
                ));
            }
        }
        match &mut self.arr[pos] {
            Some(v) => v,
            None => unreached(),
        }
    }

    pub fn iter(&self) -> (r: QueueIter<'_, T>)
        ensures
            r.base == self,
            r.index == 0,
    {
        QueueIter { base: self, index: 0 }
    }
}

/// Walks a queue from its front towards its back.
pub struct QueueIter<'a, T> {
    pub base: &'a Queue<T>,
    pub index: usize,
}

impl<'a, T> QueueIter<'a, T> {
    pub fn next(&mut self) -> (r: Option<&'a T>)
        requires
            old(self).base.wf(),
        ensures
            final(self).base == old(self).base,
            old(self).index < old(self).base@.len() ==> final(self).index == old(self).index
                + 1 && (r matches Some(v) && *v == old(self).base@[old(self).index as int]),
            old(self).index >= old(self).base@.len() ==> r is None && final(self).index == old(
                self,
            ).index,
    {
        if self.index >= self.base.len {
            None
        } else {
            let elem = self.base.index(self.index);
            self.index = self.index + 1;
            Some(elem)
        }
    }
}

} // verus!
