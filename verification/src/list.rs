//! Fixed-capacity list with positional removal.

use vstd::prelude::*;

verus! {

/// A list that can hold at most `capacity()` elements, kept contiguous at
/// the front of the backing array.
pub struct List<T> {
    pub arr: Vec<Option<T>>,
    pub len: usize,
}

impl<T> View for List<T> {
    type V = Seq<T>;

    /// The live elements in order.
    open spec fn view(&self) -> Seq<T> {
        Seq::new(self.len as nat, |i: int| self.arr@[i]->0)
    }
}

impl<T> List<T> {
    /// Number of slots in the backing array; fixed at construction.
    pub open spec fn capacity(&self) -> int {
        self.arr@.len() as int
    }

    /// Slots below `len` are occupied, the rest are vacant.
    pub open spec fn wf(&self) -> bool {
        &&& self.len <= self.arr@.len()
        &&& forall|i: int| 0 <= i < self.len ==> (#[trigger] self.arr@[i]) is Some
        &&& forall|i: int|
            self.len <= i < self.arr@.len() ==> (#[trigger] self.arr@[i]) is None
    }

    pub fn new(capacity: usize) -> (r: List<T>)
        ensures
            r.wf(),
            r.capacity() == capacity,
            r@ == Seq::<T>::empty(),
            r.len == 0,
            forall|i: int| 0 <= i < capacity ==> (#[trigger] r.arr@[i]) is None,
    {
        let mut arr: Vec<Option<T>> = Vec::new();
        let mut i: usize = 0;
        while i < capacity
            invariant
                arr@.len() == i,
                i <= capacity,
                forall|j: int| 0 <= j < i ==> (#[trigger] arr@[j]) is None,
            decreases capacity - i,
        {
            arr.push(None);
            i = i + 1;
        }
        let l = List { arr, len: 0 };
        proof {
            assert(l@ =~= Seq::<T>::empty());
        }
        l
    }

    pub fn len(&self) -> (r: usize)
        ensures
            r == self.len,
            r == self@.len(),
    {
        self.len
    }

    /// Push a value to the back of the list.
    pub fn push_back(&mut self, elem: T)
        requires
            old(self).wf(),
            old(self).len < old(self).capacity(),
        ensures
            final(self).wf(),
            final(self).capacity() == old(self).capacity(),
            final(self)@ == old(self)@.push(elem),
    {
        let n = self.arr.len();
        self.arr.set(self.len, Some(elem));
        self.len = self.len + 1;
        proof {
            assert(self@ =~= old(self)@.push(elem));
        }
    }

    /// Pop a value from the back of the list.
    pub fn pop_back(&mut self) -> (r: Option<T>)
        requires
            old(self).wf(),
        ensures
            final(self).wf(),
            final(self).capacity() == old(self).capacity(),
            old(self)@.len() == 0 ==> r is None && *final(self) == *old(self),
            old(self)@.len() > 0 ==> r == Some(old(self)@.last()) && final(self)@
                == old(self)@.drop_last(),
    {
        if self.len == 0 {
            None
        } else {
            self.len = self.len - 1;
            let r = self.arr[self.len].take();
            proof {
                assert(self@ =~= old(self)@.drop_last());
            }
            r
        }
    }

    /// Remove the element at position `index`, shifting what follows one
    /// slot to the left.
    pub fn remove(&mut self, index: usize) -> (r: T)
        requires
            old(self).wf(),
            index < old(self).len,
        ensures
            final(self).wf(),
            final(self).capacity() == old(self).capacity(),
            r == old(self)@[index as int],
            final(self)@ == old(self)@.remove(index as int),
    {
        let ghost m = *self;
        let elem = match self.arr[index].take() {
            Some(v) => v,
            None => unreached(),
        };
        self.len = self.len - 1;
        let mut i = index;
        while i < self.len
            invariant
                m.wf(),
                index < m.len,
                self.len == m.len - 1,
                index <= i <= self.len,
                self.arr@.len() == m.arr@.len(),
                forall|x: int| 0 <= x < index ==> (#[trigger] self.arr@[x]) == m.arr@[x],
                forall|x: int| index <= x < i ==> (#[trigger] self.arr@[x]) == m.arr@[x + 1],
                self.arr@[i as int] is None,
                forall|x: int| i < x < m.arr@.len() ==> (#[trigger] self.arr@[x]) == m.arr@[x],
            decreases self.len - i,
        {
            let tmp = self.arr[i + 1].take();
            self.arr.set(i, tmp);
            i = i + 1;
        }
        proof {
            assert(self@ =~= m@.remove(index as int));
        }
        elem
    }

    /// Remove the last element (in position order) that `f` selects,
    /// handing it back; `None` when `f` selects nothing, leaving the list
    /// untouched.
    pub fn remove_by<F: Fn(&T) -> bool>(&mut self, f: F) -> (r: Option<T>)
        requires
            old(self).wf(),
            forall|i: int| 0 <= i < old(self)@.len() ==> call_requires(f, (&old(self)@[i],)),
        ensures
            final(self).wf(),
            final(self).capacity() == old(self).capacity(),
            r is None ==> *final(self) == *old(self) && forall|i: int|
                0 <= i < old(self)@.len() ==> call_ensures(f, (&old(self)@[i],), false),
            r matches Some(e) ==> exists|i: int|
                0 <= i < old(self)@.len() && e == old(self)@[i] && #[trigger] call_ensures(
                    f,
                    (&old(self)@[i],),
                    true,
                ) && final(self)@ == old(self)@.remove(i) && forall|x: int|
                    i < x < old(self)@.len() ==> call_ensures(f, (&old(self)@[x],), false),
    {
        let mut spot: Option<usize> = None;
        let mut i: usize = 0;
        while i < self.len
            invariant
                self.wf(),
                i <= self.len,
                forall|x: int| 0 <= x < self@.len() ==> call_requires(f, (&self@[x],)),
                match spot {
                    None => forall|x: int|
                        0 <= x < i ==> call_ensures(f, (&self@[x],), false),
                    Some(sp) => sp < i && call_ensures(f, (&self@[sp as int],), true) && forall|
                        x: int,
                    | sp < x < i ==> call_ensures(f, (&self@[x],), false),
                },
            decreases self.len - i,
        {
            let elem_ref = match &self.arr[i] {
                Some(v) => v,
                None => unreached(),
            };
            proof {
                assert(*elem_ref == self@[i as int]);
                assert(call_requires(f, (&self@[i as int],)));
            }
            let matched = f(elem_ref);
            if matched {
                spot = Some(i);
            }
            i = i + 1;
        }
        match spot {
            None => None,
            Some(index) => Some(self.remove(index)),
        }
    }

    /// Borrow the element at position `index`.
    pub fn index(&self, index: usize) -> (r: &T)
        requires
            self.wf(),
            index < self.len,
        ensures
            *r == self@[index as int],
    {
        match &self.arr[index] {
            Some(v) => v,
            None => unreached(),
        }
    }

    /// Mutably borrow the element at position `index`.
    pub fn index_mut(&mut self, index: usize) -> (r: &mut T)
        requires
            old(self).wf(),
            index < old(self).len,
        ensures
            *r == old(self)@[index as int],
            final(self).len == old(self).len,
            final(self).arr@ =~= old(self).arr@.update(index as int, Some(*final(r))),
            final(self).wf(),
            final(self)@ =~= old(self)@.update(index as int, *final(r)),
    {
        match &mut self.arr[index] {
            Some(v) => v,
            None => unreached(),
        }
    }

    pub fn iter(&self) -> (r: ListIter<'_, T>)
        ensures
            r.base == self,
            r.index == 0,
    {
        ListIter { base: self, index: 0 }
    }
}

/// Walks a list from front to back.
pub struct ListIter<'a, T> {
    pub base: &'a List<T>,
    pub index: usize,
}

impl<'a, T> ListIter<'a, T> {
    pub fn next(&mut self) -> (r: Option<&'a T>)
        requires
            old(self).base.wf(),
        ensures
            final(self).base == old(self).base,
            old(self).index < old(self).base@.len() ==> final(self).index == old(self).index
                + 1 && (r matches Some(v) && *v == old(self).base@[old(self).index as int]),
            old(self).index >= old(self).base@.len() ==> r is None && final(self).index == old(
                self,
            ).index,
    {
        if self.index >= self.base.len {
            None
        } else {
            let elem = self.base.index(self.index);
            self.index = self.index + 1;
            Some(elem)
        }
    }
}

} // verus!
