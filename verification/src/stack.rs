//! Fixed-capacity stack.
//!
//! Elements are pushed into the lowest vacant slot of the backing array and
//! popped from the highest occupied one, so the top of the stack is the back
//! of the backing array.

use vstd::prelude::*;

verus! {

/// A stack that can hold at most `capacity()` elements.
pub struct Stack<T> {
    pub arr: Vec<Option<T>>,
    pub len: usize,
}

impl<T> View for Stack<T> {
    type V = Seq<T>;

    /// The live elements, bottom of the stack first.
    open spec fn view(&self) -> Seq<T> {
        Seq::new(self.len as nat, |i: int| self.arr@[i]->0)
    }
}

impl<T> Stack<T> {
    /// Number of slots in the backing array; fixed at construction.
    pub open spec fn capacity(&self) -> int {
        self.arr@.len() as int
    }

    /// Slots below `len` are occupied, the rest are vacant.
    pub open spec fn wf(&self) -> bool {
        &&& self.len <= self.arr@.len()
        &&& forall|i: int| 0 <= i < self.len ==> (#[trigger] self.arr@[i]) is Some
        &&& forall|i: int|
            self.len <= i < self.arr@.len() ==> (#[trigger] self.arr@[i]) is None
    }

    pub fn new(capacity: usize) -> (r: Stack<T>)
        ensures
            r.wf(),
            r.capacity() == capacity,
            r@ == Seq::<T>::empty(),
            r.len == 0,
            forall|i: int| 0 <= i < capacity ==> (#[trigger] r.arr@[i]) is None,
    {
        let mut arr: Vec<Option<T>> = Vec::new();
        let mut i: usize = 0;
        while i < capacity
            invariant
                arr@.len() == i,
                i <= capacity,
                forall|j: int| 0 <= j < i ==> (#[trigger] arr@[j]) is None,
            decreases capacity - i,
        {
            arr.push(None);
            i = i + 1;
        }
        let s = Stack { arr, len: 0 };
        proof {
            assert(s@ =~= Seq::<T>::empty());
        }
        s
    }

    pub fn len(&self) -> (r: usize)
        ensures
            r == self.len,
            r == self@.len(),
    {
        self.len
    }

    /// Push a value to the front of the stack (the back of the backing array).
    pub fn push(&mut self, elem: T)
        requires
            old(self).wf(),
            old(self).len < old(self).capacity(),
        ensures
            final(self).wf(),
            final(self).capacity() == old(self).capacity(),
            final(self)@ == old(self)@.push(elem),
    {
        let n = self.arr.len();
        self.arr.set(self.len, Some(elem));
        self.len = self.len + 1;
        proof {
            assert(self@ =~= old(self)@.push(elem));
        }
    }

    /// Pop a value from the front of the stack (the back of the backing array).
    pub fn pop(&mut self) -> (r: Option<T>)
        requires
            old(self).wf(),
        ensures
            final(self).wf(),
            final(self).capacity() == old(self).capacity(),
            old(self)@.len() == 0 ==> r is None && *final(self) == *old(self),
            old(self)@.len() > 0 ==> r == Some(old(self)@.last()) && final(self)@
                == old(self)@.drop_last(),
    {
        if self.len == 0 {
            None
        } else {
            self.len = self.len - 1;
            let r = self.arr[self.len].take();
            proof {
                assert(self@ =~= old(self)@.drop_last());
            }
            r
        }
    }

    /// Clear the backing array entirely, destroying all elements.
    pub fn clear(&mut self)
        ensures
            final(self).wf(),
            final(self).capacity() == old(self).capacity(),
            final(self)@ == Seq::<T>::empty(),
            forall|i: int|
                0 <= i < final(self).capacity() ==> (#[trigger] final(self).arr@[i]) is None,
    {
        let n = self.arr.len();
        let mut i: usize = 0;
        while i < n
            invariant
                n == self.arr@.len(),
                i <= n,
                forall|j: int| 0 <= j < i ==> (#[trigger] self.arr@[j]) is None,
            decreases n - i,
        {
            self.arr.set(i, None);
            i = i + 1;
        }
        self.len = 0;
        proof {
            assert(self@ =~= Seq::<T>::empty());
        }
    }

    /// The element at depth `index`, counted from the top of the stack.
    pub fn index(&self, index: usize) -> (r: &T)
        requires
            self.wf(),
            index < self.len,
        ensures
            *r == self@[self@.len() - 1 - index],
    {
        match &self.arr[self.len - index - 1] {
            Some(v) => v,
            None => unreached(),
        }
    }

    /// Mutably borrow the element at depth `index`, counted from the top
    /// of the stack.
    pub fn index_mut(&mut self, index: usize) -> (r: &mut T)
        requires
            old(self).wf(),
            index < old(self).len,
        ensures
            *r == old(self)@[old(self)@.len() - 1 - index],
            final(self).len == old(self).len,
            final(self).arr@ =~= old(self).arr@.update(
                old(self).len - index - 1,
                Some(*final(r)),
            ),
            final(self).wf(),
            final(self)@ =~= old(self)@.update(old(self)@.len() - 1 - index, *final(r)),
    {
        match &mut self.arr[self.len - index - 1] {
            Some(v) => v,
            None => unreached(),
        }
    }

    pub fn iter(&self) -> (r: StackIter<'_, T>)
        ensures
            r.base == self,
            r.index == 0,
    {
        StackIter { base: self, index: 0 }
    }
}

/// Walks a stack from its top towards its bottom.
pub struct StackIter<'a, T> {
    pub base: &'a Stack<T>,
    pub index: usize,
}

impl<'a, T> StackIter<'a, T> {
    pub fn next(&mut self) -> (r: Option<&'a T>)
        requires
            old(self).base.wf(),
        ensures
            final(self).base == old(self).base,
            old(self).index < old(self).base@.len() ==> final(self).index == old(self).index
                + 1 && (r matches Some(v) && *v == old(self).base@[old(self).base@.len() - 1
                - old(self).index]),
            old(self).index >= old(self).base@.len() ==> r is None && final(self).index == old(
                self,
            ).index,
    {
        if self.index >= self.base.len {
            None
        } else {
            let elem = self.base.index(self.index);
            self.index = self.index + 1;
            Some(elem)
        }
    }
}

} // verus!
