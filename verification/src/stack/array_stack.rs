//! A stack of fixed capacity, kept in an array.

use crate::cloning::{clones_of, exact_clone, lemma_exact_clones};
use vstd::prelude::*;

verus! {

pub struct ArrayStack<T> {
    array: Vec<T>,
    top: usize,
    capacity: usize,
}

impl<T> View for ArrayStack<T> {
    type V = Seq<T>;

    /// The elements from the bottom to the top.
    closed spec fn view(&self) -> Seq<T> {
        self.array@.take(self.top as int)
    }
}

impl<T> ArrayStack<T> {
    /// The array has as many slots as the capacity says, and the top lies within it.
    pub closed spec fn wf(&self) -> bool {
        &&& self.array@.len() == self.capacity
        &&& self.top <= self.capacity
    }

    /// The number of elements that the stack can hold.
    pub closed spec fn spec_capacity(&self) -> nat {
        self.capacity as nat
    }

    /// A stack holds no more than its capacity.
    pub proof fn lemma_len_within_capacity(&self)
        requires
            self.wf(),
        ensures
            self@.len() <= self.spec_capacity(),
    {
    }
}

impl<T: Default + Clone> ArrayStack<T> {
    pub fn new(capacity: usize) -> (stack: Self)
        ensures
            stack.wf(),
            stack@ == Seq::<T>::empty(),
            stack.spec_capacity() == capacity,
    {
        let mut array: Vec<T> = Vec::new();
        let mut i: usize = 0;
        while i < capacity
            invariant
                i <= capacity,
                array@.len() == i,
            decreases capacity - i,
        {
            array.push(T::default());
            i += 1;
        }
        let stack = ArrayStack { array, top: 0, capacity };
        assert(stack@ =~= Seq::<T>::empty());
        stack
    }

    /// Puts `val` on top; a full stack stays as it is.
    pub fn push(&mut self, val: T)
        requires
            old(self).wf(),
        ensures
            final(self).wf(),
            final(self).spec_capacity() == old(self).spec_capacity(),
            old(self)@.len() < old(self).spec_capacity() ==> final(self)@ == old(self)@.push(val),
            old(self)@.len() == old(self).spec_capacity() ==> final(self)@ == old(self)@,
    {
        if self.is_full() {
            return ;
        }
        self.array.set(self.top, val);
        self.top += 1;
        assert(self@ =~= old(self)@.push(val));
    }

    /// Takes the top element off; its clone is handed back.
    pub fn pop(&mut self) -> (result: Option<T>)
        requires
            old(self).wf(),
        ensures
            final(self).wf(),
            final(self).spec_capacity() == old(self).spec_capacity(),
            match result {
                None => old(self)@.len() == 0 && final(self)@ == old(self)@,
                Some(val) => {
                    &&& old(self)@.len() > 0
                    &&& cloned(old(self)@.last(), val)
                    &&& final(self)@ == old(self)@.drop_last()
                },
            },
    {
        if self.is_empty() {
            None
        } else {
            self.top -= 1;
            let result = self.array[self.top].clone();
            assert(self@ =~= old(self)@.drop_last());
            Some(result)
        }
    }

    pub fn peek(&self) -> (result: Option<&T>)
        requires
            self.wf(),
        ensures
            match result {
                None => self@.len() == 0,
                Some(val) => self@.len() > 0 && *val == self@.last(),
            },
    {
        if self.is_empty() {
            None
        } else {
            Some(&self.array[self.top - 1])
        }
    }

    pub fn is_empty(&self) -> (result: bool)
        requires
            self.wf(),
        ensures
            result == (self@.len() == 0),
    {
        self.size() == 0
    }

    pub fn is_full(&self) -> (result: bool)
        requires
            self.wf(),
        ensures
            result == (self@.len() == self.spec_capacity()),
    {
        self.size() == self.capacity()
    }

    pub fn size(&self) -> (result: usize)
        requires
            self.wf(),
        ensures
            result == self@.len(),
    {
        self.top
    }

    pub fn capacity(&self) -> (result: usize)
        ensures
            result == self.spec_capacity(),
    {
        self.capacity
    }

    /// The elements from the top to the bottom, cloned.
    pub fn to_vec(&self) -> (result: Vec<T>)
        requires
            self.wf(),
        ensures
            clones_of(self@.reverse(), result@),
            exact_clone::<T>() ==> result@ == self@.reverse(),
    {
        let mut result: Vec<T> = Vec::new();
        let n = self.size();
        let mut i: usize = 0;
        while i < n
            invariant
                self.wf(),
                n == self@.len(),
                i <= n,
                result@.len() == i,
                forall|k: int| 0 <= k < i ==> cloned(#[trigger] self@.reverse()[k], result@[k]),
            decreases n - i,
        {
            let j = n - i - 1;
            let item = self.array[j].clone();
            assert(self@.reverse()[i as int] == self.array@[j as int]);
            result.push(item);
            i += 1;
        }
        proof {
            if exact_clone::<T>() {
                lemma_exact_clones(self@.reverse(), result@);
            }
        }
        result
    }
}

} // verus!
