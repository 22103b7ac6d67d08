//! A first-in-first-out queue of fixed capacity, kept in a ring of slots.

use crate::array_deque::ring_slot;
use crate::cloning::{clones_of, exact_clone, lemma_exact_clones};
use vstd::prelude::*;

verus! {

pub struct ArrayQueue<T> {
    array: Vec<T>,
    front: usize,
    size: usize,
    capacity: usize,
}

impl<T> View for ArrayQueue<T> {
    type V = Seq<T>;

    /// The elements from the oldest to the newest.
    closed spec fn view(&self) -> Seq<T> {
        Seq::new(
            self.size as nat,
            |i: int| self.array@[ring_slot(self.front as int, i, self.capacity as int)],
        )
    }
}

impl<T> ArrayQueue<T> {
    /// The ring has as many slots as the capacity says, and front and size lie within it.
    pub closed spec fn wf(&self) -> bool {
        &&& self.array@.len() == self.capacity
        &&& self.size <= self.capacity
        &&& self.front < self.capacity || (self.capacity == 0 && self.front == 0)
    }

    /// The number of elements that the queue can hold.
    pub closed spec fn spec_capacity(&self) -> nat {
        self.capacity as nat
    }

    /// A queue holds no more than its capacity.
    pub proof fn lemma_len_within_capacity(&self)
        requires
            self.wf(),
        ensures
            self@.len() <= self.spec_capacity(),
    {
    }
}

impl<T: Default + Clone> ArrayQueue<T> {
    pub fn new(capacity: usize) -> (queue: Self)
        ensures
            queue.wf(),
            queue@ == Seq::<T>::empty(),
            queue.spec_capacity() == capacity,
    {
        let mut array: Vec<T> = Vec::new();
        let mut i: usize = 0;
        while i < capacity
            invariant
                i <= capacity,
                array@.len() == i,
            decreases capacity - i,
        {
            array.push(T::default());
            i += 1;
        }
        let queue = ArrayQueue { array, front: 0, size: 0, capacity };
        assert(queue@ =~= Seq::<T>::empty());
        queue
    }

    /// Puts `val` at the end; a full queue stays as it is.
    pub fn push(&mut self, val: T)
        requires
            old(self).wf(),
        ensures
            final(self).wf(),
            final(self).spec_capacity() == old(self).spec_capacity(),
            old(self)@.len() < old(self).spec_capacity() ==> final(self)@ == old(self)@.push(val),
            old(self)@.len() == old(self).spec_capacity() ==> final(self)@ == old(self)@,
    {
        if self.size == self.capacity {
            return ;
        }
        let rear = self.slot(self.size);
        self.array.set(rear, val);
        self.size += 1;
        assert(self@ =~= old(self)@.push(val));
    }

    /// Takes the oldest element out; its clone is handed back.
    pub fn pop(&mut self) -> (result: Option<T>)
        requires
            old(self).wf(),
        ensures
            final(self).wf(),
            final(self).spec_capacity() == old(self).spec_capacity(),
            match result {
                None => old(self)@.len() == 0 && final(self)@ == old(self)@,
                Some(val) => {
                    &&& old(self)@.len() > 0
                    &&& cloned(old(self)@[0], val)
                    &&& final(self)@ == old(self)@.drop_first()
                },
            },
    {
        if self.is_empty() {
            None
        } else {
            let result = self.array[self.front].clone();
            self.front = self.slot(1);
            self.size -= 1;
            assert(self@ =~= old(self)@.drop_first());
            Some(result)
        }
    }

    pub fn peek(&self) -> (result: Option<&T>)
        requires
            self.wf(),
        ensures
            match result {
                None => self@.len() == 0,
                Some(val) => self@.len() > 0 && *val == self@[0],
            },
    {
        if self.is_empty() {
            None
        } else {
            Some(&self.array[self.front])
        }
    }

    pub fn is_empty(&self) -> (result: bool)
        ensures
            result == (self@.len() == 0),
    {
        self.size == 0
    }

    pub fn size(&self) -> (result: usize)
        ensures
            result == self@.len(),
    {
        self.size
    }

    pub fn capacity(&self) -> (result: usize)
        ensures
            result == self.spec_capacity(),
    {
        self.capacity
    }

    /// The elements from the oldest to the newest, cloned.
    pub fn to_vec(&self) -> (result: Vec<T>)
        requires
            self.wf(),
        ensures
            clones_of(self@, result@),
            exact_clone::<T>() ==> result@ == self@,
    {
        let mut v: Vec<T> = Vec::new();
        let mut i: usize = 0;
        while i < self.size
            invariant
                self.wf(),
                i <= self.size,
                v@.len() == i,
                forall|k: int| 0 <= k < i ==> cloned(#[trigger] self@[k], v@[k]),
            decreases self.size - i,
        {
            let item = self.array[self.slot(i)].clone();
            v.push(item);
            i += 1;
        }
        proof {
            if exact_clone::<T>() {
                lemma_exact_clones(self@, v@);
            }
        }
        v
    }

    /// The slot that lies `offset` places behind the front.
    fn slot(&self, offset: usize) -> (result: usize)
        requires
            self.wf(),
            offset <= self.capacity,
            self.capacity > 0,
        ensures
            result == ring_slot(self.front as int, offset as int, self.capacity as int),
            result < self.capacity,
    {
        if offset < self.capacity - self.front {
            self.front + offset
        } else {
            offset - (self.capacity - self.front)
        }
    }
}

} // verus!
