//! A double-ended queue of fixed capacity, kept in a ring of slots.

use crate::cloning::{clones_of, exact_clone, lemma_exact_clones};
use vstd::prelude::*;

verus! {

pub struct ArrayDeque<T> {
    array: Vec<T>,
    front: usize,
    size: usize,
    capacity: usize,
}

/// The slot that lies `offset` places behind slot `front` in a ring of `capacity` slots.
pub open spec fn ring_slot(front: int, offset: int, capacity: int) -> int {
    if front + offset < capacity {
        front + offset
    } else {
        front + offset - capacity
    }
}

impl<T> View for ArrayDeque<T> {
    type V = Seq<T>;

    /// The elements from front to rear.
    closed spec fn view(&self) -> Seq<T> {
        Seq::new(
            self.size as nat,
            |i: int| self.array@[ring_slot(self.front as int, i, self.capacity as int)],
        )
    }
}

impl<T> ArrayDeque<T> {
    /// The ring has as many slots as the capacity says, and front and size lie within it.
    pub closed spec fn wf(&self) -> bool {
        &&& self.array@.len() == self.capacity
        &&& self.size <= self.capacity
        &&& self.front < self.capacity || (self.capacity == 0 && self.front == 0)
    }

    /// The number of elements that the deque can hold.
    pub closed spec fn spec_capacity(&self) -> nat {
        self.capacity as nat
    }

    /// A deque holds no more than its capacity.
    pub proof fn lemma_len_within_capacity(&self)
        requires
            self.wf(),
        ensures
            self@.len() <= self.spec_capacity(),
    {
    }
}

impl<T: Default + Clone> ArrayDeque<T> {
    pub fn new(capacity: usize) -> (deque: Self)
        ensures
            deque.wf(),
            deque@ == Seq::<T>::empty(),
            deque.spec_capacity() == capacity,
    {
        let mut array: Vec<T> = Vec::new();
        let mut i: usize = 0;
        while i < capacity
            invariant
                i <= capacity,
                array@.len() == i,
            decreases capacity - i,
        {
            array.push(T::default());
            i += 1;
        }
        let deque = ArrayDeque { array, front: 0, size: 0, capacity };
        assert(deque@ =~= Seq::<T>::empty());
        deque
    }

    /// Puts `val` in front; a full deque stays as it is.
    pub fn push_front(&mut self, val: T)
        requires
            old(self).wf(),
        ensures
            final(self).wf(),
            final(self).spec_capacity() == old(self).spec_capacity(),
            old(self)@.len() < old(self).spec_capacity() ==> final(self)@ == seq![val] + old(self)@,
            old(self)@.len() == old(self).spec_capacity() ==> final(self)@ == old(self)@,
    {
        if self.is_full() {
            return ;
        }
        let front = if self.front == 0 {
            self.capacity - 1
        } else {
            self.front - 1
        };
        self.array.set(front, val);
        self.front = front;
        self.size += 1;
        assert(self@ =~= seq![val] + old(self)@);
    }

    /// Puts `val` at the rear; a full deque stays as it is.
    pub fn push_rear(&mut self, val: T)
        requires
            old(self).wf(),
        ensures
            final(self).wf(),
            final(self).spec_capacity() == old(self).spec_capacity(),
            old(self)@.len() < old(self).spec_capacity() ==> final(self)@ == old(self)@.push(val),
            old(self)@.len() == old(self).spec_capacity() ==> final(self)@ == old(self)@,
    {
        if self.is_full() {
            return ;
        }
        let rear = self.slot(self.size);
        self.array.set(rear, val);
        self.size += 1;
        assert(self@ =~= old(self)@.push(val));
    }

    /// Takes the front element out; its clone is handed back.
    pub fn pop_front(&mut self) -> (result: Option<T>)
        requires
            old(self).wf(),
        ensures
            final(self).wf(),
            final(self).spec_capacity() == old(self).spec_capacity(),
            match result {
                None => old(self)@.len() == 0 && final(self)@ == old(self)@,
                Some(val) => {
                    &&& old(self)@.len() > 0
                    &&& cloned(old(self)@[0], val)
                    &&& final(self)@ == old(self)@.drop_first()
                },
            },
    {
        if self.is_empty() {
            None
        } else {
            let result = self.array[self.front].clone();
            self.front = self.slot(1);
            self.size -= 1;
            assert(self@ =~= old(self)@.drop_first());
            Some(result)
        }
    }

    /// Takes the rear element out; its clone is handed back.
    pub fn pop_rear(&mut self) -> (result: Option<T>)
        requires
            old(self).wf(),
        ensures
            final(self).wf(),
            final(self).spec_capacity() == old(self).spec_capacity(),
            match result {
                None => old(self)@.len() == 0 && final(self)@ == old(self)@,
                Some(val) => {
                    &&& old(self)@.len() > 0
                    &&& cloned(old(self)@.last(), val)
                    &&& final(self)@ == old(self)@.drop_last()
                },
            },
    {
        if self.is_empty() {
            None
        } else {
            let rear = self.slot(self.size - 1);
            let result = self.array[rear].clone();
            self.size -= 1;
            assert(self@ =~= old(self)@.drop_last());
            Some(result)
        }
    }

    pub fn peek_front(&self) -> (result: Option<&T>)
        requires
            self.wf(),
        ensures
            match result {
                None => self@.len() == 0,
                Some(val) => self@.len() > 0 && *val == self@[0],
            },
    {
        if self.is_empty() {
            None
        } else {
            Some(&self.array[self.front])
        }
    }

    pub fn peek_rear(&self) -> (result: Option<&T>)
        requires
            self.wf(),
        ensures
            match result {
                None => self@.len() == 0,
                Some(val) => self@.len() > 0 && *val == self@.last(),
            },
    {
        if self.is_empty() {
            None
        } else {
            Some(&self.array[self.slot(self.size - 1)])
        }
    }

    pub fn is_empty(&self) -> (result: bool)
        ensures
            result == (self@.len() == 0),
    {
        self.size == 0
    }

    pub fn is_full(&self) -> (result: bool)
        ensures
            result == (self@.len() == self.spec_capacity()),
    {
        self.size == self.capacity
    }

    pub fn size(&self) -> (result: usize)
        ensures
            result == self@.len(),
    {
        self.size
    }

    pub fn capacity(&self) -> (result: usize)
        ensures
            result == self.spec_capacity(),
    {
        self.capacity
    }

    /// The elements from front to rear, cloned.
    pub fn to_vec(&self) -> (result: Vec<T>)
        requires
            self.wf(),
        ensures
            clones_of(self@, result@),
            exact_clone::<T>() ==> result@ == self@,
    {
        let mut v: Vec<T> = Vec::new();
        let mut i: usize = 0;
        while i < self.size
            invariant
                self.wf(),
                i <= self.size,
                v@.len() == i,
                forall|k: int| 0 <= k < i ==> cloned(#[trigger] self@[k], v@[k]),
            decreases self.size - i,
        {
            let item = self.array[self.slot(i)].clone();
            v.push(item);
            i += 1;
        }
        proof {
            if exact_clone::<T>() {
                lemma_exact_clones(self@, v@);
            }
        }
        v
    }

    /// The slot that lies `offset` places behind the front.
    fn slot(&self, offset: usize) -> (result: usize)
        requires
            self.wf(),
            offset <= self.capacity,
            self.capacity > 0,
        ensures
            result == ring_slot(self.front as int, offset as int, self.capacity as int),
            result < self.capacity,
    {
        if offset < self.capacity - self.front {
            self.front + offset
        } else {
            offset - (self.capacity - self.front)
        }
    }
}

} // verus!
