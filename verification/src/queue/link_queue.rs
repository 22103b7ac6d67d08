//! A first-in-first-out queue kept in a linked chain.

use crate::chain::{chain_seq, first, pop_front, push_back, to_vec, Node};
use crate::cloning::{clones_of, exact_clone};
use vstd::prelude::*;

verus! {

pub struct LinkQueue<T> {
    front: Option<Box<Node<T>>>,
    size: usize,
}

impl<T> View for LinkQueue<T> {
    type V = Seq<T>;

    /// The elements from the oldest to the newest.
    closed spec fn view(&self) -> Seq<T> {
        chain_seq(self.front)
    }
}

impl<T> LinkQueue<T> {
    /// The stored size is the number of elements.
    pub closed spec fn wf(&self) -> bool {
        self.size == chain_seq(self.front).len()
    }
}

impl<T: Clone> LinkQueue<T> {
    pub fn new() -> (queue: Self)
        ensures
            queue.wf(),
            queue@ == Seq::<T>::empty(),
    {
        LinkQueue { front: None, size: 0 }
    }

    pub fn push(&mut self, val: T)
        requires
            old(self).wf(),
            old(self)@.len() < usize::MAX,
        ensures
            final(self).wf(),
            final(self)@ == old(self)@.push(val),
    {
        push_back(&mut self.front, val);
        self.size += 1;
    }

    pub fn pop(&mut self) -> (result: Option<T>)
        requires
            old(self).wf(),
        ensures
            final(self).wf(),
            match result {
                None => old(self)@.len() == 0 && final(self)@ == old(self)@,
                Some(val) => {
                    &&& old(self)@.len() > 0
                    &&& val == old(self)@[0]
                    &&& final(self)@ == old(self)@.drop_first()
                },
            },
    {
        let result = pop_front(&mut self.front);
        if result.is_some() {
            self.size -= 1;
        }
        result
    }

    pub fn peek(&self) -> (result: Option<&T>)
        ensures
            match result {
                None => self@.len() == 0,
                Some(val) => self@.len() > 0 && *val == self@[0],
            },
    {
        first(&self.front)
    }

    pub fn is_empty(&self) -> (result: bool)
        requires
            self.wf(),
        ensures
            result == (self@.len() == 0),
    {
        self.size == 0
    }

    pub fn size(&self) -> (result: usize)
        requires
            self.wf(),
        ensures
            result == self@.len(),
    {
        self.size
    }

    /// The elements from the oldest to the newest, cloned.
    pub fn to_vec(&self) -> (result: Vec<T>)
        ensures
            clones_of(self@, result@),
            exact_clone::<T>() ==> result@ == self@,
    {
        to_vec(&self.front)
    }
}

} // verus!
