//! A stack kept in a linked chain.

use crate::chain::{chain_seq, first, pop_front, push_front, to_vec, Node};
use crate::cloning::{clones_of, exact_clone};
use vstd::prelude::*;

verus! {

pub struct LinkStack<T> {
    top: Option<Box<Node<T>>>,
    size: usize,
}

impl<T> View for LinkStack<T> {
    type V = Seq<T>;

    /// The elements from the top to the bottom.
    closed spec fn view(&self) -> Seq<T> {
        chain_seq(self.top)
    }
}

impl<T> LinkStack<T> {
    /// The stored size is the number of elements.
    pub closed spec fn wf(&self) -> bool {
        self.size == chain_seq(self.top).len()
    }
}

impl<T: Clone> LinkStack<T> {
    pub fn new() -> (stack: Self)
        ensures
            stack.wf(),
            stack@ == Seq::<T>::empty(),
    {
        LinkStack { top: None, size: 0 }
    }

    pub fn push(&mut self, val: T)
        requires
            old(self).wf(),
            old(self)@.len() < usize::MAX,
        ensures
            final(self).wf(),
            final(self)@ == seq![val] + old(self)@,
    {
        push_front(&mut self.top, val);
        self.size += 1;
    }

    pub fn pop(&mut self) -> (result: Option<T>)
        requires
            old(self).wf(),
        ensures
            final(self).wf(),
            match result {
                None => old(self)@.len() == 0 && final(self)@ == old(self)@,
                Some(val) => {
                    &&& old(self)@.len() > 0
                    &&& val == old(self)@[0]
                    &&& final(self)@ == old(self)@.drop_first()
                },
            },
    {
        let result = pop_front(&mut self.top);
        if result.is_some() {
            self.size -= 1;
        }
        result
    }

    pub fn peek(&self) -> (result: Option<&T>)
        ensures
            match result {
                None => self@.len() == 0,
                Some(val) => self@.len() > 0 && *val == self@[0],
            },
    {
        first(&self.top)
    }

    pub fn is_empty(&self) -> (result: bool)
        requires
            self.wf(),
        ensures
            result == (self@.len() == 0),
    {
        self.size == 0
    }

    pub fn size(&self) -> (result: usize)
        requires
            self.wf(),
        ensures
            result == self@.len(),
    {
        self.size
    }

    /// The elements from the top to the bottom, cloned.
    pub fn to_vec(&self) -> (result: Vec<T>)
        ensures
            clones_of(self@, result@),
            exact_clone::<T>() ==> result@ == self@,
    {
        to_vec(&self.top)
    }
}

} // verus!
