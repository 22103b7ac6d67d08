//! A double-ended queue kept in a linked chain.

use crate::chain::{
    chain_seq, first, is_empty, last, pop_back, pop_front, push_back, push_front, to_vec, Node,
};
use crate::cloning::{clones_of, exact_clone};
use vstd::prelude::*;

verus! {

pub struct LinkDeque<T> {
    front: Option<Box<Node<T>>>,
}

impl<T> View for LinkDeque<T> {
    type V = Seq<T>;

    /// The elements from front to rear.
    closed spec fn view(&self) -> Seq<T> {
        chain_seq(self.front)
    }
}

impl<T: Clone> LinkDeque<T> {
    pub fn new() -> (deque: Self)
        ensures
            deque@ == Seq::<T>::empty(),
    {
        LinkDeque { front: None }
    }

    pub fn push_front(&mut self, val: T)
        ensures
            final(self)@ == seq![val] + old(self)@,
    {
        push_front(&mut self.front, val);
    }

    pub fn push_rear(&mut self, val: T)
        ensures
            final(self)@ == old(self)@.push(val),
    {
        push_back(&mut self.front, val);
    }

    pub fn pop_front(&mut self) -> (result: Option<T>)
        ensures
            match result {
                None => old(self)@.len() == 0 && final(self)@ == old(self)@,
                Some(val) => {
                    &&& old(self)@.len() > 0
                    &&& val == old(self)@[0]
                    &&& final(self)@ == old(self)@.drop_first()
                },
            },
    {
        pop_front(&mut self.front)
    }

    pub fn pop_rear(&mut self) -> (result: Option<T>)
        ensures
            match result {
                None => old(self)@.len() == 0 && final(self)@ == old(self)@,
                Some(val) => {
                    &&& old(self)@.len() > 0
                    &&& val == old(self)@.last()
                    &&& final(self)@ == old(self)@.drop_last()
                },
            },
    {
        pop_back(&mut self.front)
    }

    pub fn peek_front(&self) -> (result: Option<&T>)
        ensures
            match result {
                None => self@.len() == 0,
                Some(val) => self@.len() > 0 && *val == self@[0],
            },
    {
        first(&self.front)
    }

    pub fn peek_rear(&self) -> (result: Option<&T>)
        ensures
            match result {
                None => self@.len() == 0,
                Some(val) => self@.len() > 0 && *val == self@.last(),
            },
    {
        last(&self.front)
    }

    pub fn is_empty(&self) -> (result: bool)
        ensures
            result == (self@.len() == 0),
    {
        is_empty(&self.front)
    }

    /// The elements from front to rear, cloned.
    pub fn to_vec(&self) -> (result: Vec<T>)
        ensures
            clones_of(self@, result@),
            exact_clone::<T>() ==> result@ == self@,
    {
        to_vec(&self.front)
    }
}

} // verus!
