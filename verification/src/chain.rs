//! A singly linked chain of nodes, each owned by the one before it: what the linked stack,
//! queues and deque of this crate are made of.

use crate::cloning::{clones_of, exact_clone, lemma_exact_clones};
use vstd::prelude::*;

verus! {

pub struct Node<T> {
    val: T,
    next: Option<Box<Node<T>>>,
}

/// The values along the chain, from the node that the link holds to the last one.
pub open spec fn chain_seq<T>(link: Option<Box<Node<T>>>) -> Seq<T> {
    match link {
        None => Seq::empty(),
        Some(node) => node.seq(),
    }
}

impl<T> Node<T> {
    /// The value of this node, then those of the nodes behind it.
    pub closed spec fn seq(&self) -> Seq<T>
        decreases self,
    {
        seq![self.val] + match self.next {
            None => Seq::empty(),
            Some(node) => node.seq(),
        }
    }

    pub fn new(val: T) -> (node: Box<Self>)
        ensures
            node.seq() == seq![val],
    {
        let node = Box::new(Node { val, next: None });
        assert(node.seq() =~= seq![val]);
        node
    }
}

/// The chain of a node is its value, then the chain behind it.
proof fn lemma_node_seq<T>(node: Node<T>)
    ensures
        node.seq() == seq![node.val] + chain_seq(node.next),
        node.seq().len() == 1 + chain_seq(node.next).len(),
        node.seq()[0] == node.val,
        node.seq().drop_first() == chain_seq(node.next),
{
    assert(node.seq().drop_first() =~= chain_seq(node.next));
}

/// Puts a node with `val` before the chain.
pub fn push_front<T>(link: &mut Option<Box<Node<T>>>, val: T)
    ensures
        chain_seq(*final(link)) == seq![val] + chain_seq(*old(link)),
{
    let mut node = Node::new(val);
    node.next = link.take();
    proof {
        lemma_node_seq(*node);
    }
    *link = Some(node);
}

/// Puts a node with `val` behind the last node of the chain.
pub fn push_back<T>(link: &mut Option<Box<Node<T>>>, val: T)
    ensures
        chain_seq(*final(link)) == chain_seq(*old(link)).push(val),
    decreases *old(link),
{
    match link.take() {
        None => {
            *link = Some(Node::new(val));
            assert(chain_seq(*link) =~= Seq::<T>::empty().push(val));
        },
        Some(mut node) => {
            proof {
                lemma_node_seq(*node);
            }
            push_back(&mut node.next, val);
            proof {
                lemma_node_seq(*node);
                assert(node.seq() =~= chain_seq(*old(link)).push(val));
            }
            *link = Some(node);
        },
    }
}

/// Takes the first node off the chain and hands its value back.
pub fn pop_front<T>(link: &mut Option<Box<Node<T>>>) -> (result: Option<T>)
    ensures
        match result {
            None => chain_seq(*old(link)).len() == 0 && chain_seq(*final(link)) == chain_seq(
                *old(link),
            ),
            Some(val) => {
                &&& chain_seq(*old(link)).len() > 0
                &&& val == chain_seq(*old(link))[0]
                &&& chain_seq(*final(link)) == chain_seq(*old(link)).drop_first()
            },
        },
{
    match link.take() {
        None => {
            *link = None;
            None
        },
        Some(node) => {
            proof {
                lemma_node_seq(*node);
            }
            let node = *node;
            *link = node.next;
            Some(node.val)
        },
    }
}

/// Takes the last node off the chain and hands its value back.
pub fn pop_back<T>(link: &mut Option<Box<Node<T>>>) -> (result: Option<T>)
    ensures
        match result {
            None => chain_seq(*old(link)).len() == 0 && chain_seq(*final(link)) == chain_seq(
                *old(link),
            ),
            Some(val) => {
                &&& chain_seq(*old(link)).len() > 0
                &&& val == chain_seq(*old(link)).last()
                &&& chain_seq(*final(link)) == chain_seq(*old(link)).drop_last()
            },
        },
    decreases *old(link),
{
    match link.take() {
        None => {
            *link = None;
            None
        },
        Some(mut node) => {
            proof {
                lemma_node_seq(*node);
            }
            if node.next.is_none() {
                let node = *node;
                *link = None;
                assert(chain_seq(*link) =~= chain_seq(*old(link)).drop_last());
                Some(node.val)
            } else {
                let ghost rest = chain_seq(node.next);
                proof {
                    lemma_node_seq(*node.next.unwrap());
                }
                let result = pop_back(&mut node.next);
                proof {
                    lemma_node_seq(*node);
                    assert(node.seq() =~= chain_seq(*old(link)).drop_last());
                    assert(chain_seq(*old(link)).last() == rest.last());
                }
                *link = Some(node);
                result
            }
        },
    }
}

/// Whether the chain has no node.
pub fn is_empty<T>(link: &Option<Box<Node<T>>>) -> (result: bool)
    ensures
        result == (chain_seq(*link).len() == 0),
{
    match link {
        None => true,
        Some(node) => {
            proof {
                lemma_node_seq(**node);
            }
            false
        },
    }
}

/// The value of the first node.
pub fn first<T>(link: &Option<Box<Node<T>>>) -> (result: Option<&T>)
    ensures
        match result {
            None => chain_seq(*link).len() == 0,
            Some(val) => chain_seq(*link).len() > 0 && *val == chain_seq(*link)[0],
        },
{
    match link {
        None => None,
        Some(node) => {
            proof {
                lemma_node_seq(**node);
            }
            Some(&node.val)
        },
    }
}

/// The value of the last node.
pub fn last<T>(link: &Option<Box<Node<T>>>) -> (result: Option<&T>)
    ensures
        match result {
            None => chain_seq(*link).len() == 0,
            Some(val) => chain_seq(*link).len() > 0 && *val == chain_seq(*link).last(),
        },
    decreases *link,
{
    match link {
        None => None,
        Some(node) => {
            proof {
                lemma_node_seq(**node);
            }
            if node.next.is_none() {
                Some(&node.val)
            } else {
                proof {
                    lemma_node_seq(*node.next.unwrap());
                }
                last(&node.next)
            }
        },
    }
}

/// The values along the chain, cloned.
pub fn to_vec<T: Clone>(link: &Option<Box<Node<T>>>) -> (result: Vec<T>)
    ensures
        clones_of(chain_seq(*link), result@),
        exact_clone::<T>() ==> result@ == chain_seq(*link),
    decreases *link,
{
    match link {
        None => Vec::new(),
        Some(node) => {
            let mut rest = to_vec(&node.next);
            let item = node.val.clone();
            assert(cloned(node.val, item));
            let ghost tail = rest@;
            rest.insert(0, item);
            proof {
                lemma_node_seq(**node);
                assert forall|i: int| 0 <= i < node.seq().len() implies cloned(
                    #[trigger] node.seq()[i],
                    rest@[i],
                ) by {
                    if i > 0 {
                        assert(node.seq()[i] == chain_seq(node.next)[i - 1]);
                        assert(rest@[i] == tail[i - 1]);
                    }
                }
                if exact_clone::<T>() {
                    lemma_exact_clones(chain_seq(*link), rest@);
                }
            }
            rest
        },
    }
}

} // verus!
