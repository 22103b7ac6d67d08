//! The four walks over a binary tree, written once for every kind of node.

use crate::cloning::{clones_of, exact_clone, extended_by_clones, lemma_extended_exact, lemma_extended_twice};
use crate::tree::levels::{
    lemma_queue_order_is_level_order, lemma_queue_step, present, queue_order, row_size,
};
use crate::tree::shape::Shape;
use std::collections::VecDeque;
use vstd::prelude::*;

verus! {

/// A node of a binary tree: it has a key and up to two children of its own kind.
pub trait BinaryNode: Sized {
    type Key;

    /// The shape of the tree below this node, the node included.
    spec fn node_shape(&self) -> Shape<Self::Key>;

    fn key(&self) -> (r: &Self::Key)
        ensures
            self.node_shape() matches Shape::Node { val, .. } && val == *r,
    ;

    fn left_child(&self) -> (r: Option<&Self>)
        ensures
            self.node_shape() matches Shape::Node { left, .. } && match r {
                None => *left == Shape::<Self::Key>::Leaf,
                Some(node) => *left == node.node_shape(),
            },
    ;

    fn right_child(&self) -> (r: Option<&Self>)
        ensures
            self.node_shape() matches Shape::Node { right, .. } && match r {
                None => *right == Shape::<Self::Key>::Leaf,
                Some(node) => *right == node.node_shape(),
            },
    ;
}

/// The shape below a node that may be absent.
pub open spec fn below<N: BinaryNode>(node: Option<&N>) -> Shape<N::Key> {
    match node {
        None => Shape::Leaf,
        Some(n) => n.node_shape(),
    }
}

/// The shapes below a row of nodes.
pub open spec fn row_below<N: BinaryNode>(row: Seq<&N>) -> Seq<Shape<N::Key>> {
    Seq::new(row.len(), |i: int| row[i].node_shape())
}

/// Appends the keys below `node` to `result`: key, left subtree, right subtree.
pub fn pre_order_into<N: BinaryNode>(node: Option<&N>, result: &mut Vec<N::Key>) where
    N::Key: Clone,

    ensures
        extended_by_clones(old(result)@, below(node).pre_order(), final(result)@),
    decreases below(node).size(),
{
    if let Some(node) = node {
        let ghost before = result@;
        let own = node.key();
        let key = own.clone();
        assert(cloned(*own, key));
        result.push(key);
        let ghost first = result@;
        let left = node.left_child();
        let right = node.right_child();
        pre_order_into(left, result);
        let ghost second = result@;
        pre_order_into(right, result);
        proof {
            let val = node.node_shape()->val;
            assert(extended_by_clones(before, seq![val], first));
            lemma_extended_twice(before, seq![val], first, below(left).pre_order(), second);
            lemma_extended_twice(
                before,
                seq![val] + below(left).pre_order(),
                second,
                below(right).pre_order(),
                result@,
            );
        }
    }
}

/// Appends the keys below `node` to `result`: left subtree, key, right subtree.
pub fn in_order_into<N: BinaryNode>(node: Option<&N>, result: &mut Vec<N::Key>) where
    N::Key: Clone,

    ensures
        extended_by_clones(old(result)@, below(node).in_order(), final(result)@),
    decreases below(node).size(),
{
    if let Some(node) = node {
        let ghost before = result@;
        let left = node.left_child();
        let right = node.right_child();
        in_order_into(left, result);
        let ghost first = result@;
        let own = node.key();
        let key = own.clone();
        assert(cloned(*own, key));
        result.push(key);
        let ghost second = result@;
        in_order_into(right, result);
        proof {
            let val = node.node_shape()->val;
            assert(extended_by_clones(first, seq![val], second));
            lemma_extended_twice(before, below(left).in_order(), first, seq![val], second);
            lemma_extended_twice(
                before,
                below(left).in_order() + seq![val],
                second,
                below(right).in_order(),
                result@,
            );
            assert(below(left).in_order() + seq![val] =~= below(left).in_order().push(val));
        }
    }
}

/// Appends the keys below `node` to `result`: left subtree, right subtree, key.
pub fn post_order_into<N: BinaryNode>(node: Option<&N>, result: &mut Vec<N::Key>) where
    N::Key: Clone,

    ensures
        extended_by_clones(old(result)@, below(node).post_order(), final(result)@),
    decreases below(node).size(),
{
    if let Some(node) = node {
        let ghost before = result@;
        let left = node.left_child();
        let right = node.right_child();
        post_order_into(left, result);
        let ghost first = result@;
        post_order_into(right, result);
        let ghost second = result@;
        let own = node.key();
        let key = own.clone();
        assert(cloned(*own, key));
        result.push(key);
        proof {
            let val = node.node_shape()->val;
            let both = below(left).post_order() + below(right).post_order();
            assert(extended_by_clones(second, seq![val], result@));
            lemma_extended_twice(
                before,
                below(left).post_order(),
                first,
                below(right).post_order(),
                second,
            );
            lemma_extended_twice(before, both, second, seq![val], result@);
            assert(both + seq![val] =~= both.push(val));
        }
    }
}

/// The keys below `root` by depth, and from left to right within one depth, cloned.
pub fn level_order_of<N: BinaryNode>(root: Option<&N>) -> (result: Vec<N::Key>) where
    N::Key: Clone,

    ensures
        clones_of(below(root).level_order(), result@),
        exact_clone::<N::Key>() ==> result@ == below(root).level_order(),
{
    let mut result = Vec::new();
    let ghost mut done: Seq<N::Key> = Seq::empty();
    let mut que: VecDeque<&N> = VecDeque::new();
    if let Some(node) = root {
        que.push_back(node);
        assert(row_below(que@) =~= seq![below(root)]);
    } else {
        assert(row_below(que@) =~= Seq::<Shape<N::Key>>::empty());
        assert(queue_order(seq![below(root)]) =~= Seq::<N::Key>::empty()) by {
            reveal_with_fuel(queue_order, 2);
            assert(seq![below(root)].drop_first() =~= Seq::<Shape<N::Key>>::empty());
        }
    }
    loop
        invariant
            extended_by_clones(Seq::empty(), done, result@),
            done + queue_order(row_below(que@)) == queue_order(seq![below(root)]),
        ensures
            done == queue_order(seq![below(root)]),
        decreases row_size(row_below(que@)),
    {
        let ghost before = row_below(que@);
        match que.pop_front() {
            None => {
                assert(before =~= Seq::<Shape<N::Key>>::empty());
                assert(done + Seq::<N::Key>::empty() =~= done);
                break ;
            },
            Some(node) => {
                let own = node.key();
                let key = own.clone();
                assert(cloned(*own, key));
                result.push(key);
                let left = node.left_child();
                let right = node.right_child();
                if let Some(child) = left {
                    let _ = child.key();
                    que.push_back(child);
                }
                if let Some(child) = right {
                    let _ = child.key();
                    que.push_back(child);
                }
                proof {
                    let val = node.node_shape()->val;
                    lemma_queue_step(before);
                    assert(row_below(que@) =~= before.drop_first() + present(below(left))
                        + present(below(right)));
                    assert(done.push(val) + queue_order(row_below(que@)) =~= done + queue_order(
                        before,
                    ));
                    done = done.push(val);
                }
            },
        }
    }
    proof {
        lemma_queue_order_is_level_order(seq![below(root)]);
        lemma_extended_exact(Seq::empty(), done, result@);
    }
    result
}

} // verus!
