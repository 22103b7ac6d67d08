//! What putting a key into a search tree, or taking one out, does to the tree around the
//! place of the change.

use crate::order::{lemma_lt_irreflexive, lemma_lt_transitive, lemma_lt_trichotomy, lt, total_order};
use crate::tree::shape::{inserted, removed, Shape};
use vstd::prelude::*;

verus! {

/// A tree of one key is what inserting the key into the empty tree gives.
pub proof fn lemma_inserted_leaf<T: Ord>(val: T)
    ensures
        Shape::single(val).ordered(),
        inserted(Shape::Leaf, Shape::single(val), val),
{
    let leaf = Shape::<T>::Leaf;
    Shape::lemma_keys_join(leaf, val, leaf);
    assert(leaf.in_order() =~= Seq::<T>::empty());
    assert(Shape::single(val).in_order() =~= seq![val]);
    assert(leaf.height() == -1);
    assert(leaf.size() == 0);
    assert(Shape::single(val).size() == 1);
    assert(Shape::single(val).height() == 0);
}

/// What inserting `val` below a node of a search tree means for the node: where the key
/// belongs on one side and that side takes it in, the node has taken it in.
pub proof fn lemma_inserted_below<T: Ord>(
    left: Shape<T>,
    key: T,
    right: Shape<T>,
    left2: Shape<T>,
    right2: Shape<T>,
    val: T,
)
    requires
        total_order::<T>(),
        Shape::join(left, key, right).ordered(),
        left2.ordered(),
        right2.ordered(),
        (lt(val, key) && inserted(left, left2, val) && right2 == right) || (lt(key, val)
            && inserted(right, right2, val) && left2 == left),
    ensures
        Shape::join(left2, key, right2).ordered(),
        inserted(Shape::join(left, key, right), Shape::join(left2, key, right2), val),
{
    let pre = Shape::join(left, key, right);
    let post = Shape::join(left2, key, right2);
    Shape::lemma_ordered_join(left, key, right);
    Shape::lemma_contains_join(left, key, right, val);
    Shape::lemma_keys_join(left, key, right);
    Shape::lemma_keys_join(left2, key, right2);
    lemma_lt_trichotomy(key, val);
    if lt(key, val) {
        assert forall|i: int| 0 <= i < right2.in_order().len() implies lt(
            key,
            #[trigger] right2.in_order()[i],
        ) by {
            let x = right2.in_order()[i];
            assert(right2.keys().contains(x));
            if x != val {
                assert(right.in_order().contains(x));
            }
        }
        if left.contains(val) {
            assert(lt(val, key));
        }
    } else {
        assert forall|i: int| 0 <= i < left2.in_order().len() implies lt(
            #[trigger] left2.in_order()[i],
            key,
        ) by {
            let x = left2.in_order()[i];
            assert(left2.keys().contains(x));
            if x != val {
                assert(left.in_order().contains(x));
            }
        }
        if right.contains(val) {
            assert(lt(key, val));
        }
    }
    Shape::lemma_ordered_join(left2, key, right2);
    assert(post.keys() =~= pre.keys().insert(val));
    assert(post.size() == left2.size() + 1 + right2.size());
    assert(pre.size() == left.size() + 1 + right.size());
}

/// What removing `val` below a node of a search tree means for the node.
pub proof fn lemma_removed_below<T: Ord>(
    left: Shape<T>,
    key: T,
    right: Shape<T>,
    left2: Shape<T>,
    right2: Shape<T>,
    val: T,
)
    requires
        total_order::<T>(),
        Shape::join(left, key, right).ordered(),
        left2.ordered(),
        right2.ordered(),
        (lt(val, key) && removed(left, left2, val) && right2 == right) || (lt(key, val)
            && removed(right, right2, val) && left2 == left),
    ensures
        Shape::join(left2, key, right2).ordered(),
        removed(Shape::join(left, key, right), Shape::join(left2, key, right2), val),
{
    let pre = Shape::join(left, key, right);
    let post = Shape::join(left2, key, right2);
    Shape::lemma_ordered_join(left, key, right);
    Shape::lemma_contains_join(left, key, right, val);
    Shape::lemma_keys_join(left, key, right);
    Shape::lemma_keys_join(left2, key, right2);
    lemma_lt_trichotomy(key, val);
    if lt(key, val) {
        assert forall|i: int| 0 <= i < right2.in_order().len() implies lt(
            key,
            #[trigger] right2.in_order()[i],
        ) by {
            let x = right2.in_order()[i];
            assert(right2.keys().contains(x));
            assert(right.in_order().contains(x));
        }
        if left.contains(val) {
            assert(lt(val, key));
        }
    } else {
        assert forall|i: int| 0 <= i < left2.in_order().len() implies lt(
            #[trigger] left2.in_order()[i],
            key,
        ) by {
            let x = left2.in_order()[i];
            assert(left2.keys().contains(x));
            assert(left.in_order().contains(x));
        }
        if right.contains(val) {
            assert(lt(key, val));
        }
    }
    Shape::lemma_ordered_join(left2, key, right2);
    assert(post.keys() =~= pre.keys().remove(val));
    assert(post.size() == left2.size() + 1 + right2.size());
    assert(pre.size() == left.size() + 1 + right.size());
}

/// Removing the key of a node that has at most one child leaves that child, or nothing.
pub proof fn lemma_removed_simple<T: Ord>(left: Shape<T>, key: T, right: Shape<T>)
    requires
        total_order::<T>(),
        Shape::join(left, key, right).ordered(),
        left is Leaf || right is Leaf,
    ensures
        left is Leaf ==> right.ordered() && removed(Shape::join(left, key, right), right, key),
        right is Leaf ==> left.ordered() && removed(Shape::join(left, key, right), left, key),
{
    let pre = Shape::join(left, key, right);
    Shape::lemma_ordered_join(left, key, right);
    Shape::lemma_contains_join(left, key, right, key);
    Shape::lemma_keys_join(left, key, right);
    lemma_lt_irreflexive(key);
    left.lemma_height_bounds();
    right.lemma_height_bounds();
    assert(pre.size() == left.size() + 1 + right.size());
    if left is Leaf {
        assert(left.keys() =~= Set::<T>::empty());
        assert(right.keys() =~= pre.keys().remove(key));
        assert(left.height() == -1 && left.size() == 0);
    }
    if right is Leaf {
        assert(right.keys() =~= Set::<T>::empty());
        assert(left.keys() =~= pre.keys().remove(key));
        assert(right.height() == -1 && right.size() == 0);
    }
}

/// Removing the key of a node with two children: the smallest key of the right subtree takes
/// its place, and leaves the right subtree.
pub proof fn lemma_removed_promoted<T: Ord>(
    left: Shape<T>,
    key: T,
    right: Shape<T>,
    right2: Shape<T>,
    successor: T,
)
    requires
        total_order::<T>(),
        Shape::join(left, key, right).ordered(),
        right.in_order().len() > 0,
        successor == right.in_order()[0],
        right2.ordered(),
        removed(right, right2, successor),
    ensures
        Shape::join(left, successor, right2).ordered(),
        removed(Shape::join(left, key, right), Shape::join(left, successor, right2), key),
{
    let pre = Shape::join(left, key, right);
    let post = Shape::join(left, successor, right2);
    let m = successor;
    Shape::lemma_ordered_join(left, key, right);
    Shape::lemma_contains_join(left, key, right, key);
    Shape::lemma_keys_join(left, key, right);
    Shape::lemma_keys_join(left, m, right2);
    lemma_lt_irreflexive(key);
    assert(right.contains(m));
    assert forall|i: int| 0 <= i < left.in_order().len() implies lt(
        #[trigger] left.in_order()[i],
        m,
    ) by {
        lemma_lt_transitive(left.in_order()[i], key, m);
    }
    assert forall|i: int| 0 <= i < right2.in_order().len() implies lt(
        m,
        #[trigger] right2.in_order()[i],
    ) by {
        let x = right2.in_order()[i];
        assert(right2.keys().contains(x));
        assert(right.in_order().contains(x));
        let j = choose|j: int| 0 <= j < right.in_order().len() && right.in_order()[j] == x;
        assert(j != 0);
    }
    Shape::lemma_ordered_join(left, m, right2);
    assert(post.keys() =~= pre.keys().remove(key));
    assert(post.size() == left.size() + 1 + right2.size());
    assert(pre.size() == left.size() + 1 + right.size());
}

} // verus!
