//! An ordered binary search tree without rebalancing.

use crate::cloning::{clones_of, exact_clone, lemma_exact_clones, lemma_extended_exact};
use crate::order::{compare, lemma_lt_irreflexive, lemma_lt_trichotomy, lt, total_order};
use crate::tree::search_laws::{
    lemma_inserted_below, lemma_inserted_leaf, lemma_removed_below, lemma_removed_promoted,
    lemma_removed_simple,
};
use crate::tree::shape::{
    found, increasing, inserted, lemma_increasing_no_duplicates, removed, Shape,
};
use crate::tree::walk::{in_order_into, level_order_of, post_order_into, pre_order_into, BinaryNode};
use core::cmp::Ordering;
use vstd::prelude::*;

verus! {

pub struct BinarySearchTree<T> {
    root: Option<Box<BinarySearchTreeNode<T>>>,
}

pub struct BinarySearchTreeNode<T> {
    val: T,
    left: Option<Box<BinarySearchTreeNode<T>>>,
    right: Option<Box<BinarySearchTreeNode<T>>>,
}

/// The shape of the tree below a link; an absent child is the empty tree.
pub open spec fn link_shape<T>(link: Option<Box<BinarySearchTreeNode<T>>>) -> Shape<T> {
    match link {
        None => Shape::Leaf,
        Some(node) => node@,
    }
}

/// The shape below a reference to a node, if there is one.
pub open spec fn node_shape<T>(node: Option<&BinarySearchTreeNode<T>>) -> Option<Shape<T>> {
    match node {
        None => None,
        Some(n) => Some(n@),
    }
}

/// The shape below the left child of the link's node.
spec fn left_below<T>(link: Option<Box<BinarySearchTreeNode<T>>>) -> Shape<T> {
    match link {
        None => Shape::Leaf,
        Some(node) => link_shape(node.left),
    }
}

/// The shape below the right child of the link's node.
spec fn right_below<T>(link: Option<Box<BinarySearchTreeNode<T>>>) -> Shape<T> {
    match link {
        None => Shape::Leaf,
        Some(node) => link_shape(node.right),
    }
}

/// `post` is the search tree that `pre` becomes by taking `val` in.
spec fn grown<T: Ord>(pre: Shape<T>, post: Shape<T>, val: T) -> bool {
    &&& post.ordered()
    &&& post == pre.with_key(val)
    &&& inserted(pre, post, val)
}

/// `post` is the search tree that `pre` becomes by giving `val` up.
spec fn shrunk<T: Ord>(pre: Shape<T>, post: Shape<T>, val: T) -> bool {
    &&& post.ordered()
    &&& post == pre.without_key(val)
    &&& removed(pre, post, val)
}

/// The shape of a node is made of its key and the shapes of its children.
proof fn lemma_node_shape<T>(node: BinarySearchTreeNode<T>)
    ensures
        node@ == Shape::join(link_shape(node.left), node.val, link_shape(node.right)),
{
}

/// Whatever a right subtree becomes by taking in a key above the node's, the node has taken
/// the key in.
proof fn lemma_inserted_right<T: Ord>(left: Shape<T>, key: T, right: Shape<T>, val: T)
    requires
        total_order::<T>(),
        Shape::join(left, key, right).ordered(),
        lt(key, val),
    ensures
        forall|right2: Shape<T>| #[trigger]
            grown(right, right2, val) ==> grown(Shape::join(left, key, right), Shape::join(left, key, right2), val),
{
    Shape::lemma_ordered_join(left, key, right);
    lemma_lt_trichotomy(key, val);
    assert forall|right2: Shape<T>| #[trigger] grown(right, right2, val) implies grown(
        Shape::join(left, key, right),
        Shape::join(left, key, right2),
        val,
    ) by {
        lemma_inserted_below(left, key, right, left, right2, val);
    }
}

/// Whatever a left subtree becomes by taking in a key below the node's, the node has taken
/// the key in.
proof fn lemma_inserted_left<T: Ord>(left: Shape<T>, key: T, right: Shape<T>, val: T)
    requires
        total_order::<T>(),
        Shape::join(left, key, right).ordered(),
        lt(val, key),
    ensures
        forall|left2: Shape<T>| #[trigger]
            grown(left, left2, val) ==> grown(Shape::join(left, key, right), Shape::join(left2, key, right), val),
{
    Shape::lemma_ordered_join(left, key, right);
    lemma_lt_trichotomy(key, val);
    assert forall|left2: Shape<T>| #[trigger] grown(left, left2, val) implies grown(
        Shape::join(left, key, right),
        Shape::join(left2, key, right),
        val,
    ) by {
        lemma_inserted_below(left, key, right, left2, right, val);
    }
}

/// Whatever a right subtree becomes by giving up a key above the node's, the node has given
/// the key up.
proof fn lemma_removed_right<T: Ord>(left: Shape<T>, key: T, right: Shape<T>, val: T)
    requires
        total_order::<T>(),
        Shape::join(left, key, right).ordered(),
        lt(key, val),
    ensures
        forall|right2: Shape<T>| #[trigger]
            shrunk(right, right2, val) ==> shrunk(Shape::join(left, key, right), Shape::join(left, key, right2), val),
{
    Shape::lemma_ordered_join(left, key, right);
    lemma_lt_trichotomy(key, val);
    assert forall|right2: Shape<T>| #[trigger] shrunk(right, right2, val) implies shrunk(
        Shape::join(left, key, right),
        Shape::join(left, key, right2),
        val,
    ) by {
        lemma_removed_below(left, key, right, left, right2, val);
    }
}

/// Whatever a left subtree becomes by giving up a key below the node's, the node has given
/// the key up.
proof fn lemma_removed_left<T: Ord>(left: Shape<T>, key: T, right: Shape<T>, val: T)
    requires
        total_order::<T>(),
        Shape::join(left, key, right).ordered(),
        lt(val, key),
    ensures
        forall|left2: Shape<T>| #[trigger]
            shrunk(left, left2, val) ==> shrunk(Shape::join(left, key, right), Shape::join(left2, key, right), val),
{
    Shape::lemma_ordered_join(left, key, right);
    lemma_lt_trichotomy(key, val);
    assert forall|left2: Shape<T>| #[trigger] shrunk(left, left2, val) implies shrunk(
        Shape::join(left, key, right),
        Shape::join(left2, key, right),
        val,
    ) by {
        lemma_removed_below(left, key, right, left2, right, val);
    }
}

/// Removing the key of a node that has at most one child leaves that child, or nothing.
proof fn lemma_removed_root_simple<T: Ord>(left: Shape<T>, key: T, right: Shape<T>)
    requires
        total_order::<T>(),
        Shape::join(left, key, right).ordered(),
        left is Leaf || right is Leaf,
    ensures
        left is Leaf ==> shrunk(Shape::join(left, key, right), right, key),
        left !is Leaf && right is Leaf ==> shrunk(Shape::join(left, key, right), left, key),
{
    lemma_removed_simple(left, key, right);
    lemma_lt_irreflexive(key);
}

/// Removing the key of a node with two children: the smallest key of the right subtree takes
/// its place, and leaves the right subtree.
proof fn lemma_removed_root_promoted<T: Ord>(
    left: Shape<T>,
    key: T,
    right: Shape<T>,
    right2: Shape<T>,
    successor: T,
)
    requires
        total_order::<T>(),
        Shape::join(left, key, right).ordered(),
        left !is Leaf,
        right !is Leaf,
        right.in_order().len() > 0,
        successor == right.in_order()[0],
        shrunk(right, right2, successor),
    ensures
        shrunk(Shape::join(left, key, right), Shape::join(left, successor, right2), key),
{
    lemma_removed_promoted(left, key, right, right2, successor);
    lemma_lt_irreflexive(key);
}

impl<T> View for BinarySearchTreeNode<T> {
    type V = Shape<T>;

    open spec fn view(&self) -> Shape<T> {
        self.shape()
    }
}

impl<T> View for BinarySearchTree<T> {
    type V = Shape<T>;

    open spec fn view(&self) -> Shape<T> {
        self.shape()
    }
}

impl<T> BinarySearchTreeNode<T> {
    /// The shape of the tree below this node, the node included.
    pub closed spec fn shape(&self) -> Shape<T>
        decreases self,
    {
        Shape::join(
            match self.left {
                None => Shape::Leaf,
                Some(node) => node.shape(),
            },
            self.val,
            match self.right {
                None => Shape::Leaf,
                Some(node) => node.shape(),
            },
        )
    }

    fn new(val: T) -> (node: Box<Self>)
        ensures
            node@ == Shape::single(val),
            node.val == val,
            node.left.is_none(),
            node.right.is_none(),
    {
        Box::new(Self { val, left: None, right: None })
    }

    /// The key of this node.
    pub fn val(&self) -> (r: &T)
        ensures
            self@ matches Shape::Node { val, .. } && *r == val,
    {
        &self.val
    }

    /// The left child, if there is one.
    pub fn left(&self) -> (r: Option<&BinarySearchTreeNode<T>>)
        ensures
            self@ matches Shape::Node { left, .. } && match r {
                None => *left == Shape::<T>::Leaf,
                Some(node) => *left == node@,
            },
    {
        match &self.left {
            None => None,
            Some(node) => Some(&**node),
        }
    }

    /// The right child, if there is one.
    pub fn right(&self) -> (r: Option<&BinarySearchTreeNode<T>>)
        ensures
            self@ matches Shape::Node { right, .. } && match r {
                None => *right == Shape::<T>::Leaf,
                Some(node) => *right == node@,
            },
    {
        match &self.right {
            None => None,
            Some(node) => Some(&**node),
        }
    }
}

impl<T> BinaryNode for BinarySearchTreeNode<T> {
    type Key = T;

    open spec fn node_shape(&self) -> Shape<T> {
        self.shape()
    }

    fn key(&self) -> (r: &T) {
        self.val()
    }

    fn left_child(&self) -> (r: Option<&Self>) {
        self.left()
    }

    fn right_child(&self) -> (r: Option<&Self>) {
        self.right()
    }
}

impl<T> BinarySearchTree<T> {
    /// The shape of the whole tree.
    pub closed spec fn shape(&self) -> Shape<T> {
        link_shape(self.root)
    }
}

impl<T: Ord + Clone> BinarySearchTree<T> {
    /// The invariant of the tree: the keys are in search-tree order.
    pub open spec fn wf(&self) -> bool {
        self@.ordered()
    }

    pub fn new() -> (tree: Self)
        ensures
            tree@ == Shape::<T>::Leaf,
            tree.wf(),
    {
        Self { root: None }
    }

    /// The root node, if the tree is not empty.
    pub fn root(&self) -> (r: Option<&BinarySearchTreeNode<T>>)
        ensures
            match r {
                None => self@ == Shape::<T>::Leaf,
                Some(node) => self@ == node@,
            },
    {
        match &self.root {
            None => None,
            Some(node) => Some(&**node),
        }
    }

    pub fn insert_iterate(&mut self, val: T)
        requires
            total_order::<T>(),
            old(self).wf(),
        ensures
            final(self).wf(),
            final(self)@ == old(self)@.with_key(val),
            inserted(old(self)@, final(self)@, val),
    {
        let ghost pre = self@;
        let mut root = self.root.take();
        let mut cur = &mut root;
        loop
            invariant
                total_order::<T>(),
                link_shape(*cur).ordered(),
                grown(link_shape(*cur), link_shape(*final(cur)), val) ==> grown(
                    pre,
                    link_shape(after_borrow(root)),
                    val,
                ),
            ensures
                grown(pre, link_shape(root), val),
            decreases link_shape(*cur).size(),
        {
            if cur.is_none() {
                *cur = Some(BinarySearchTreeNode::new(val));
                proof {
                    lemma_inserted_leaf(val);
                }
                break ;
            }
            match cur {
                Some(node) => {
                    let ghost l = link_shape(node.left);
                    let ghost r = link_shape(node.right);
                    let ghost k = node.val;
                    proof {
                        lemma_node_shape(**node);
                        Shape::lemma_ordered_join(l, k, r);
                    }
                    match compare(&node.val, &val) {
                        Ordering::Less => {
                            proof {
                                lemma_inserted_right(l, k, r, val);
                            }
                            cur = &mut node.right;
                        },
                        Ordering::Equal => {
                            proof {
                                Shape::lemma_contains_join(l, k, r, val);
                                let whole = Shape::join(l, k, r);
                                assert(whole.keys().insert(val) =~= whole.keys());
                            }
                            break ;
                        },
                        Ordering::Greater => {
                            proof {
                                lemma_inserted_left(l, k, r, val);
                            }
                            cur = &mut node.left;
                        },
                    }
                },
                None => {},
            }
        }
        self.root = root;
    }

    pub fn insert_recursion(&mut self, val: T)
        requires
            total_order::<T>(),
            old(self).wf(),
        ensures
            final(self).wf(),
            final(self)@ == old(self)@.with_key(val),
            inserted(old(self)@, final(self)@, val),
    {
        Self::_insert_recursion(&mut self.root, val);
    }

    pub fn _insert_recursion(root: &mut Option<Box<BinarySearchTreeNode<T>>>, val: T)
        requires
            total_order::<T>(),
            link_shape(*old(root)).ordered(),
        ensures
            link_shape(*final(root)).ordered(),
            link_shape(*final(root)) == link_shape(*old(root)).with_key(val),
            inserted(link_shape(*old(root)), link_shape(*final(root)), val),
        decreases *old(root),
    {
        let ghost pre = link_shape(*root);
        match root.take() {
            None => {
                *root = Some(BinarySearchTreeNode::new(val));
                proof {
                    lemma_inserted_leaf(val);
                }
            },
            Some(mut node) => {
                let ghost l = link_shape(node.left);
                let ghost r = link_shape(node.right);
                let ghost k = node.val;
                proof {
                    lemma_node_shape(*node);
                    Shape::lemma_ordered_join(l, k, r);
                }
                match compare(&node.val, &val) {
                    Ordering::Less => {
                        Self::_insert_recursion(&mut node.right, val);
                        proof {
                            lemma_node_shape(*node);
                            lemma_inserted_below(l, k, r, l, link_shape(node.right), val);
                        }
                    },
                    Ordering::Equal => {
                        proof {
                            Shape::lemma_contains_join(l, k, r, val);
                            assert(pre.keys().insert(val) =~= pre.keys());
                        }
                    },
                    Ordering::Greater => {
                        Self::_insert_recursion(&mut node.left, val);
                        proof {
                            lemma_node_shape(*node);
                            lemma_inserted_below(l, k, r, link_shape(node.left), r, val);
                        }
                    },
                }
                *root = Some(node);
            },
        }
    }

    pub fn remove(&mut self, val: T)
        requires
            total_order::<T>(),
            exact_clone::<T>(),
            old(self).wf(),
        ensures
            final(self).wf(),
            final(self)@ == old(self)@.without_key(val),
            removed(old(self)@, final(self)@, val),
    {
        Self::_remove(&mut self.root, val);
    }

    pub fn _remove(root: &mut Option<Box<BinarySearchTreeNode<T>>>, val: T)
        requires
            total_order::<T>(),
            exact_clone::<T>(),
            link_shape(*old(root)).ordered(),
        ensures
            link_shape(*final(root)).ordered(),
            link_shape(*final(root)) == link_shape(*old(root)).without_key(val),
            removed(link_shape(*old(root)), link_shape(*final(root)), val),
        decreases link_shape(*old(root)).size(),
    {
        let ghost pre = link_shape(*root);
        let mut cur = root;
        loop
            invariant
                total_order::<T>(),
                link_shape(*cur).ordered(),
                link_shape(*cur).size() <= pre.size(),
                shrunk(link_shape(*cur), link_shape(*final(cur)), val) ==> shrunk(
                    pre,
                    link_shape(*final(root)),
                    val,
                ),
            ensures
                *cur matches Some(node) ==> node.val == val,
                cur.is_none() ==> !link_shape(*cur).contains(val),
            decreases link_shape(*cur).size(),
        {
            let ghost l = left_below(*cur);
            let ghost r = right_below(*cur);
            let order = match &*cur {
                None => {
                    assert(link_shape(*cur).in_order() =~= Seq::<T>::empty());
                    break ;
                },
                Some(node) => {
                    proof {
                        lemma_node_shape(**node);
                        Shape::lemma_ordered_join(l, node.val, r);
                        assert(Shape::join(l, node.val, r).size() == l.size() + 1 + r.size());
                    }
                    compare(&node.val, &val)
                },
            };
            let ghost k = cur.unwrap().val;
            match order {
                Ordering::Less => {
                    proof {
                        lemma_removed_right(l, k, r, val);
                    }
                    cur = &mut cur.as_mut().unwrap().right;
                },
                Ordering::Equal => {
                    break ;
                },
                Ordering::Greater => {
                    proof {
                        lemma_removed_left(l, k, r, val);
                    }
                    cur = &mut cur.as_mut().unwrap().left;
                },
            }
        }
        let ghost at = link_shape(*cur);
        match cur.take() {
            None => {
                *cur = None;
                proof {
                    assert(at.keys().remove(val) =~= at.keys());
                    assert(shrunk(at, at, val));
                }
            },
            Some(mut to_remove) => {
                let ghost l = link_shape(to_remove.left);
                let ghost r = link_shape(to_remove.right);
                proof {
                    lemma_node_shape(*to_remove);
                    Shape::lemma_ordered_join(l, val, r);
                    assert(at.size() == l.size() + 1 + r.size());
                }
                if to_remove.left.is_none() {
                    proof {
                        lemma_removed_root_simple(l, val, r);
                    }
                    *cur = to_remove.right.take();
                    assert(shrunk(at, link_shape(*cur), val));
                } else if to_remove.right.is_none() {
                    proof {
                        lemma_removed_root_simple(l, val, r);
                    }
                    *cur = to_remove.left.take();
                    assert(shrunk(at, link_shape(*cur), val));
                } else {
                    let mut to_change = to_remove.right.as_ref().unwrap();
                    proof {
                        r.lemma_size_in_order();
                    }
                    loop
                        invariant
                            r.in_order().len() > 0,
                            to_change@.in_order().len() > 0,
                            to_change@.in_order()[0] == r.in_order()[0],
                        ensures
                            to_change.val == r.in_order()[0],
                        decreases to_change@.size(),
                    {
                        proof {
                            lemma_node_shape(**to_change);
                            link_shape(to_change.left).lemma_size_in_order();
                        }
                        match &to_change.left {
                            Some(left) => {
                                to_change = left;
                            },
                            None => {
                                break ;
                            },
                        }
                    }
                    let to_change_val = to_change.val.clone();
                    let successor = to_change_val.clone();
                    assert(cloned(to_change.val, to_change_val));
                    assert(cloned(to_change_val, successor));
                    Self::_remove(&mut to_remove.right, successor);
                    to_remove.val = to_change_val;
                    proof {
                        lemma_node_shape(*to_remove);
                        lemma_removed_root_promoted(
                            l,
                            val,
                            r,
                            link_shape(to_remove.right),
                            to_change_val,
                        );
                    }
                    *cur = Some(to_remove);
                    assert(shrunk(at, link_shape(*cur), val));
                }
            },
        }
    }

    pub fn search_iterate(&self, val: T) -> (r: Option<&BinarySearchTreeNode<T>>)
        requires
            total_order::<T>(),
            self.wf(),
        ensures
            found(self@, val, node_shape(r)),
    {
        let mut cur = &self.root;
        loop
            invariant
                total_order::<T>(),
                link_shape(*cur).ordered(),
                self@.has_subtree(link_shape(*cur)),
                self@.contains(val) <==> link_shape(*cur).contains(val),
            decreases link_shape(*cur).size(),
        {
            match cur {
                None => {
                    assert(link_shape(*cur).in_order() =~= Seq::<T>::empty());
                    return None;
                },
                Some(node) => {
                    let ghost l = link_shape(node.left);
                    let ghost r = link_shape(node.right);
                    proof {
                        lemma_node_shape(**node);
                        Shape::lemma_ordered_join(l, node.val, r);
                        Shape::lemma_contains_join(l, node.val, r, val);
                        Shape::lemma_has_subtree_join(l, node.val, r);
                        lemma_lt_trichotomy(node.val, val);
                    }
                    match compare(&node.val, &val) {
                        Ordering::Less => {
                            proof {
                                self@.lemma_has_subtree_transitive(node@, r);
                                if l.contains(val) {
                                    assert(lt(val, node.val));
                                }
                            }
                            cur = &node.right;
                        },
                        Ordering::Equal => {
                            return Some(&**node);
                        },
                        Ordering::Greater => {
                            proof {
                                self@.lemma_has_subtree_transitive(node@, l);
                                if r.contains(val) {
                                    assert(lt(node.val, val));
                                }
                            }
                            cur = &node.left;
                        },
                    }
                },
            }
        }
    }

    pub fn search_recursion(&self, val: T) -> (r: Option<&BinarySearchTreeNode<T>>)
        requires
            total_order::<T>(),
            self.wf(),
        ensures
            found(self@, val, node_shape(r)),
    {
        Self::_search_recursion(&self.root, val)
    }

    pub fn _search_recursion(root: &Option<Box<BinarySearchTreeNode<T>>>, val: T) -> (r: Option<
        &BinarySearchTreeNode<T>,
    >)
        requires
            total_order::<T>(),
            link_shape(*root).ordered(),
        ensures
            found(link_shape(*root), val, node_shape(r)),
        decreases *root,
    {
        match root {
            None => {
                assert(link_shape(*root).in_order() =~= Seq::<T>::empty());
                None
            },
            Some(node) => {
                let ghost l = link_shape(node.left);
                let ghost r = link_shape(node.right);
                proof {
                    lemma_node_shape(**node);
                    Shape::lemma_ordered_join(l, node.val, r);
                    Shape::lemma_contains_join(l, node.val, r, val);
                    Shape::lemma_has_subtree_join(l, node.val, r);
                    lemma_lt_trichotomy(node.val, val);
                }
                match compare(&node.val, &val) {
                    Ordering::Less => {
                        proof {
                            if l.contains(val) {
                                assert(lt(val, node.val));
                            }
                        }
                        let found_node = Self::_search_recursion(&node.right, val);
                        proof {
                            if let Some(n) = found_node {
                                node@.lemma_has_subtree_transitive(r, n@);
                            }
                        }
                        found_node
                    },
                    Ordering::Equal => Some(&**node),
                    Ordering::Greater => {
                        proof {
                            if r.contains(val) {
                                assert(lt(node.val, val));
                            }
                        }
                        let found_node = Self::_search_recursion(&node.left, val);
                        proof {
                            if let Some(n) = found_node {
                                node@.lemma_has_subtree_transitive(l, n@);
                            }
                        }
                        found_node
                    },
                }
            },
        }
    }

    pub fn level_order(&self) -> (result: Vec<T>)
        ensures
            clones_of(self@.level_order(), result@),
            exact_clone::<T>() ==> result@ == self@.level_order(),
    {
        level_order_of(self.root())
    }

    pub fn pre_order(&self) -> (result: Vec<T>)
        ensures
            clones_of(self@.pre_order(), result@),
            exact_clone::<T>() ==> result@ == self@.pre_order(),
    {
        let mut result = Vec::new();
        pre_order_into(self.root(), &mut result);
        proof {
            lemma_extended_exact(Seq::empty(), self@.pre_order(), result@);
        }
        result
    }

    pub fn in_order(&self) -> (result: Vec<T>)
        ensures
            clones_of(self@.in_order(), result@),
            exact_clone::<T>() ==> result@ == self@.in_order(),
    {
        let mut result = Vec::new();
        in_order_into(self.root(), &mut result);
        proof {
            lemma_extended_exact(Seq::empty(), self@.in_order(), result@);
        }
        result
    }

    pub fn post_order(&self) -> (result: Vec<T>)
        ensures
            clones_of(self@.post_order(), result@),
            exact_clone::<T>() ==> result@ == self@.post_order(),
    {
        let mut result = Vec::new();
        post_order_into(self.root(), &mut result);
        proof {
            lemma_extended_exact(Seq::empty(), self@.post_order(), result@);
        }
        result
    }

    /// The in-order traversal of a valid tree is strictly increasing, where clones are exact.
    pub proof fn lemma_in_order_increasing(self, keys: Seq<T>)
        requires
            total_order::<T>(),
            exact_clone::<T>(),
            self.wf(),
            clones_of(self@.in_order(), keys),
        ensures
            increasing(keys),
            keys == self@.in_order(),
            keys.no_duplicates(),
    {
        lemma_exact_clones(self@.in_order(), keys);
        lemma_increasing_no_duplicates(keys);
    }
}

} // verus!
