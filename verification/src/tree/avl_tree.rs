//! A self-balancing ordered binary search tree.
//!
//! Every subtree is owned by its parent; a rotation hands the new subtree root back to the
//! caller, which puts it where the old one was.

use crate::cloning::{clones_of, exact_clone, lemma_exact_clones, lemma_extended_exact};
use crate::order::{compare, lemma_lt_irreflexive, lemma_lt_trichotomy, lt, total_order};
use crate::tree::search_laws::{
    lemma_inserted_below, lemma_inserted_leaf, lemma_removed_below, lemma_removed_promoted,
    lemma_removed_simple,
};
use crate::tree::shape::{
    found, increasing, inserted, lemma_increasing_no_duplicates, max_int, removed, Shape,
};
use crate::tree::walk::{in_order_into, level_order_of, post_order_into, pre_order_into, BinaryNode};
use core::cmp::Ordering;
use vstd::prelude::*;

verus! {

pub struct AVLTreeNode<T> {
    val: T,
    height: i32,
    left: Option<Box<AVLTreeNode<T>>>,
    right: Option<Box<AVLTreeNode<T>>>,
}

pub struct AVLTree<T> {
    root: Option<Box<AVLTreeNode<T>>>,
}

/// The shape of the tree below a link; an absent child is the empty tree.
pub open spec fn link_shape<T>(link: Option<Box<AVLTreeNode<T>>>) -> Shape<T> {
    match link {
        None => Shape::Leaf,
        Some(node) => node@,
    }
}

/// Every node below the link stores the height of its own subtree.
pub open spec fn link_cached<T>(link: Option<Box<AVLTreeNode<T>>>) -> bool {
    match link {
        None => true,
        Some(node) => node.heights_cached(),
    }
}

/// The tree below the link is a valid balanced search tree with correct stored heights.
pub open spec fn avl<T: Ord>(link: Option<Box<AVLTreeNode<T>>>) -> bool {
    &&& link_cached(link)
    &&& link_shape(link).balanced()
    &&& link_shape(link).ordered()
}

/// The shape below a reference to a node, if there is one.
pub open spec fn node_shape<T>(node: Option<&AVLTreeNode<T>>) -> Option<Shape<T>> {
    match node {
        None => None,
        Some(n) => Some(n@),
    }
}

/// The height that the link's node stores; `-1` for an absent child.
pub open spec fn link_height<T>(link: Option<Box<AVLTreeNode<T>>>) -> int {
    match link {
        None => -1,
        Some(node) => node.stored_height(),
    }
}

/// A node with correct stored heights stores the height of its shape.
proof fn lemma_stored<T>(link: Option<Box<AVLTreeNode<T>>>)
    requires
        link_cached(link),
    ensures
        link_height(link) == link_shape(link).height(),
        link_height(link) >= -1,
{
    link_shape(link).lemma_height_bounds();
}

/// The shape of a node is made of its key and the shapes of its children.
proof fn lemma_node_shape<T>(node: AVLTreeNode<T>)
    ensures
        node@ == Shape::join(link_shape(node.left), node.val, link_shape(node.right)),
        node@.height() == 1 + max_int(
            link_shape(node.left).height(),
            link_shape(node.right).height(),
        ),
        node.heights_cached() <==> {
            &&& node.height == node@.height()
            &&& link_cached(node.left)
            &&& link_cached(node.right)
        },
{
}

impl<T> View for AVLTreeNode<T> {
    type V = Shape<T>;

    open spec fn view(&self) -> Shape<T> {
        self.shape()
    }
}

impl<T> BinaryNode for AVLTreeNode<T> {
    type Key = T;

    open spec fn node_shape(&self) -> Shape<T> {
        self.shape()
    }

    fn key(&self) -> (r: &T) {
        self.val()
    }

    fn left_child(&self) -> (r: Option<&Self>) {
        self.left()
    }

    fn right_child(&self) -> (r: Option<&Self>) {
        self.right()
    }
}

impl<T> View for AVLTree<T> {
    type V = Shape<T>;

    open spec fn view(&self) -> Shape<T> {
        self.shape()
    }
}

impl<T> AVLTreeNode<T> {
    /// The height that this node stores.
    pub closed spec fn stored_height(&self) -> int {
        self.height as int
    }

    /// The link to the left child.
    pub closed spec fn left_link(&self) -> Option<Box<AVLTreeNode<T>>> {
        self.left
    }

    /// The link to the right child.
    pub closed spec fn right_link(&self) -> Option<Box<AVLTreeNode<T>>> {
        self.right
    }

    /// A node whose stored heights are right stores one more than the larger of the heights
    /// that its children store, an absent child counting as `-1`; and this is the height of
    /// its shape. The same then holds of both children.
    pub proof fn lemma_height_correct(self)
        requires
            self.heights_cached(),
        ensures
            self.stored_height() == 1 + max_int(
                link_height(self.left_link()),
                link_height(self.right_link()),
            ),
            self.stored_height() == self@.height(),
            link_cached(self.left_link()),
            link_cached(self.right_link()),
            self@ == Shape::join(link_shape(self.left_link()), self.key(), link_shape(self.right_link())),
    {
        lemma_node_shape(self);
        lemma_stored(self.left);
        lemma_stored(self.right);
    }

    /// The key of this node.
    pub closed spec fn key(&self) -> T {
        self.val
    }

    /// The shape of the tree below this node, the node included.
    pub closed spec fn shape(&self) -> Shape<T>
        decreases self,
    {
        Shape::join(
            match self.left {
                None => Shape::Leaf,
                Some(node) => node.shape(),
            },
            self.val,
            match self.right {
                None => Shape::Leaf,
                Some(node) => node.shape(),
            },
        )
    }

    /// This node and every node below it store the height of their own subtree.
    pub closed spec fn heights_cached(&self) -> bool
        decreases self,
    {
        &&& self.height == self@.height()
        &&& match self.left {
            None => true,
            Some(node) => node.heights_cached(),
        }
        &&& match self.right {
            None => true,
            Some(node) => node.heights_cached(),
        }
    }

    fn new(val: T) -> (node: Box<Self>)
        ensures
            node@ == Shape::single(val),
            node.heights_cached(),
            node.val == val,
            node.height == 0,
            node.left.is_none(),
            node.right.is_none(),
    {
        let node = Box::new(Self { val, height: 0, left: None, right: None });
        assert(Shape::<T>::Leaf.height() == -1);
        node
    }

    /// The key of this node.
    pub fn val(&self) -> (r: &T)
        ensures
            *r == self.key(),
            self@ matches Shape::Node { val, .. } && *r == val,
    {
        &self.val
    }

    /// The stored height of this node's subtree.
    pub fn height(&self) -> (r: i32)
        ensures
            r == self.stored_height(),
            self.heights_cached() ==> r == self@.height(),
    {
        self.height
    }

    /// The left child, if there is one.
    pub fn left(&self) -> (r: Option<&AVLTreeNode<T>>)
        ensures
            self@ matches Shape::Node { left, .. } && match r {
                None => *left == Shape::<T>::Leaf,
                Some(node) => *left == node@,
            },
            match r {
                None => self.left_link().is_none(),
                Some(node) => self.left_link() == Some(Box::new(*node)),
            },
            self.heights_cached() ==> (r matches Some(node) ==> node.heights_cached()),
    {
        match &self.left {
            None => None,
            Some(node) => Some(&**node),
        }
    }

    /// The right child, if there is one.
    pub fn right(&self) -> (r: Option<&AVLTreeNode<T>>)
        ensures
            self@ matches Shape::Node { right, .. } && match r {
                None => *right == Shape::<T>::Leaf,
                Some(node) => *right == node@,
            },
            match r {
                None => self.right_link().is_none(),
                Some(node) => self.right_link() == Some(Box::new(*node)),
            },
            self.heights_cached() ==> (r matches Some(node) ==> node.heights_cached()),
    {
        match &self.right {
            None => None,
            Some(node) => Some(&**node),
        }
    }
}

impl<T> AVLTree<T> {
    /// The shape of the whole tree.
    pub closed spec fn shape(&self) -> Shape<T> {
        link_shape(self.root)
    }

    /// Every node stores the height of its own subtree.
    pub closed spec fn heights_cached(&self) -> bool {
        link_cached(self.root)
    }
}

impl<T: Ord + Clone> AVLTree<T> {
    /// The invariant of the tree: stored heights are right, every node is balanced and the
    /// keys are in search-tree order.
    pub open spec fn wf(&self) -> bool {
        &&& self.heights_cached()
        &&& self@.balanced()
        &&& self@.ordered()
    }

    /// The in-order traversal of a valid tree is strictly increasing, where clones are exact.
    pub proof fn lemma_in_order_increasing(self, keys: Seq<T>)
        requires
            total_order::<T>(),
            exact_clone::<T>(),
            self.wf(),
            clones_of(self@.in_order(), keys),
        ensures
            increasing(keys),
            keys == self@.in_order(),
            keys.no_duplicates(),
    {
        lemma_exact_clones(self@.in_order(), keys);
        lemma_increasing_no_duplicates(keys);
    }

    pub fn new() -> (tree: Self)
        ensures
            tree@ == Shape::<T>::Leaf,
            tree.wf(),
    {
        Self { root: None }
    }

    /// The root node, if the tree is not empty.
    pub fn root(&self) -> (r: Option<&AVLTreeNode<T>>)
        ensures
            match r {
                None => self@ == Shape::<T>::Leaf,
                Some(node) => self@ == node@,
            },
            self.heights_cached() ==> (r matches Some(node) ==> node.heights_cached()),
    {
        match &self.root {
            None => None,
            Some(node) => Some(&**node),
        }
    }

    fn height(node: &Option<Box<AVLTreeNode<T>>>) -> (r: i32)
        ensures
            r == link_height(*node),
            link_cached(*node) ==> r == link_shape(*node).height(),
    {
        match node {
            Some(node) => node.height,
            None => -1,
        }
    }

    fn update_height(node: &mut Option<Box<AVLTreeNode<T>>>)
        requires
            *old(node) matches Some(n) && link_height(n.left) < i32::MAX && link_height(n.right) < i32::MAX,
        ensures
            *final(node) matches Some(m) && *old(node) matches Some(n) && {
                &&& m.val == n.val
                &&& m.left == n.left
                &&& m.right == n.right
                &&& m.height == 1 + max_int(link_height(n.left), link_height(n.right))
            },
            link_shape(*final(node)) == link_shape(*old(node)),
            *old(node) matches Some(n) && (link_cached(n.left) && link_cached(n.right)
                ==> link_cached(*final(node))),
    {
        if let Some(mut n) = node.take() {
            let hl = Self::height(&n.left);
            let hr = Self::height(&n.right);
            n.height = if hl >= hr {
                hl + 1
            } else {
                hr + 1
            };
            *node = Some(n);
        }
    }

    fn balance_factor(node: &Option<Box<AVLTreeNode<T>>>) -> (r: i32)
        requires
            *node matches Some(n) ==> link_cached(n.left) && link_cached(n.right) && link_height(n.left)
                < i32::MAX,
        ensures
            r == link_shape(*node).balance(),
            r == match *node {
                None => 0,
                Some(n) => link_height(n.left) - link_height(n.right),
            },
    {
        match node {
            Some(n) => {
                proof {
                    link_shape(n.left).lemma_height_bounds();
                    link_shape(n.right).lemma_height_bounds();
                }
                Self::height(&n.left) - Self::height(&n.right)
            },
            None => 0,
        }
    }

    fn right_rotate(node: Option<Box<AVLTreeNode<T>>>) -> (r: Option<Box<AVLTreeNode<T>>>)
        requires
            node matches Some(n) ==> {
                &&& n.left.is_some()
                &&& link_cached(n.left)
                &&& link_cached(n.right)
                &&& n@.rotated_right().height() <= i32::MAX
            },
        ensures
            link_shape(r) == link_shape(node).rotated_right(),
            link_cached(r),
            r.is_some() == node.is_some(),
    {
        match node {
            None => None,
            Some(mut node) => {
                proof {
                    lemma_node_shape(*node);
                    lemma_node_shape(*node.left.unwrap());
                    lemma_stored(node.left.unwrap().left);
                    lemma_stored(node.left.unwrap().right);
                    lemma_stored(node.right);
                    let low = Shape::join(
                        link_shape(node.left.unwrap().right),
                        node.val,
                        link_shape(node.right),
                    );
                    assert(low.height() == 1 + max_int(
                        link_shape(node.left.unwrap().right).height(),
                        link_shape(node.right).height(),
                    ));
                    assert(node@.rotated_right().height() == 1 + max_int(
                        link_shape(node.left.unwrap().left).height(),
                        low.height(),
                    ));
                }
                let mut child = node.left.take().unwrap();
                let grand_child = child.right.take();
                node.left = grand_child;
                let mut lower = Some(node);
                Self::update_height(&mut lower);
                proof {
                    lemma_node_shape(*lower.unwrap());
                    lemma_stored(lower);
                }
                child.right = lower;
                let mut upper = Some(child);
                Self::update_height(&mut upper);
                proof {
                    lemma_node_shape(*upper.unwrap());
                }
                upper
            },
        }
    }

    fn left_rotate(node: Option<Box<AVLTreeNode<T>>>) -> (r: Option<Box<AVLTreeNode<T>>>)
        requires
            node matches Some(n) ==> {
                &&& n.right.is_some()
                &&& link_cached(n.left)
                &&& link_cached(n.right)
                &&& n@.rotated_left().height() <= i32::MAX
            },
        ensures
            link_shape(r) == link_shape(node).rotated_left(),
            link_cached(r),
            r.is_some() == node.is_some(),
    {
        match node {
            None => None,
            Some(mut node) => {
                proof {
                    lemma_node_shape(*node);
                    lemma_node_shape(*node.right.unwrap());
                    lemma_stored(node.right.unwrap().left);
                    lemma_stored(node.right.unwrap().right);
                    lemma_stored(node.left);
                    let low = Shape::join(
                        link_shape(node.left),
                        node.val,
                        link_shape(node.right.unwrap().left),
                    );
                    assert(low.height() == 1 + max_int(
                        link_shape(node.left).height(),
                        link_shape(node.right.unwrap().left).height(),
                    ));
                    assert(node@.rotated_left().height() == 1 + max_int(
                        low.height(),
                        link_shape(node.right.unwrap().right).height(),
                    ));
                }
                let mut child = node.right.take().unwrap();
                let grand_child = child.left.take();
                node.right = grand_child;
                let mut lower = Some(node);
                Self::update_height(&mut lower);
                proof {
                    lemma_node_shape(*lower.unwrap());
                    lemma_stored(lower);
                }
                child.left = lower;
                let mut upper = Some(child);
                Self::update_height(&mut upper);
                proof {
                    lemma_node_shape(*upper.unwrap());
                }
                upper
            },
        }
    }

    fn rotate(node: Option<Box<AVLTreeNode<T>>>) -> (r: Option<Box<AVLTreeNode<T>>>)
        requires
            link_cached(node),
            link_shape(node).nearly_balanced(),
        ensures
            link_shape(r) == link_shape(node).rebalanced(),
            link_cached(r),
            link_shape(r).balanced(),
            r.is_some() == node.is_some(),
    {
        proof {
            link_shape(node).lemma_rebalanced_balanced();
            if node.is_some() {
                lemma_node_shape(*node.unwrap());
                lemma_stored(node.unwrap().left);
                lemma_stored(node.unwrap().right);
            }
        }
        let balance_factor = Self::balance_factor(&node);

        if balance_factor > 1 {
            let mut node = node.unwrap();
            let left = node.left.take();
            proof {
                lemma_node_shape(*left.unwrap());
                lemma_stored(left.unwrap().left);
                lemma_stored(left.unwrap().right);
            }
            if Self::balance_factor(&left) >= 0 {
                node.left = left;
                Self::right_rotate(Some(node))
            } else {
                node.left = Self::left_rotate(left);
                proof {
                    lemma_node_shape(*node);
                    lemma_node_shape(*node.left.unwrap());
                    lemma_stored(node.left);
                }
                Self::right_rotate(Some(node))
            }
        } else if balance_factor < -1 {
            let mut node = node.unwrap();
            let right = node.right.take();
            proof {
                lemma_node_shape(*right.unwrap());
                lemma_stored(right.unwrap().left);
                lemma_stored(right.unwrap().right);
            }
            if Self::balance_factor(&right) <= 0 {
                node.right = right;
                Self::left_rotate(Some(node))
            } else {
                node.right = Self::right_rotate(right);
                proof {
                    lemma_node_shape(*node);
                    lemma_node_shape(*node.right.unwrap());
                    lemma_stored(node.right);
                }
                Self::left_rotate(Some(node))
            }
        } else {
            node
        }
    }

    pub fn insert_recursion(&mut self, val: T)
        requires
            total_order::<T>(),
            old(self).wf(),
            old(self)@.height() < i32::MAX,
        ensures
            final(self).wf(),
            final(self)@ == old(self)@.with_key_balanced(val),
            inserted(old(self)@, final(self)@, val),
    {
        Self::_insert_recursion(&mut self.root, val);
    }

    pub fn _insert_recursion(root: &mut Option<Box<AVLTreeNode<T>>>, val: T)
        requires
            total_order::<T>(),
            avl(*old(root)),
            link_shape(*old(root)).height() < i32::MAX,
        ensures
            avl(*final(root)),
            link_shape(*final(root)) == link_shape(*old(root)).with_key_balanced(val),
            inserted(link_shape(*old(root)), link_shape(*final(root)), val),
        decreases *old(root),
    {
        let ghost pre = link_shape(*root);
        match root.take() {
            None => {
                *root = Some(AVLTreeNode::new(val));
                proof {
                    lemma_inserted_leaf(val);
                }
            },
            Some(mut node) => {
                let ghost l = link_shape(node.left);
                let ghost r = link_shape(node.right);
                let ghost k = node.val;
                proof {
                    lemma_node_shape(*node);
                    Shape::lemma_ordered_join(l, k, r);
                    lemma_stored(node.left);
                    lemma_stored(node.right);
                }
                match compare(&node.val, &val) {
                    Ordering::Less => {
                        Self::_insert_recursion(&mut node.right, val);
                        proof {
                            lemma_node_shape(*node);
                            lemma_stored(node.right);
                            lemma_inserted_below(l, k, r, l, link_shape(node.right), val);
                        }
                    },
                    Ordering::Equal => {
                        *root = Some(node);
                        proof {
                            Shape::lemma_contains_join(l, k, r, val);
                            assert(pre.keys().insert(val) =~= pre.keys());
                        }
                        return ;
                    },
                    Ordering::Greater => {
                        Self::_insert_recursion(&mut node.left, val);
                        proof {
                            lemma_node_shape(*node);
                            lemma_stored(node.left);
                            lemma_inserted_below(l, k, r, link_shape(node.left), r, val);
                        }
                    },
                }
                *root = Some(node);
            },
        }
        let ghost mid = link_shape(*root);
        proof {
            mid.lemma_rebalanced_in_order();
            mid.lemma_rebalanced_balanced();
            mid.lemma_size_in_order();
            mid.rebalanced().lemma_size_in_order();
        }
        Self::update_height(root);
        *root = Self::rotate(root.take());
    }

    pub fn search_iterate(&self, val: T) -> (r: Option<&AVLTreeNode<T>>)
        requires
            total_order::<T>(),
            self@.ordered(),
        ensures
            found(self@, val, node_shape(r)),
            self.heights_cached() ==> (r matches Some(node) ==> node.heights_cached()),
    {
        let mut cur = &self.root;
        loop
            invariant
                total_order::<T>(),
                link_shape(*cur).ordered(),
                self@.has_subtree(link_shape(*cur)),
                self@.contains(val) <==> link_shape(*cur).contains(val),
                self.heights_cached() ==> link_cached(*cur),
                self@ == link_shape(self.root),
            decreases link_shape(*cur).size(),
        {
            match cur {
                None => {
                    assert(link_shape(*cur).in_order() =~= Seq::<T>::empty());
                    return None;
                },
                Some(node) => {
                    let ghost l = link_shape(node.left);
                    let ghost r = link_shape(node.right);
                    proof {
                        lemma_node_shape(**node);
                        Shape::lemma_ordered_join(l, node.val, r);
                        Shape::lemma_contains_join(l, node.val, r, val);
                        Shape::lemma_has_subtree_join(l, node.val, r);
                        lemma_lt_trichotomy(node.val, val);
                    }
                    match compare(&node.val, &val) {
                        Ordering::Less => {
                            proof {
                                self@.lemma_has_subtree_transitive(node@, r);
                                if l.contains(val) {
                                    assert(lt(val, node.val));
                                }
                            }
                            cur = &node.right;
                        },
                        Ordering::Equal => {
                            return Some(&**node);
                        },
                        Ordering::Greater => {
                            proof {
                                self@.lemma_has_subtree_transitive(node@, l);
                                if r.contains(val) {
                                    assert(lt(node.val, val));
                                }
                            }
                            cur = &node.left;
                        },
                    }
                },
            }
        }
    }

    pub fn search_recursion(&self, val: T) -> (r: Option<&AVLTreeNode<T>>)
        requires
            total_order::<T>(),
            self@.ordered(),
        ensures
            found(self@, val, node_shape(r)),
            self.heights_cached() ==> (r matches Some(node) ==> node.heights_cached()),
    {
        Self::_search_recursion(&self.root, val)
    }

    pub fn _search_recursion(root: &Option<Box<AVLTreeNode<T>>>, val: T) -> (r: Option<
        &AVLTreeNode<T>,
    >)
        requires
            total_order::<T>(),
            link_shape(*root).ordered(),
        ensures
            found(link_shape(*root), val, node_shape(r)),
            link_cached(*root) ==> (r matches Some(node) ==> node.heights_cached()),
        decreases *root,
    {
        match root {
            None => {
                assert(link_shape(*root).in_order() =~= Seq::<T>::empty());
                None
            },
            Some(node) => {
                let ghost l = link_shape(node.left);
                let ghost r = link_shape(node.right);
                proof {
                    lemma_node_shape(**node);
                    Shape::lemma_ordered_join(l, node.val, r);
                    Shape::lemma_contains_join(l, node.val, r, val);
                    Shape::lemma_has_subtree_join(l, node.val, r);
                    lemma_lt_trichotomy(node.val, val);
                }
                match compare(&node.val, &val) {
                    Ordering::Less => {
                        proof {
                            if l.contains(val) {
                                assert(lt(val, node.val));
                            }
                        }
                        let found_node = Self::_search_recursion(&node.right, val);
                        proof {
                            if let Some(n) = found_node {
                                node@.lemma_has_subtree_transitive(r, n@);
                            }
                        }
                        found_node
                    },
                    Ordering::Equal => Some(&**node),
                    Ordering::Greater => {
                        proof {
                            if r.contains(val) {
                                assert(lt(node.val, val));
                            }
                        }
                        let found_node = Self::_search_recursion(&node.left, val);
                        proof {
                            if let Some(n) = found_node {
                                node@.lemma_has_subtree_transitive(l, n@);
                            }
                        }
                        found_node
                    },
                }
            },
        }
    }

    pub fn remove(&mut self, val: T)
        requires
            total_order::<T>(),
            exact_clone::<T>(),
            old(self).wf(),
        ensures
            final(self).wf(),
            final(self)@ == old(self)@.without_key_balanced(val),
            removed(old(self)@, final(self)@, val),
    {
        Self::_remove(&mut self.root, val);
    }

    pub fn _remove(root: &mut Option<Box<AVLTreeNode<T>>>, val: T)
        requires
            total_order::<T>(),
            exact_clone::<T>(),
            avl(*old(root)),
        ensures
            avl(*final(root)),
            link_shape(*final(root)) == link_shape(*old(root)).without_key_balanced(val),
            removed(link_shape(*old(root)), link_shape(*final(root)), val),
        decreases *old(root),
    {
        let ghost pre = link_shape(*root);
        match root.take() {
            None => {
                *root = None;
                proof {
                    assert(pre.in_order() =~= Seq::<T>::empty());
                    assert(pre.keys().remove(val) =~= pre.keys());
                }
            },
            Some(mut to_remove) => {
                let ghost l = link_shape(to_remove.left);
                let ghost r = link_shape(to_remove.right);
                let ghost k = to_remove.val;
                proof {
                    lemma_node_shape(*to_remove);
                    lemma_stored(to_remove.left);
                    lemma_stored(to_remove.right);
                    lemma_lt_irreflexive(k);
                    Shape::lemma_ordered_join(l, k, r);
                }
                match compare(&to_remove.val, &val) {
                    Ordering::Less => {
                        Self::_remove(&mut to_remove.right, val);
                        proof {
                            lemma_node_shape(*to_remove);
                            lemma_stored(to_remove.right);
                            let r2 = link_shape(to_remove.right);
                            lemma_removed_below(l, k, r, l, r2, val);
                            assert(Shape::join(l, k, r2).nearly_balanced());
                        }
                    },
                    Ordering::Greater => {
                        Self::_remove(&mut to_remove.left, val);
                        proof {
                            lemma_node_shape(*to_remove);
                            lemma_stored(to_remove.left);
                            let l2 = link_shape(to_remove.left);
                            lemma_removed_below(l, k, r, l2, r, val);
                            assert(Shape::join(l2, k, r).nearly_balanced());
                        }
                    },
                    Ordering::Equal => {
                        if to_remove.left.is_none() && to_remove.right.is_none() {
                            *root = None;
                            proof {
                                lemma_removed_simple(l, k, r);
                            }
                            return ;
                        } else if to_remove.left.is_none() {
                            to_remove = to_remove.right.take().unwrap();
                            proof {
                                lemma_removed_simple(l, k, r);
                                r.lemma_balanced_nearly();
                            }
                        } else if to_remove.right.is_none() {
                            to_remove = to_remove.left.take().unwrap();
                            proof {
                                lemma_removed_simple(l, k, r);
                                l.lemma_balanced_nearly();
                            }
                        } else {
                            let mut to_change = to_remove.right.as_ref().unwrap();
                            proof {
                                r.lemma_size_in_order();
                            }
                            loop
                                invariant
                                    r.in_order().len() > 0,
                                    to_change@.in_order().len() > 0,
                                    to_change@.in_order()[0] == r.in_order()[0],
                                ensures
                                    to_change.val == r.in_order()[0],
                                decreases to_change@.size(),
                            {
                                proof {
                                    lemma_node_shape(**to_change);
                                    link_shape(to_change.left).lemma_size_in_order();
                                }
                                match &to_change.left {
                                    Some(left) => {
                                        to_change = left;
                                    },
                                    None => {
                                        break ;
                                    },
                                }
                            }
                            let to_change_val = to_change.val.clone();
                            let successor = to_change_val.clone();
                            assert(cloned(to_change.val, to_change_val));
                            assert(cloned(to_change_val, successor));
                            Self::_remove(&mut to_remove.right, successor);
                            to_remove.val = to_change_val;
                            proof {
                                lemma_node_shape(*to_remove);
                                lemma_stored(to_remove.right);
                                let r2 = link_shape(to_remove.right);
                                lemma_removed_promoted(l, k, r, r2, to_change_val);
                                assert(Shape::join(l, to_change_val, r2).nearly_balanced());
                            }
                        }
                    },
                }
                *root = Some(to_remove);
            },
        }
        let ghost mid = link_shape(*root);
        proof {
            if root.is_some() {
                lemma_node_shape(*root.unwrap());
                lemma_stored(root.unwrap().left);
                lemma_stored(root.unwrap().right);
            }
            mid.lemma_rebalanced_in_order();
            mid.lemma_rebalanced_balanced();
            mid.lemma_size_in_order();
            mid.rebalanced().lemma_size_in_order();
        }
        if root.is_some() {
            Self::update_height(root);
            *root = Self::rotate(root.take());
        }
    }

    pub fn level_order(&self) -> (result: Vec<T>)
        ensures
            clones_of(self@.level_order(), result@),
            exact_clone::<T>() ==> result@ == self@.level_order(),
    {
        level_order_of(self.root())
    }

    pub fn pre_order(&self) -> (result: Vec<T>)
        ensures
            clones_of(self@.pre_order(), result@),
            exact_clone::<T>() ==> result@ == self@.pre_order(),
    {
        let mut result = Vec::new();
        pre_order_into(self.root(), &mut result);
        proof {
            lemma_extended_exact(Seq::empty(), self@.pre_order(), result@);
        }
        result
    }

    pub fn in_order(&self) -> (result: Vec<T>)
        ensures
            clones_of(self@.in_order(), result@),
            exact_clone::<T>() ==> result@ == self@.in_order(),
    {
        let mut result = Vec::new();
        in_order_into(self.root(), &mut result);
        proof {
            lemma_extended_exact(Seq::empty(), self@.in_order(), result@);
        }
        result
    }

    pub fn post_order(&self) -> (result: Vec<T>)
        ensures
            clones_of(self@.post_order(), result@),
            exact_clone::<T>() ==> result@ == self@.post_order(),
    {
        let mut result = Vec::new();
        post_order_into(self.root(), &mut result);
        proof {
            lemma_extended_exact(Seq::empty(), self@.post_order(), result@);
        }
        result
    }
}

} // verus!
