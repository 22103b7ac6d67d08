//! A plain binary tree, built from its level-order listing.

use crate::cloning::{clones_of, exact_clone, lemma_extended_exact};
use crate::tree::shape::Shape;
use crate::tree::walk::{in_order_into, level_order_of, post_order_into, pre_order_into, BinaryNode};
use vstd::prelude::*;

verus! {

pub struct BinaryTree<T> {
    root: Option<Box<BinaryTreeNode<T>>>,
}

pub struct BinaryTreeNode<T> {
    val: T,
    left: Option<Box<BinaryTreeNode<T>>>,
    right: Option<Box<BinaryTreeNode<T>>>,
}

/// The shape of the tree below a link; an absent child is the empty tree.
pub open spec fn link_shape<T>(link: Option<Box<BinaryTreeNode<T>>>) -> Shape<T> {
    match link {
        None => Shape::Leaf,
        Some(node) => node@,
    }
}

/// The tree that a level-order listing describes from place `index` on: the value at that
/// place, above the trees from the places `2 * index + 1` and `2 * index + 2`. A place that
/// holds nothing, or lies behind the end, is the empty tree.
pub open spec fn listed_tree<T>(list: Seq<Option<T>>, index: nat) -> Shape<T>
    decreases
            if index < list.len() {
                list.len() - index
            } else {
                0
            },
{
    if index >= list.len() {
        Shape::Leaf
    } else {
        match list[index as int] {
            None => Shape::Leaf,
            Some(val) => Shape::join(
                listed_tree(list, 2 * index + 1),
                val,
                listed_tree(list, 2 * index + 2),
            ),
        }
    }
}

/// `copy` has the form of `source`, and holds at each node a clone of the key there.
pub open spec fn cloned_shape<T: Clone>(source: Shape<T>, copy: Shape<T>) -> bool
    decreases source,
{
    match source {
        Shape::Leaf => copy is Leaf,
        Shape::Node { left, val, right } => {
            &&& copy is Node
            &&& cloned(val, copy->val)
            &&& cloned_shape(*left, *copy->left)
            &&& cloned_shape(*right, *copy->right)
        },
    }
}

/// Where clones are exact, a tree of clones is the tree itself.
pub proof fn lemma_cloned_shape_exact<T: Clone>(source: Shape<T>, copy: Shape<T>)
    requires
        exact_clone::<T>(),
        cloned_shape(source, copy),
    ensures
        copy == source,
    decreases source,
{
    match source {
        Shape::Leaf => {},
        Shape::Node { left, val, right } => {
            lemma_cloned_shape_exact(*left, *copy->left);
            lemma_cloned_shape_exact(*right, *copy->right);
        },
    }
}

impl<T> View for BinaryTreeNode<T> {
    type V = Shape<T>;

    open spec fn view(&self) -> Shape<T> {
        self.shape()
    }
}

impl<T> View for BinaryTree<T> {
    type V = Shape<T>;

    open spec fn view(&self) -> Shape<T> {
        self.shape()
    }
}

/// The shape of a node is made of its key and the shapes of its children.
proof fn lemma_node_shape<T>(node: BinaryTreeNode<T>)
    ensures
        node@ == Shape::join(link_shape(node.left), node.val, link_shape(node.right)),
{
}

impl<T> BinaryTreeNode<T> {
    /// The shape of the tree below this node, the node included.
    pub closed spec fn shape(&self) -> Shape<T>
        decreases self,
    {
        Shape::join(
            match self.left {
                None => Shape::Leaf,
                Some(node) => node.shape(),
            },
            self.val,
            match self.right {
                None => Shape::Leaf,
                Some(node) => node.shape(),
            },
        )
    }

    fn new(val: T) -> (node: Box<Self>)
        ensures
            node@ == Shape::single(val),
            node.val == val,
            node.left.is_none(),
            node.right.is_none(),
    {
        Box::new(Self { val, left: None, right: None })
    }

    /// The key of this node.
    pub fn val(&self) -> (r: &T)
        ensures
            self@ matches Shape::Node { val, .. } && *r == val,
    {
        &self.val
    }

    /// The left child, if there is one.
    pub fn left(&self) -> (r: Option<&BinaryTreeNode<T>>)
        ensures
            self@ matches Shape::Node { left, .. } && match r {
                None => *left == Shape::<T>::Leaf,
                Some(node) => *left == node@,
            },
    {
        match &self.left {
            None => None,
            Some(node) => Some(&**node),
        }
    }

    /// The right child, if there is one.
    pub fn right(&self) -> (r: Option<&BinaryTreeNode<T>>)
        ensures
            self@ matches Shape::Node { right, .. } && match r {
                None => *right == Shape::<T>::Leaf,
                Some(node) => *right == node@,
            },
    {
        match &self.right {
            None => None,
            Some(node) => Some(&**node),
        }
    }

    /// The left child, to be changed in place.
    pub fn left_mut(&mut self) -> (r: Option<&mut BinaryTreeNode<T>>)
        ensures
            old(self)@ matches Shape::Node { left, val, right } && match r {
                None => *left == Shape::<T>::Leaf && *final(self) == *old(self),
                Some(node) => *left == node@ && final(self)@ == Shape::join(
                    final(node)@,
                    val,
                    *right,
                ),
            },
    {
        match &mut self.left {
            None => None,
            Some(node) => Some(&mut **node),
        }
    }

    /// The right child, to be changed in place.
    pub fn right_mut(&mut self) -> (r: Option<&mut BinaryTreeNode<T>>)
        ensures
            old(self)@ matches Shape::Node { left, val, right } && match r {
                None => *right == Shape::<T>::Leaf && *final(self) == *old(self),
                Some(node) => *right == node@ && final(self)@ == Shape::join(
                    *left,
                    val,
                    final(node)@,
                ),
            },
    {
        match &mut self.right {
            None => None,
            Some(node) => Some(&mut **node),
        }
    }
}

impl<T> BinaryNode for BinaryTreeNode<T> {
    type Key = T;

    open spec fn node_shape(&self) -> Shape<T> {
        self.shape()
    }

    fn key(&self) -> (r: &T) {
        self.val()
    }

    fn left_child(&self) -> (r: Option<&Self>) {
        self.left()
    }

    fn right_child(&self) -> (r: Option<&Self>) {
        self.right()
    }
}

impl<T> BinaryTree<T> {
    /// The shape of the whole tree.
    pub closed spec fn shape(&self) -> Shape<T> {
        link_shape(self.root)
    }
}

impl<T: Clone> BinaryTree<T> {
    /// The tree that the level-order listing `v` describes.
    pub fn from_vec(v: Vec<Option<T>>) -> (tree: Self)
        ensures
            cloned_shape(listed_tree(v@, 0), tree@),
            exact_clone::<T>() ==> tree@ == listed_tree(v@, 0),
    {
        let tree = Self { root: Self::_from_vec(&v, 0) };
        proof {
            if exact_clone::<T>() {
                lemma_cloned_shape_exact(listed_tree(v@, 0), tree@);
            }
        }
        tree
    }

    fn _from_vec(v: &Vec<Option<T>>, index: usize) -> (r: Option<Box<BinaryTreeNode<T>>>)
        ensures
            cloned_shape(listed_tree(v@, index as nat), link_shape(r)),
        decreases
                if index < v@.len() {
                    v@.len() - index
                } else {
                    0
                },
    {
        if index >= v.len() {
            return None;
        }
        match &v[index] {
            None => None,
            Some(val) => {
                let key = val.clone();
                assert(cloned(*val, key));
                let mut node = BinaryTreeNode::new(key);
                if index <= (usize::MAX - 2) / 2 {
                    node.left = Self::_from_vec(v, index * 2 + 1);
                    node.right = Self::_from_vec(v, index * 2 + 2);
                } else {
                    assert(listed_tree(v@, (2 * index + 1) as nat) == Shape::<T>::Leaf);
                    assert(listed_tree(v@, (2 * index + 2) as nat) == Shape::<T>::Leaf);
                }
                proof {
                    lemma_node_shape(*node);
                    let nat_index = index as nat;
                    let source = listed_tree(v@, nat_index);
                    assert(source == Shape::join(
                        listed_tree(v@, 2 * nat_index + 1),
                        *val,
                        listed_tree(v@, 2 * nat_index + 2),
                    ));
                    assert(cloned_shape(*source->left, *node@->left));
                    assert(cloned_shape(*source->right, *node@->right));
                }
                Some(node)
            },
        }
    }

    /// Puts a node with `val` between `root` and its left subtree.
    pub fn insert_left(root: &mut BinaryTreeNode<T>, val: T)
        ensures
            old(root)@ matches Shape::Node { left, val: key, right } && final(root)@
                == Shape::join(Shape::join(*left, val, Shape::Leaf), key, *right),
    {
        let mut node = BinaryTreeNode::new(val);
        node.left = root.left.take();
        proof {
            lemma_node_shape(*node);
        }
        root.left = Some(node);
    }

    /// Puts a node with `val` between `root` and its right subtree.
    pub fn insert_right(root: &mut BinaryTreeNode<T>, val: T)
        ensures
            old(root)@ matches Shape::Node { left, val: key, right } && final(root)@
                == Shape::join(*left, key, Shape::join(Shape::Leaf, val, *right)),
    {
        let mut node = BinaryTreeNode::new(val);
        node.right = root.right.take();
        proof {
            lemma_node_shape(*node);
        }
        root.right = Some(node);
    }

    /// The root node, if the tree is not empty.
    pub fn root(&self) -> (r: Option<&BinaryTreeNode<T>>)
        ensures
            match r {
                None => self@ == Shape::<T>::Leaf,
                Some(node) => self@ == node@,
            },
    {
        match &self.root {
            None => None,
            Some(node) => Some(&**node),
        }
    }

    /// The root node, to be changed in place.
    pub fn root_mut(&mut self) -> (r: Option<&mut BinaryTreeNode<T>>)
        ensures
            match r {
                None => old(self)@ == Shape::<T>::Leaf && *final(self) == *old(self),
                Some(node) => old(self)@ == node@ && final(self)@ == final(node)@,
            },
    {
        match &mut self.root {
            None => None,
            Some(node) => Some(&mut **node),
        }
    }

    pub fn level_order(&self) -> (result: Vec<T>)
        ensures
            clones_of(self@.level_order(), result@),
            exact_clone::<T>() ==> result@ == self@.level_order(),
    {
        level_order_of(self.root())
    }

    pub fn pre_order(&self) -> (result: Vec<T>)
        ensures
            clones_of(self@.pre_order(), result@),
            exact_clone::<T>() ==> result@ == self@.pre_order(),
    {
        let mut result = Vec::new();
        pre_order_into(self.root(), &mut result);
        proof {
            lemma_extended_exact(Seq::empty(), self@.pre_order(), result@);
        }
        result
    }

    pub fn in_order(&self) -> (result: Vec<T>)
        ensures
            clones_of(self@.in_order(), result@),
            exact_clone::<T>() ==> result@ == self@.in_order(),
    {
        let mut result = Vec::new();
        in_order_into(self.root(), &mut result);
        proof {
            lemma_extended_exact(Seq::empty(), self@.in_order(), result@);
        }
        result
    }

    pub fn post_order(&self) -> (result: Vec<T>)
        ensures
            clones_of(self@.post_order(), result@),
            exact_clone::<T>() ==> result@ == self@.post_order(),
    {
        let mut result = Vec::new();
        post_order_into(self.root(), &mut result);
        proof {
            lemma_extended_exact(Seq::empty(), self@.post_order(), result@);
        }
        result
    }
}

} // verus!
