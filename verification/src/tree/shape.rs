//! The mathematical shape of a binary tree, and what the trees of this crate say about it.

use crate::order::{lemma_lt_irreflexive, lemma_lt_transitive, lt, total_order};
use vstd::prelude::*;

verus! {

/// A binary tree as a value: either nothing, or a key between two subtrees.
pub enum Shape<T> {
    Leaf,
    Node { left: Box<Shape<T>>, val: T, right: Box<Shape<T>> },
}

/// The larger of two integers.
pub open spec fn max_int(a: int, b: int) -> int {
    if a >= b {
        a
    } else {
        b
    }
}

/// Every element of `s` is strictly below the next ones.
pub open spec fn increasing<T: Ord>(s: Seq<T>) -> bool {
    forall|i: int, j: int| 0 <= i < j < s.len() ==> lt(#[trigger] s[i], #[trigger] s[j])
}

/// Every element of `s` is strictly below `v`.
pub open spec fn all_below<T: Ord>(s: Seq<T>, v: T) -> bool {
    forall|i: int| 0 <= i < s.len() ==> lt(#[trigger] s[i], v)
}

/// Every element of `s` is strictly above `v`.
pub open spec fn all_above<T: Ord>(s: Seq<T>, v: T) -> bool {
    forall|i: int| 0 <= i < s.len() ==> lt(v, #[trigger] s[i])
}

impl<T> Shape<T> {
    /// A tree of one key.
    pub open spec fn single(val: T) -> Shape<T> {
        Shape::Node { left: Box::new(Shape::Leaf), val, right: Box::new(Shape::Leaf) }
    }

    /// A tree made of a key and its two subtrees.
    pub open spec fn join(left: Shape<T>, val: T, right: Shape<T>) -> Shape<T> {
        Shape::Node { left: Box::new(left), val, right: Box::new(right) }
    }

    /// The number of edges on the longest path down from the root; `-1` for the empty tree.
    pub open spec fn height(self) -> int
        decreases self,
    {
        match self {
            Shape::Leaf => -1,
            Shape::Node { left, val, right } => 1 + max_int(left.height(), right.height()),
        }
    }

    /// The number of keys.
    pub open spec fn size(self) -> nat
        decreases self,
    {
        match self {
            Shape::Leaf => 0,
            Shape::Node { left, val, right } => left.size() + 1 + right.size(),
        }
    }

    /// Height of the left subtree minus height of the right one; `0` for the empty tree.
    pub open spec fn balance(self) -> int {
        match self {
            Shape::Leaf => 0,
            Shape::Node { left, val, right } => left.height() - right.height(),
        }
    }

    /// At every node the two subtrees differ in height by at most one.
    pub open spec fn balanced(self) -> bool
        decreases self,
    {
        match self {
            Shape::Leaf => true,
            Shape::Node { left, val, right } => {
                &&& -1 <= left.height() - right.height() <= 1
                &&& left.balanced()
                &&& right.balanced()
            },
        }
    }

    /// Both subtrees of the root are balanced and differ in height by at most two: what one
    /// insertion or removal below a balanced root leaves.
    pub open spec fn nearly_balanced(self) -> bool {
        match self {
            Shape::Leaf => true,
            Shape::Node { left, val, right } => {
                &&& -2 <= left.height() - right.height() <= 2
                &&& left.balanced()
                &&& right.balanced()
            },
        }
    }

    /// Left subtree, key, right subtree.
    pub open spec fn in_order(self) -> Seq<T>
        decreases self,
    {
        match self {
            Shape::Leaf => Seq::empty(),
            Shape::Node { left, val, right } => left.in_order().push(val) + right.in_order(),
        }
    }

    /// Key, left subtree, right subtree.
    pub open spec fn pre_order(self) -> Seq<T>
        decreases self,
    {
        match self {
            Shape::Leaf => Seq::empty(),
            Shape::Node { left, val, right } => seq![val] + left.pre_order() + right.pre_order(),
        }
    }

    /// Left subtree, right subtree, key.
    pub open spec fn post_order(self) -> Seq<T>
        decreases self,
    {
        match self {
            Shape::Leaf => Seq::empty(),
            Shape::Node { left, val, right } => (left.post_order() + right.post_order()).push(val),
        }
    }

    /// `v` is one of the keys.
    pub open spec fn contains(self, v: T) -> bool {
        self.in_order().contains(v)
    }

    /// The keys as a set.
    pub open spec fn keys(self) -> Set<T> {
        self.in_order().to_set()
    }

    /// `sub` is this tree or the tree below one of its nodes.
    pub open spec fn has_subtree(self, sub: Shape<T>) -> bool
        decreases self,
    {
        self == sub || match self {
            Shape::Leaf => false,
            Shape::Node { left, val, right } => left.has_subtree(sub) || right.has_subtree(sub),
        }
    }

    /// The tree after a right rotation at the root: the left child comes up, the old root goes
    /// down to the right and takes over the left child's right subtree. A tree without a left
    /// child stays as it is.
    pub open spec fn rotated_right(self) -> Shape<T> {
        match self {
            Shape::Node { left, val, right } => match *left {
                Shape::Node { left: a, val: x, right: b } => Shape::join(
                    *a,
                    x,
                    Shape::join(*b, val, *right),
                ),
                Shape::Leaf => self,
            },
            Shape::Leaf => self,
        }
    }

    /// The mirror image of `rotated_right`.
    pub open spec fn rotated_left(self) -> Shape<T> {
        match self {
            Shape::Node { left, val, right } => match *right {
                Shape::Node { left: b, val: y, right: c } => Shape::join(
                    Shape::join(*left, val, *b),
                    y,
                    *c,
                ),
                Shape::Leaf => self,
            },
            Shape::Leaf => self,
        }
    }

    /// The tree after rebalancing at the root: a left-heavy root is rotated right, after its
    /// left child was rotated left if that child leans right; a right-heavy root likewise in
    /// mirror image; any other root stays.
    pub open spec fn rebalanced(self) -> Shape<T> {
        match self {
            Shape::Node { left, val, right } => {
                if self.balance() > 1 {
                    if left.balance() >= 0 {
                        self.rotated_right()
                    } else {
                        Shape::join(left.rotated_left(), val, *right).rotated_right()
                    }
                } else if self.balance() < -1 {
                    if right.balance() <= 0 {
                        self.rotated_left()
                    } else {
                        Shape::join(*left, val, right.rotated_right()).rotated_left()
                    }
                } else {
                    self
                }
            },
            Shape::Leaf => self,
        }
    }

    /// A balanced tree is nearly balanced.
    pub proof fn lemma_balanced_nearly(self)
        requires
            self.balanced(),
        ensures
            self.nearly_balanced(),
    {
        match self {
            Shape::Leaf => {},
            Shape::Node { left, val, right } => {},
        }
    }

    /// A rotation keeps the in-order sequence.
    pub proof fn lemma_rotation_in_order(self)
        ensures
            self.rotated_right().in_order() == self.in_order(),
            self.rotated_left().in_order() == self.in_order(),
    {
        reveal_with_fuel(Shape::in_order, 3);
        match self {
            Shape::Node { left, val, right } => {
                match *left {
                    Shape::Node { left: a, val: x, right: b } => {
                        assert(self.rotated_right().in_order() =~= self.in_order());
                    },
                    Shape::Leaf => {},
                }
                match *right {
                    Shape::Node { left: b, val: y, right: c } => {
                        assert(self.rotated_left().in_order() =~= self.in_order());
                    },
                    Shape::Leaf => {},
                }
            },
            Shape::Leaf => {},
        }
    }

    /// Rebalancing keeps the in-order sequence.
    pub proof fn lemma_rebalanced_in_order(self)
        ensures
            self.rebalanced().in_order() == self.in_order(),
    {
        match self {
            Shape::Node { left, val, right } => {
                self.lemma_rotation_in_order();
                left.lemma_rotation_in_order();
                right.lemma_rotation_in_order();
                Shape::join(left.rotated_left(), val, *right).lemma_rotation_in_order();
                Shape::join(*left, val, right.rotated_right()).lemma_rotation_in_order();
            },
            Shape::Leaf => {},
        }
    }

    /// Rebalancing repairs a root whose subtrees are balanced and differ in height by at most
    /// two: the result is balanced everywhere, and as high as before or lower by one. A tree
    /// that is already balanced stays as it is.
    pub proof fn lemma_rebalanced_balanced(self)
        requires
            self.nearly_balanced(),
        ensures
            self.rebalanced().balanced(),
            self.height() - 1 <= self.rebalanced().height() <= self.height(),
            self.balanced() ==> self.rebalanced() == self,
            -1 <= self.balance() <= 1 ==> self.rebalanced() == self,
            self matches Shape::Node { left, right, .. } ==> {
                &&& self.balance() > 1 && left.balance() < 0 ==> left.rotated_left().height()
                    == left.height()
                &&& self.balance() < -1 && right.balance() > 0 ==> right.rotated_right().height()
                    == right.height()
            },
    {
        match self {
            Shape::Node { left, val, right } => {
                left.lemma_height_bounds();
                right.lemma_height_bounds();
                if self.balance() > 1 {
                    match *left {
                        Shape::Node { left: a, val: x, right: b } => {
                            a.lemma_height_bounds();
                            b.lemma_height_bounds();
                            if left.balance() >= 0 {
                                let low = Shape::join(*b, val, *right);
                                let top = Shape::join(*a, x, low);
                                assert(self.rebalanced() == top);
                                assert(low.height() == 1 + max_int(b.height(), right.height()));
                                assert(low.balanced());
                                assert(top.height() == 1 + max_int(a.height(), low.height()));
                                assert(top.balanced());
                            } else {
                                match *b {
                                    Shape::Node { left: b1, val: y, right: b2 } => {
                                        b1.lemma_height_bounds();
                                        b2.lemma_height_bounds();
                                        assert(a.balanced() && b.balanced());
                                        assert(b1.balanced() && b2.balanced());
                                        assert(b.height() == 1 + max_int(b1.height(), b2.height()));
                                        assert(left.height() == 1 + max_int(a.height(), b.height()));
                                        let l2 = Shape::join(*a, x, *b1);
                                        let r2 = Shape::join(*b2, val, *right);
                                        let top = Shape::join(l2, y, r2);
                                        assert(left.rotated_left() == Shape::join(l2, y, *b2));
                                        assert(self.rebalanced() == top);
                                        assert(l2.height() == 1 + max_int(a.height(), b1.height()));
                                        assert(r2.height() == 1 + max_int(
                                            b2.height(),
                                            right.height(),
                                        ));
                                        assert(l2.balanced());
                                        assert(r2.balanced());
                                        assert(top.height() == 1 + max_int(l2.height(), r2.height()));
                                        assert(top.balanced());
                                    },
                                    Shape::Leaf => {},
                                }
                            }
                        },
                        Shape::Leaf => {},
                    }
                } else if self.balance() < -1 {
                    match *right {
                        Shape::Node { left: b, val: y, right: c } => {
                            b.lemma_height_bounds();
                            c.lemma_height_bounds();
                            if right.balance() <= 0 {
                                let low = Shape::join(*left, val, *b);
                                let top = Shape::join(low, y, *c);
                                assert(self.rebalanced() == top);
                                assert(low.height() == 1 + max_int(left.height(), b.height()));
                                assert(low.balanced());
                                assert(top.height() == 1 + max_int(low.height(), c.height()));
                                assert(top.balanced());
                            } else {
                                match *b {
                                    Shape::Node { left: b1, val: x, right: b2 } => {
                                        b1.lemma_height_bounds();
                                        b2.lemma_height_bounds();
                                        assert(b.balanced() && c.balanced());
                                        assert(b1.balanced() && b2.balanced());
                                        assert(b.height() == 1 + max_int(b1.height(), b2.height()));
                                        assert(right.height() == 1 + max_int(
                                            b.height(),
                                            c.height(),
                                        ));
                                        let l2 = Shape::join(*left, val, *b1);
                                        let r2 = Shape::join(*b2, y, *c);
                                        let top = Shape::join(l2, x, r2);
                                        assert(right.rotated_right() == Shape::join(*b1, x, r2));
                                        assert(self.rebalanced() == top);
                                        assert(l2.height() == 1 + max_int(
                                            left.height(),
                                            b1.height(),
                                        ));
                                        assert(r2.height() == 1 + max_int(b2.height(), c.height()));
                                        assert(l2.balanced());
                                        assert(r2.balanced());
                                        assert(top.height() == 1 + max_int(l2.height(), r2.height()));
                                        assert(top.balanced());
                                    },
                                    Shape::Leaf => {},
                                }
                            }
                        },
                        Shape::Leaf => {},
                    }
                }
            },
            Shape::Leaf => {},
        }
    }

    /// The number of keys is the length of the in-order sequence.
    pub proof fn lemma_size_in_order(self)
        ensures
            self.in_order().len() == self.size(),
        decreases self,
    {
        match self {
            Shape::Leaf => {},
            Shape::Node { left, val, right } => {
                left.lemma_size_in_order();
                right.lemma_size_in_order();
            },
        }
    }

    /// A key of a node is its own, or one of a subtree.
    pub proof fn lemma_contains_join(left: Shape<T>, val: T, right: Shape<T>, v: T)
        ensures
            Shape::join(left, val, right).contains(v) <==> (left.contains(v) || v == val
                || right.contains(v)),
    {
        let a = left.in_order();
        let b = right.in_order();
        let s = Shape::join(left, val, right).in_order();
        assert(s == a.push(val) + b);
        if left.contains(v) {
            let i = choose|i: int| 0 <= i < a.len() && a[i] == v;
            assert(s[i] == v);
        }
        if v == val {
            assert(s[a.len() as int] == v);
        }
        if right.contains(v) {
            let i = choose|i: int| 0 <= i < b.len() && b[i] == v;
            assert(s[a.len() + 1 + i] == v);
        }
        if s.contains(v) {
            let i = choose|i: int| 0 <= i < s.len() && s[i] == v;
            if i < a.len() {
                assert(a[i] == v);
            } else if i > a.len() {
                assert(b[i - a.len() - 1] == v);
            }
        }
    }

    /// The two subtrees of a node are subtrees of it.
    pub proof fn lemma_has_subtree_join(left: Shape<T>, val: T, right: Shape<T>)
        ensures
            Shape::join(left, val, right).has_subtree(left),
            Shape::join(left, val, right).has_subtree(right),
    {
        assert(left.has_subtree(left));
        assert(right.has_subtree(right));
    }

    /// A subtree of a subtree is a subtree.
    pub proof fn lemma_has_subtree_transitive(self, mid: Shape<T>, sub: Shape<T>)
        requires
            self.has_subtree(mid),
            mid.has_subtree(sub),
        ensures
            self.has_subtree(sub),
        decreases self,
    {
        if self != mid {
            match self {
                Shape::Leaf => {},
                Shape::Node { left, val, right } => {
                    if left.has_subtree(mid) {
                        left.lemma_has_subtree_transitive(mid, sub);
                    } else {
                        right.lemma_has_subtree_transitive(mid, sub);
                    }
                },
            }
        }
    }

    /// The keys of a node are its own and those of its subtrees; the empty tree has none.
    pub proof fn lemma_keys_join(left: Shape<T>, val: T, right: Shape<T>)
        ensures
            Shape::join(left, val, right).keys() == left.keys().union(right.keys()).insert(val),
            Shape::<T>::Leaf.keys() == Set::<T>::empty(),
            Shape::single(val).keys() == Set::<T>::empty().insert(val),
    {
        let whole = Shape::join(left, val, right).keys();
        let parts = left.keys().union(right.keys()).insert(val);
        assert forall|x: T| whole.contains(x) <==> parts.contains(x) by {
            Shape::lemma_contains_join(left, val, right, x);
        }
        assert(whole =~= parts);
        assert(Shape::<T>::Leaf.in_order() =~= Seq::<T>::empty());
        assert(Shape::<T>::Leaf.keys() =~= Set::<T>::empty());
        assert forall|x: T| Shape::single(val).keys().contains(x) <==> x == val by {
            Shape::lemma_contains_join(Shape::Leaf, val, Shape::Leaf, x);
        }
        assert(Shape::single(val).keys() =~= Set::<T>::empty().insert(val));
    }

    /// The height of a tree is at least `-1`, and below its number of keys.
    pub proof fn lemma_height_bounds(self)
        ensures
            -1 <= self.height() < self.size(),
        decreases self,
    {
        match self {
            Shape::Leaf => {},
            Shape::Node { left, val, right } => {
                left.lemma_height_bounds();
                right.lemma_height_bounds();
            },
        }
    }
}

impl<T: Ord> Shape<T> {
    /// The in-order sequence is strictly increasing: the search-tree order.
    pub open spec fn ordered(self) -> bool {
        increasing(self.in_order())
    }

    /// The search tree with `val` put in as a leaf where the search for it ends; a tree that
    /// has the key stays as it is.
    pub open spec fn with_key(self, val: T) -> Shape<T>
        decreases self,
    {
        match self {
            Shape::Leaf => Shape::single(val),
            Shape::Node { left, val: key, right } => {
                if lt(key, val) {
                    Shape::join(*left, key, right.with_key(val))
                } else if lt(val, key) {
                    Shape::join(left.with_key(val), key, *right)
                } else {
                    self
                }
            },
        }
    }

    /// The search tree with `val` taken out: a node with one child at most gives way to that
    /// child; a node with two children takes the smallest key of its right subtree, which
    /// leaves that subtree. A tree that does not have the key stays as it is.
    pub open spec fn without_key(self, val: T) -> Shape<T>
        decreases self,
    {
        match self {
            Shape::Leaf => Shape::Leaf,
            Shape::Node { left, val: key, right } => {
                if lt(key, val) {
                    Shape::join(*left, key, right.without_key(val))
                } else if lt(val, key) {
                    Shape::join(left.without_key(val), key, *right)
                } else if *left is Leaf {
                    *right
                } else if *right is Leaf {
                    *left
                } else {
                    let successor = right.in_order().first();
                    Shape::join(*left, successor, right.without_key(successor))
                }
            },
        }
    }

    /// The balanced search tree with `val` put in: as `with_key`, and every node on the way
    /// back up from the new leaf is rebalanced.
    pub open spec fn with_key_balanced(self, val: T) -> Shape<T>
        decreases self,
    {
        match self {
            Shape::Leaf => Shape::single(val),
            Shape::Node { left, val: key, right } => {
                if lt(key, val) {
                    Shape::join(*left, key, right.with_key_balanced(val)).rebalanced()
                } else if lt(val, key) {
                    Shape::join(left.with_key_balanced(val), key, *right).rebalanced()
                } else {
                    self
                }
            },
        }
    }

    /// The balanced search tree with `val` taken out: as `without_key`, and every node on
    /// the way back up from the place of the change is rebalanced.
    pub open spec fn without_key_balanced(self, val: T) -> Shape<T>
        decreases self,
    {
        match self {
            Shape::Leaf => Shape::Leaf,
            Shape::Node { left, val: key, right } => {
                if lt(key, val) {
                    Shape::join(*left, key, right.without_key_balanced(val)).rebalanced()
                } else if lt(val, key) {
                    Shape::join(left.without_key_balanced(val), key, *right).rebalanced()
                } else if *left is Leaf {
                    right.rebalanced()
                } else if *right is Leaf {
                    left.rebalanced()
                } else {
                    let successor = right.in_order().first();
                    Shape::join(
                        *left,
                        successor,
                        right.without_key_balanced(successor),
                    ).rebalanced()
                }
            },
        }
    }

    /// A node is in search-tree order exactly when both subtrees are, every key on the left is
    /// below the node's key and every key on the right is above it.
    pub proof fn lemma_ordered_join(left: Shape<T>, val: T, right: Shape<T>)
        requires
            total_order::<T>(),
        ensures
            Shape::join(left, val, right).ordered() <==> {
                &&& left.ordered()
                &&& right.ordered()
                &&& all_below(left.in_order(), val)
                &&& all_above(right.in_order(), val)
            },
    {
        let a = left.in_order();
        let b = right.in_order();
        let s = Shape::join(left, val, right).in_order();
        assert(s == a.push(val) + b);
        let n = a.len() as int;
        assert(s[n] == val);
        if increasing(s) {
            assert forall|i: int, j: int| 0 <= i < j < a.len() implies lt(
                #[trigger] a[i],
                #[trigger] a[j],
            ) by {
                assert(s[i] == a[i] && s[j] == a[j]);
            }
            assert forall|i: int, j: int| 0 <= i < j < b.len() implies lt(
                #[trigger] b[i],
                #[trigger] b[j],
            ) by {
                assert(s[n + 1 + i] == b[i] && s[n + 1 + j] == b[j]);
            }
            assert forall|i: int| 0 <= i < a.len() implies lt(#[trigger] a[i], val) by {
                assert(s[i] == a[i]);
            }
            assert forall|i: int| 0 <= i < b.len() implies lt(val, #[trigger] b[i]) by {
                assert(s[n + 1 + i] == b[i]);
            }
        }
        if left.ordered() && right.ordered() && all_below(a, val) && all_above(b, val) {
            assert forall|i: int, j: int| 0 <= i < j < s.len() implies lt(
                #[trigger] s[i],
                #[trigger] s[j],
            ) by {
                if j < n {
                    assert(s[i] == a[i] && s[j] == a[j]);
                } else if j == n {
                    assert(s[i] == a[i]);
                } else if i == n {
                    assert(s[j] == b[j - n - 1]);
                } else if i < n {
                    assert(s[i] == a[i]);
                    assert(s[j] == b[j - n - 1]);
                    lemma_lt_transitive(a[i], val, b[j - n - 1]);
                } else {
                    assert(s[i] == b[i - n - 1] && s[j] == b[j - n - 1]);
                }
            }
        }
    }
}

/// What a search for `val` in a search tree gives: nothing when the key is absent, else the
/// subtree whose root holds it.
pub open spec fn found<T: Ord>(tree: Shape<T>, val: T, result: Option<Shape<T>>) -> bool {
    match result {
        None => !tree.contains(val),
        Some(sub) => {
            &&& tree.contains(val)
            &&& tree.has_subtree(sub)
            &&& sub matches Shape::Node { val: v, .. } && v == val
        },
    }
}

/// What inserting `val` makes of a search tree: the key is added to the keys, a tree that had
/// it already stays as it is, and the height grows by one at most.
pub open spec fn inserted<T: Ord>(pre: Shape<T>, post: Shape<T>, val: T) -> bool {
    &&& post.keys() == pre.keys().insert(val)
    &&& pre.contains(val) ==> post == pre
    &&& !pre.contains(val) ==> post.size() == pre.size() + 1
    &&& pre.height() <= post.height() <= pre.height() + 1
}

/// What removing `val` makes of a search tree: the key leaves the keys, a tree that did not
/// have it stays as it is, and the height shrinks by one at most.
pub open spec fn removed<T: Ord>(pre: Shape<T>, post: Shape<T>, val: T) -> bool {
    &&& post.keys() == pre.keys().remove(val)
    &&& !pre.contains(val) ==> post == pre
    &&& pre.contains(val) ==> post.size() + 1 == pre.size()
    &&& pre.height() - 1 <= post.height() <= pre.height()
}

/// Inserting a key and then removing it gives back the keys that were there before, where
/// the key was not among them.
pub proof fn lemma_insert_then_remove<T: Ord>(
    start: Shape<T>,
    grown: Shape<T>,
    back: Shape<T>,
    val: T,
)
    requires
        !start.contains(val),
        inserted(start, grown, val),
        removed(grown, back, val),
    ensures
        back.keys() == start.keys(),
{
    assert(back.keys() =~= start.keys());
}

/// Inserting a key a second time changes nothing.
pub proof fn lemma_insert_twice<T: Ord>(start: Shape<T>, once: Shape<T>, twice: Shape<T>, val: T)
    requires
        inserted(start, once, val),
        inserted(once, twice, val),
    ensures
        twice == once,
{
    assert(once.keys().contains(val));
}

/// Removing an absent key changes nothing, however often it is done.
pub proof fn lemma_remove_absent_twice<T: Ord>(
    start: Shape<T>,
    once: Shape<T>,
    twice: Shape<T>,
    val: T,
)
    requires
        !start.contains(val),
        removed(start, once, val),
        removed(once, twice, val),
    ensures
        once == start,
        twice == start,
{
}

/// In a balanced tree the two subtrees of every node, however deep, differ in height by at
/// most one.
pub proof fn lemma_balanced_everywhere<T>(tree: Shape<T>, sub: Shape<T>)
    requires
        tree.balanced(),
        tree.has_subtree(sub),
    ensures
        sub.balanced(),
        -1 <= sub.balance() <= 1,
    decreases tree,
{
    if tree == sub {
        match sub {
            Shape::Leaf => {},
            Shape::Node { .. } => {},
        }
    } else {
        match tree {
            Shape::Leaf => {},
            Shape::Node { left, val, right } => {
                if left.has_subtree(sub) {
                    lemma_balanced_everywhere(*left, sub);
                } else {
                    lemma_balanced_everywhere(*right, sub);
                }
            },
        }
    }
}

/// The least number of keys that a balanced tree of a height can have.
pub open spec fn least_size(height: int) -> nat
    decreases
            if height < 0 {
                0
            } else {
                height + 1
            },
{
    if height < 0 {
        0
    } else if height == 0 {
        1
    } else {
        1 + least_size(height - 1) + least_size(height - 2)
    }
}

/// A higher balanced tree needs no fewer keys, and a tree that is higher by two needs more
/// than twice as many.
pub proof fn lemma_least_size_grows(lower: int, higher: int)
    requires
        lower <= higher,
    ensures
        least_size(lower) <= least_size(higher),
        higher >= 1 ==> least_size(higher) >= 2 * least_size(higher - 2) + 1,
    decreases higher - lower,
{
    if lower < higher {
        lemma_least_size_grows(lower, higher - 1);
    }
    if higher >= 1 {
        assert(least_size(higher - 1) >= least_size(higher - 2));
    }
}

/// A balanced tree has at least the least number of keys of its height.
pub proof fn lemma_balanced_size<T>(tree: Shape<T>)
    requires
        tree.balanced(),
    ensures
        tree.size() >= least_size(tree.height()),
    decreases tree,
{
    match tree {
        Shape::Leaf => {},
        Shape::Node { left, val, right } => {
            lemma_balanced_size(*left);
            lemma_balanced_size(*right);
            left.lemma_height_bounds();
            right.lemma_height_bounds();
            let h = tree.height();
            if left.height() >= right.height() {
                lemma_least_size_grows(h - 2, right.height());
            } else {
                lemma_least_size_grows(h - 2, left.height());
            }
        },
    }
}

/// A balanced tree of height `2 * k` or more has at least `2` to the power `k` keys.
pub proof fn lemma_least_size_doubles(k: nat)
    ensures
        least_size(2 * k as int) >= vstd::arithmetic::power2::pow2(k),
    decreases k,
{
    vstd::arithmetic::power2::lemma2_to64();
    if k > 0 {
        lemma_least_size_doubles((k - 1) as nat);
        lemma_least_size_grows(2 * k as int - 2, 2 * k as int);
        vstd::arithmetic::power2::lemma_pow2_unfold(k);
    }
}

/// The height of a balanced tree is logarithmic in its size: with fewer than `2` to the
/// power `k` keys it is below `2 * k`. A balanced tree whose size fits a machine word is
/// lower than 128.
pub proof fn lemma_balanced_height<T>(tree: Shape<T>, k: nat)
    requires
        tree.balanced(),
    ensures
        tree.size() < vstd::arithmetic::power2::pow2(k) ==> tree.height() < 2 * k,
        tree.size() <= usize::MAX ==> tree.height() < 128,
{
    lemma_balanced_size(tree);
    if tree.height() >= 2 * k {
        lemma_least_size_doubles(k);
        lemma_least_size_grows(2 * k as int, tree.height());
    }
    if tree.height() >= 128 {
        lemma_least_size_doubles(64);
        lemma_least_size_grows(128, tree.height());
        vstd::arithmetic::power2::lemma2_to64();
    }
}

/// In a strictly increasing sequence no key occurs twice.
pub proof fn lemma_increasing_no_duplicates<T: Ord>(s: Seq<T>)
    requires
        total_order::<T>(),
        increasing(s),
    ensures
        s.no_duplicates(),
{
    assert forall|i: int, j: int| 0 <= i < s.len() && 0 <= j < s.len() && i != j implies s[i]
        != s[j] by {
        lemma_lt_irreflexive(s[i]);
        if i < j {
            assert(lt(s[i], s[j]));
        } else {
            assert(lt(s[j], s[i]));
        }
    }
}

} // verus!
