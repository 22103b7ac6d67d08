//! Level order: the keys of a tree row by row, and the queue that walks them.

use crate::tree::shape::Shape;
use vstd::prelude::*;

verus! {

/// The tree as a row of its own, or the empty row for the empty tree.
pub open spec fn present<T>(tree: Shape<T>) -> Seq<Shape<T>> {
    match tree {
        Shape::Leaf => Seq::empty(),
        Shape::Node { .. } => seq![tree],
    }
}

/// The number of keys in a row of trees.
pub open spec fn row_size<T>(row: Seq<Shape<T>>) -> nat
    decreases row.len(),
{
    if row.len() == 0 {
        0
    } else {
        row[0].size() + row_size(row.drop_first())
    }
}

/// The keys at the roots of a row of trees, left to right.
pub open spec fn roots<T>(row: Seq<Shape<T>>) -> Seq<T>
    decreases row.len(),
{
    if row.len() == 0 {
        Seq::empty()
    } else {
        match row[0] {
            Shape::Leaf => roots(row.drop_first()),
            Shape::Node { left, val, right } => seq![val] + roots(row.drop_first()),
        }
    }
}

/// The row below a row of trees: the subtrees of its roots, left to right.
pub open spec fn children<T>(row: Seq<Shape<T>>) -> Seq<Shape<T>>
    decreases row.len(),
{
    if row.len() == 0 {
        Seq::empty()
    } else {
        match row[0] {
            Shape::Leaf => children(row.drop_first()),
            Shape::Node { left, val, right } => present(*left) + present(*right) + children(
                row.drop_first(),
            ),
        }
    }
}

/// The keys of a row of trees by depth: the roots, then the rows below in the same way.
pub open spec fn rows_level_order<T>(row: Seq<Shape<T>>) -> Seq<T>
    decreases row_size(row),
{
    if row_size(row) == 0 {
        Seq::empty()
    } else {
        proof {
            lemma_children_size(row);
        }
        roots(row) + rows_level_order(children(row))
    }
}

/// What a first-in-first-out queue of trees gives out: the key of the tree in front, and then
/// what the queue gives out once that tree has left and its subtrees have joined the back.
pub open spec fn queue_order<T>(queue: Seq<Shape<T>>) -> Seq<T>
    decreases row_size(queue), queue.len(),
{
    if queue.len() == 0 {
        Seq::empty()
    } else {
        match queue[0] {
            Shape::Leaf => queue_order(queue.drop_first()),
            Shape::Node { left, val, right } => {
                proof {
                    lemma_row_size_concat(queue.drop_first(), present(*left));
                    lemma_row_size_concat(queue.drop_first() + present(*left), present(*right));
                    lemma_row_size_present(*left);
                    lemma_row_size_present(*right);
                }
                seq![val] + queue_order(queue.drop_first() + present(*left) + present(*right))
            },
        }
    }
}

impl<T> Shape<T> {
    /// The keys by depth, and from left to right within one depth.
    pub open spec fn level_order(self) -> Seq<T> {
        rows_level_order(seq![self])
    }
}

/// A tree as a row has the size of the tree.
pub proof fn lemma_row_size_present<T>(tree: Shape<T>)
    ensures
        row_size(present(tree)) == tree.size(),
{
    reveal_with_fuel(row_size, 2);
    match tree {
        Shape::Leaf => {},
        Shape::Node { .. } => {
            assert(present(tree).drop_first() =~= Seq::<Shape<T>>::empty());
        },
    }
}

/// The size of two rows side by side is the sum of their sizes.
pub proof fn lemma_row_size_concat<T>(a: Seq<Shape<T>>, b: Seq<Shape<T>>)
    ensures
        row_size(a + b) == row_size(a) + row_size(b),
    decreases a.len(),
{
    if a.len() == 0 {
        assert(a + b =~= b);
    } else {
        assert((a + b).drop_first() =~= a.drop_first() + b);
        lemma_row_size_concat(a.drop_first(), b);
    }
}

/// The roots of two rows side by side are the roots of the one, then those of the other.
pub proof fn lemma_roots_concat<T>(a: Seq<Shape<T>>, b: Seq<Shape<T>>)
    ensures
        roots(a + b) == roots(a) + roots(b),
    decreases a.len(),
{
    if a.len() == 0 {
        assert(a + b =~= b);
        assert(roots(a) + roots(b) =~= roots(b));
    } else {
        assert((a + b).drop_first() =~= a.drop_first() + b);
        lemma_roots_concat(a.drop_first(), b);
        assert(roots(a + b) =~= roots(a) + roots(b));
    }
}

/// The row below two rows side by side is the row below the one, then that below the other.
pub proof fn lemma_children_concat<T>(a: Seq<Shape<T>>, b: Seq<Shape<T>>)
    ensures
        children(a + b) == children(a) + children(b),
    decreases a.len(),
{
    if a.len() == 0 {
        assert(a + b =~= b);
        assert(children(a) + children(b) =~= children(b));
    } else {
        assert((a + b).drop_first() =~= a.drop_first() + b);
        lemma_children_concat(a.drop_first(), b);
        assert(children(a + b) =~= children(a) + children(b));
    }
}

/// The row below a row holds every key of the row but its roots.
pub proof fn lemma_children_size<T>(row: Seq<Shape<T>>)
    ensures
        row_size(children(row)) + roots(row).len() == row_size(row),
        row_size(row) > 0 ==> roots(row).len() > 0,
    decreases row.len(),
{
    if row.len() > 0 {
        lemma_children_size(row.drop_first());
        match row[0] {
            Shape::Leaf => {},
            Shape::Node { left, val, right } => {
                lemma_row_size_concat(present(*left), present(*right));
                lemma_row_size_concat(present(*left) + present(*right), children(row.drop_first()));
                lemma_row_size_present(*left);
                lemma_row_size_present(*right);
            },
        }
    }
}

/// A queue whose front part is `a` gives out the roots of `a` first, and goes on as the queue
/// in which the row below `a` has taken the place of `a` at the back.
pub proof fn lemma_queue_front<T>(a: Seq<Shape<T>>, b: Seq<Shape<T>>)
    ensures
        queue_order(a + b) == roots(a) + queue_order(b + children(a)),
    decreases a.len(),
{
    if a.len() == 0 {
        assert(a + b =~= b);
        assert(b + children(a) =~= b);
        assert(roots(a) + queue_order(b) =~= queue_order(b));
    } else {
        let rest = a.drop_first();
        assert((a + b).drop_first() =~= rest + b);
        assert((a + b)[0] == a[0]);
        match a[0] {
            Shape::Leaf => {
                lemma_queue_front(rest, b);
            },
            Shape::Node { left, val, right } => {
                let more = b + present(*left) + present(*right);
                lemma_queue_front(rest, more);
                assert((a + b).drop_first() + present(*left) + present(*right) =~= rest + more);
                assert(more + children(rest) =~= b + children(a));
                assert(seq![val] + (roots(rest) + queue_order(more + children(rest))) =~= roots(a)
                    + queue_order(b + children(a)));
            },
        }
    }
}

/// What one step of the queue does: the key in front goes out, the two subtrees go to the
/// back, and one key fewer is left in the queue.
pub proof fn lemma_queue_step<T>(queue: Seq<Shape<T>>)
    requires
        queue.len() > 0,
        queue[0] is Node,
    ensures
        ({
            let next = queue.drop_first() + present(*queue[0]->left) + present(*queue[0]->right);
            &&& queue_order(queue) == seq![queue[0]->val] + queue_order(next)
            &&& row_size(next) + 1 == row_size(queue)
        }),
{
    let left = *queue[0]->left;
    let right = *queue[0]->right;
    lemma_row_size_concat(queue.drop_first(), present(left));
    lemma_row_size_concat(queue.drop_first() + present(left), present(right));
    lemma_row_size_present(left);
    lemma_row_size_present(right);
}

/// A queue of empty trees gives out nothing.
proof fn lemma_queue_of_nothing<T>(queue: Seq<Shape<T>>)
    requires
        row_size(queue) == 0,
    ensures
        queue_order(queue) == Seq::<T>::empty(),
    decreases queue.len(),
{
    if queue.len() > 0 {
        lemma_queue_of_nothing(queue.drop_first());
    }
}

/// The queue gives the keys out in level order.
pub proof fn lemma_queue_order_is_level_order<T>(row: Seq<Shape<T>>)
    ensures
        queue_order(row) == rows_level_order(row),
    decreases row_size(row),
{
    if row_size(row) == 0 {
        lemma_queue_of_nothing(row);
    } else {
        lemma_children_size(row);
        lemma_queue_front(row, Seq::empty());
        assert(row + Seq::<Shape<T>>::empty() =~= row);
        assert(Seq::<Shape<T>>::empty() + children(row) =~= children(row));
        lemma_queue_order_is_level_order(children(row));
    }
}

} // verus!
