//! A binary max-heap kept in an array: the largest value lies at the root.

use crate::order::{le, lemma_le_order, less, total_order};
use crate::permutation::{lemma_swapped_permutation, permutation, swapped};
use vstd::prelude::*;

verus! {

pub struct MaxHeap<T> {
    max_heap: Vec<T>,
}

/// The place of the parent of place `i`.
pub open spec fn parent_of(i: int) -> int {
    (i - 1) / 2
}

/// From place `start` on, no value is below one of its children.
pub open spec fn heap_from<T: Ord>(s: Seq<T>, start: int) -> bool {
    forall|j: int| 0 < j < s.len() && parent_of(j) >= start ==> le(#[trigger] s[j], s[parent_of(j)])
}

/// No value is below one of its children.
pub open spec fn heap_order<T: Ord>(s: Seq<T>) -> bool {
    heap_from(s, 0)
}

/// `v` is not below any value of `s`.
pub open spec fn is_max<T: Ord>(s: Seq<T>, v: T) -> bool {
    forall|k: int| 0 <= k < s.len() ==> le(#[trigger] s[k], v)
}

/// In a heap the value at the root is not below any other.
pub proof fn lemma_root_is_max<T: Ord>(s: Seq<T>, k: int)
    requires
        total_order::<T>(),
        heap_order(s),
        0 <= k < s.len(),
    ensures
        le(s[k], s[0]),
    decreases k,
{
    if k > 0 {
        lemma_root_is_max(s, parent_of(k));
        lemma_le_order(s[k], s[parent_of(k)], s[0]);
    }
}

/// Calls `<[T]>::swap` of std, which exchanges the values at two places of a slice, both of
/// which must lie within it, and leaves every other place as it was.
#[verifier::external_body]
fn exchange<T>(values: &mut Vec<T>, a: usize, b: usize)
    requires
        a < old(values)@.len(),
        b < old(values)@.len(),
    ensures
        final(values)@ == swapped(old(values)@, a as int, b as int),
{
    values.swap(a, b);
}

impl<T> View for MaxHeap<T> {
    type V = Seq<T>;

    /// The values in the order of the array: the root first, then level by level.
    closed spec fn view(&self) -> Seq<T> {
        self.max_heap@
    }
}

impl<T: Ord + Clone> MaxHeap<T> {
    /// The invariant of the heap: no value is below one of its children.
    pub open spec fn wf(&self) -> bool {
        heap_order(self@)
    }

    pub fn new() -> (heap: Self)
        ensures
            heap@ == Seq::<T>::empty(),
            heap.wf(),
    {
        Self { max_heap: Vec::new() }
    }

    /// The heap of the values of `v`, put in one by one.
    pub fn from_vec_1(v: Vec<T>) -> (heap: Self)
        requires
            total_order::<T>(),
        ensures
            heap.wf(),
            permutation(v@, heap@),
            heap@.len() == v@.len(),
    {
        proof {
            vstd::seq_lib::to_multiset_len(v@);
        }
        let mut heap = Self::new();
        let ghost input = v@;
        assert(input.take(0) =~= heap@);
        for el in it: v
            invariant
                total_order::<T>(),
                it.seq() == input,
                heap.wf(),
                permutation(input.take(it.index() as int), heap@),
        {
            proof {
                assert(input.take(it.index() + 1) =~= input.take(it.index() as int).push(el));
                vstd::seq_lib::to_multiset_build(input.take(it.index() as int), el);
                vstd::seq_lib::to_multiset_build(heap@, el);
            }
            heap.push(el);
        }
        proof {
            assert(input.take(input.len() as int) =~= input);
            vstd::seq_lib::to_multiset_len(heap@);
        }
        heap
    }

    /// The heap of the values of `v`, put in order in place from the last parent up.
    pub fn from_vec_2(v: Vec<T>) -> (heap: Self)
        requires
            total_order::<T>(),
        ensures
            heap.wf(),
            permutation(v@, heap@),
            heap@.len() == v@.len(),
    {
        let mut heap = Self { max_heap: v };
        if heap.size() < 2 {
            return heap;
        }
        let mut i = Self::parent(heap.size() - 1).unwrap() + 1;
        while i > 0
            invariant
                total_order::<T>(),
                heap_from(heap@, i as int),
                permutation(v@, heap@),
                i <= heap@.len(),
                heap@.len() == v@.len(),
            decreases i,
        {
            i -= 1;
            heap.sift_down(i);
        }
        heap
    }

    fn parent(i: usize) -> (r: Option<usize>)
        ensures
            match r {
                None => i == 0,
                Some(p) => i > 0 && p == parent_of(i as int),
            },
    {
        if i == 0 {
            None
        } else {
            Some((i - 1) / 2)
        }
    }

    fn left(i: usize) -> (r: usize)
        requires
            2 * i + 1 <= usize::MAX,
        ensures
            r == 2 * i + 1,
    {
        2 * i + 1
    }

    fn right(i: usize) -> (r: usize)
        requires
            2 * i + 2 <= usize::MAX,
        ensures
            r == 2 * i + 2,
    {
        2 * i + 2
    }

    pub fn size(&self) -> (r: usize)
        ensures
            r == self@.len(),
    {
        self.max_heap.len()
    }

    /// The value at place `i` of the array, if there is one: the root lies at place `0`, and
    /// the children of place `i` at the places `2 * i + 1` and `2 * i + 2`.
    pub fn get(&self, i: usize) -> (r: Option<&T>)
        ensures
            match r {
                None => i >= self@.len(),
                Some(val) => i < self@.len() && *val == self@[i as int],
            },
    {
        if i < self.max_heap.len() {
            Some(&self.max_heap[i])
        } else {
            None
        }
    }

    pub fn is_empty(&self) -> (r: bool)
        ensures
            r == (self@.len() == 0),
    {
        self.max_heap.is_empty()
    }

    pub fn push(&mut self, val: T)
        requires
            total_order::<T>(),
            old(self).wf(),
        ensures
            final(self).wf(),
            permutation(old(self)@.push(val), final(self)@),
            final(self)@.len() == old(self)@.len() + 1,
    {
        self.max_heap.push(val);
        let last = self.size() - 1;
        self.sift_up(last);
        proof {
            vstd::seq_lib::to_multiset_len(old(self)@.push(val));
            vstd::seq_lib::to_multiset_len(self@);
        }
    }

    /// Takes the largest value out.
    pub fn pop(&mut self) -> (r: Option<T>)
        requires
            total_order::<T>(),
            old(self).wf(),
        ensures
            final(self).wf(),
            match r {
                None => old(self)@.len() == 0 && final(self)@ == old(self)@,
                Some(val) => {
                    &&& old(self)@.len() > 0
                    &&& val == old(self)@[0]
                    &&& is_max(old(self)@, val)
                    &&& final(self)@.to_multiset() == old(self)@.to_multiset().remove(val)
                    &&& final(self)@.len() == old(self)@.len() - 1
                },
            },
    {
        if self.is_empty() {
            return None;
        }
        let ghost before = self@;
        proof {
            assert forall|k: int| 0 <= k < before.len() implies le(#[trigger] before[k], before[0]) by {
                lemma_root_is_max(before, k);
            }
        }
        let last = self.size() - 1;
        self.swap(0, last);
        let ghost exchanged = self@;
        let val = self.max_heap.remove(last);
        proof {
            lemma_swapped_permutation(before, 0, last as int);
            vstd::seq_lib::to_multiset_remove(exchanged, last as int);
            assert forall|j: int|
                0 < j < self@.len() && parent_of(j) >= 1 implies le(
                #[trigger] self@[j],
                self@[parent_of(j)],
            ) by {
                assert(self@[j] == before[j]);
                assert(self@[parent_of(j)] == before[parent_of(j)]);
            }
        }
        if self.size() > 0 {
            self.sift_down(0);
        }
        proof {
            vstd::seq_lib::to_multiset_len(self@);
            vstd::seq_lib::to_multiset_len(exchanged.remove(last as int));
        }
        Some(val)
    }

    /// The largest value.
    pub fn peek(&self) -> (r: Option<&T>)
        requires
            total_order::<T>(),
            self.wf(),
        ensures
            match r {
                None => self@.len() == 0,
                Some(val) => self@.len() > 0 && *val == self@[0] && is_max(self@, *val),
            },
    {
        if self.max_heap.len() == 0 {
            None
        } else {
            proof {
                assert forall|k: int| 0 <= k < self@.len() implies le(#[trigger] self@[k], self@[0]) by {
                    lemma_root_is_max(self@, k);
                }
            }
            Some(&self.max_heap[0])
        }
    }

    /// Lets the value at place `i` rise while it is above its parent.
    fn sift_up(&mut self, i: usize)
        requires
            total_order::<T>(),
            i < old(self)@.len(),
            forall|j: int|
                0 < j < old(self)@.len() && j != i ==> le(
                    #[trigger] old(self)@[j],
                    old(self)@[parent_of(j)],
                ),
            forall|j: int|
                0 < j < old(self)@.len() && parent_of(j) == i && i > 0 ==> le(
                    #[trigger] old(self)@[j],
                    old(self)@[parent_of(i as int)],
                ),
        ensures
            final(self).wf(),
            permutation(old(self)@, final(self)@),
    {
        let mut i = i;
        loop
            invariant
                total_order::<T>(),
                i < self@.len(),
                permutation(old(self)@, self@),
                forall|j: int|
                    0 < j < self@.len() && j != i ==> le(#[trigger] self@[j], self@[parent_of(j)]),
                forall|j: int|
                    0 < j < self@.len() && parent_of(j) == i && i > 0 ==> le(
                        #[trigger] self@[j],
                        self@[parent_of(i as int)],
                    ),
            ensures
                heap_order(self@),
                permutation(old(self)@, self@),
            decreases i,
        {
            if i == 0 {
                break ;
            }
            let parent = Self::parent(i).unwrap();
            if !less(&self.max_heap[parent], &self.max_heap[i]) {
                proof {
                    lemma_le_order(self@[parent as int], self@[i as int], self@[i as int]);
                }
                break ;
            }
            let ghost before = self@;
            self.swap(i, parent);
            proof {
                lemma_swapped_permutation(before, i as int, parent as int);
                assert forall|j: int| 0 < j < self@.len() && j != parent implies le(
                    #[trigger] self@[j],
                    self@[parent_of(j)],
                ) by {
                    if j == i {
                    } else if parent_of(j) == i {
                    } else if parent_of(j) == parent {
                        lemma_le_order(before[j], before[parent as int], before[i as int]);
                    } else {
                    }
                }
                assert forall|j: int|
                    0 < j < self@.len() && parent_of(j) == parent && parent > 0 implies le(
                    #[trigger] self@[j],
                    self@[parent_of(parent as int)],
                ) by {
                    if j != i {
                        lemma_le_order(
                            before[j],
                            before[parent as int],
                            before[parent_of(parent as int)],
                        );
                    }
                }
            }
            i = parent;
        }
    }

    /// Lets the value at place `i` sink while it is below one of its children.
    fn sift_down(&mut self, i: usize)
        requires
            total_order::<T>(),
            i < old(self)@.len(),
            heap_from(old(self)@, i + 1),
        ensures
            heap_from(final(self)@, i as int),
            permutation(old(self)@, final(self)@),
            final(self)@.len() == old(self)@.len(),
    {
        let ghost start = i;
        let mut i = i;
        loop
            invariant
                total_order::<T>(),
                start <= i < self@.len(),
                self@.len() == old(self)@.len(),
                permutation(old(self)@, self@),
                forall|j: int|
                    0 < j < self@.len() && parent_of(j) >= start && parent_of(j) != i ==> le(
                        #[trigger] self@[j],
                        self@[parent_of(j)],
                    ),
                forall|j: int|
                    0 < j < self@.len() && parent_of(j) == i && i > start ==> le(
                        #[trigger] self@[j],
                        self@[parent_of(i as int)],
                    ),
            ensures
                heap_from(self@, start as int),
                permutation(old(self)@, self@),
                self@.len() == old(self)@.len(),
            decreases self@.len() - i,
        {
            let n = self.size();
            if i >= n || i > (usize::MAX - 2) / 2 {
                break ;
            }
            let l = Self::left(i);
            let r = Self::right(i);
            let mut max = i;
            if l < n && less(&self.max_heap[max], &self.max_heap[l]) {
                max = l;
            }
            let ghost first = max;
            proof {
                lemma_le_order(self@[i as int], self@[first as int], self@[first as int]);
                if l < n {
                    lemma_le_order(self@[i as int], self@[l as int], self@[l as int]);
                }
            }
            if r < n && less(&self.max_heap[max], &self.max_heap[r]) {
                max = r;
            }
            proof {
                lemma_le_order(self@[first as int], self@[max as int], self@[max as int]);
                lemma_le_order(self@[i as int], self@[first as int], self@[max as int]);
                if r < n {
                    lemma_le_order(self@[first as int], self@[r as int], self@[r as int]);
                }
                if l < n {
                    lemma_le_order(self@[l as int], self@[first as int], self@[max as int]);
                }
                assert(le(self@[i as int], self@[max as int]));
                assert(l < n ==> le(self@[l as int], self@[max as int]));
                assert(r < n ==> le(self@[r as int], self@[max as int]));
            }
            if max == i {
                break ;
            }
            let ghost before = self@;
            self.swap(max, i);
            proof {
                lemma_swapped_permutation(before, max as int, i as int);
                assert forall|j: int|
                    0 < j < self@.len() && parent_of(j) >= start && parent_of(j) != max implies le(
                    #[trigger] self@[j],
                    self@[parent_of(j)],
                ) by {
                    if j == i {
                        assert(parent_of(max as int) == i);
                        assert(le(before[max as int], before[parent_of(i as int)]));
                    } else if parent_of(j) == i {
                        assert(j == l || j == r);
                    } else {
                        assert(self@[j] == before[j]);
                        assert(self@[parent_of(j)] == before[parent_of(j)]);
                    }
                }
                assert forall|j: int|
                    0 < j < self@.len() && parent_of(j) == max && max > start implies le(
                    #[trigger] self@[j],
                    self@[parent_of(max as int)],
                ) by {
                    assert(parent_of(max as int) == i);
                    assert(self@[j] == before[j]);
                }
            }
            i = max;
        }
    }

    /// Exchanges the values at places `a` and `b`.
    fn swap(&mut self, a: usize, b: usize)
        requires
            a < old(self)@.len(),
            b < old(self)@.len(),
        ensures
            final(self)@ == swapped(old(self)@, a as int, b as int),
    {
        if a == b {
            assert(swapped(self@, a as int, b as int) =~= self@);
            return ;
        }
        exchange(&mut self.max_heap, a, b);
    }
}

} // verus!
