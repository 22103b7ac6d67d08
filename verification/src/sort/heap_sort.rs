//! Heap sort: the values are made a max-heap, and the largest left goes to the end in turn.

use crate::permutation::swapped;
use crate::sort::sorted::{
    lemma_rearranged_bounds, lemma_rearranged_permutation, lemma_rearranged_twice,
    lemma_rearranged_wider, lemma_swapped_within, rearranged_between, sorts, swap,
};
use vstd::prelude::*;

verus! {

/// The place of the parent of place `i`.
pub open spec fn parent_of(i: int) -> int {
    (i - 1) / 2
}

/// Among the first `n` values, from place `start` on, none is below one of its children.
pub open spec fn heap_prefix(s: Seq<i32>, n: int, start: int) -> bool {
    forall|j: int| 0 < j < n && parent_of(j) >= start ==> #[trigger] s[j] <= s[parent_of(j)]
}

/// Where the first `n` values are a heap, the first is the largest of them.
proof fn lemma_root_is_largest(s: Seq<i32>, n: int, k: int)
    requires
        heap_prefix(s, n, 0),
        0 <= k < n <= s.len(),
    ensures
        s[k] <= s[0],
    decreases k,
{
    if k > 0 {
        lemma_root_is_largest(s, n, parent_of(k));
    }
}

/// The values from place `from` on are in order, and none of them is below a value before
/// that place.
pub open spec fn end_in_order(s: Seq<i32>, from: int) -> bool {
    &&& forall|a: int, b: int| from <= a <= b < s.len() ==> s[a] <= s[b]
    &&& forall|a: int, b: int| 0 <= a < from && from <= b < s.len() ==> s[a] <= s[b]
}

/// Where the first `i + 1` values are a heap and the rest is the end in order, exchanging the
/// first value with the one at place `i` makes the end in order longer by one, and leaves
/// the first `i` values a heap but for the first.
proof fn lemma_largest_to_end(s: Seq<i32>, n: int, i: int)
    requires
        0 < i < n == s.len(),
        heap_prefix(s, i + 1, 0),
        end_in_order(s, i + 1),
    ensures
        heap_prefix(swapped(s, i, 0), i, 1),
        end_in_order(swapped(s, i, 0), i),
{
    let t = swapped(s, i, 0);
    assert forall|k: int| 0 <= k <= i implies #[trigger] s[k] <= s[0] by {
        lemma_root_is_largest(s, i + 1, k);
    }
    assert forall|j: int| 0 < j < i && parent_of(j) >= 1 implies #[trigger] t[j] <= t[parent_of(
        j,
    )] by {
        assert(t[j] == s[j]);
        assert(t[parent_of(j)] == s[parent_of(j)]);
    }
    assert forall|a: int, b: int| i <= a <= b < n implies t[a] <= t[b] by {
        if a == i && b > i {
            assert(t[b] == s[b]);
        }
    }
    assert forall|a: int, b: int| 0 <= a < i && i <= b < n implies t[a] <= t[b] by {
        assert(t[a] == s[a] || t[a] == s[i]);
        if b > i {
            assert(t[b] == s[b]);
        }
    }
}

/// A rearrangement of the values before the end in order leaves the end in order.
proof fn lemma_end_stays_in_order(s: Seq<i32>, t: Seq<i32>, n: int, i: int)
    requires
        0 < i < n == s.len(),
        end_in_order(s, i),
        rearranged_between(s, t, 0, i),
    ensures
        end_in_order(t, i),
        rearranged_between(s, t, 0, n),
{
    lemma_rearranged_wider(s, t, 0, i, 0, n);
    assert forall|a: int, b: int| 0 <= a < i && i <= b < n implies t[a] <= t[b] by {
        assert forall|k: int| 0 <= k < i implies s[k] <= s[b] by {}
        lemma_rearranged_bounds(s, t, 0, i, s[b]);
        assert(t[b] == s[b]);
    }
    assert forall|a: int, b: int| i <= a <= b < n implies t[a] <= t[b] by {
        assert(t[a] == s[a] && t[b] == s[b]);
    }
}

pub fn heap_sort(mut nums: Vec<i32>) -> (result: Vec<i32>)
    ensures
        sorts(nums@, result@),
{
    if nums.is_empty() {
        return nums;
    }
    let ghost input = nums@;
    let n = nums.len();
    let mut i = (n - 1) / 2 + 1;
    assert(input.subrange(0, n as int) =~= input);
    while i > 0
        invariant
            n == nums@.len(),
            0 < n,
            i <= n,
            heap_prefix(nums@, n as int, i as int),
            rearranged_between(input, nums@, 0, n as int),
        decreases i,
    {
        i -= 1;
        let ghost before = nums@;
        sift_down(&mut nums, n, i);
        proof {
            lemma_rearranged_twice(input, before, nums@, 0, n as int);
        }
    }

    let mut i = n - 1;
    while i > 0
        invariant
            n == nums@.len(),
            i < n,
            heap_prefix(nums@, i + 1, 0),
            rearranged_between(input, nums@, 0, n as int),
            end_in_order(nums@, i + 1),
        decreases i,
    {
        let ghost before = nums@;
        swap(&mut nums, i, 0);
        let ghost exchanged = nums@;
        proof {
            lemma_largest_to_end(before, n as int, i as int);
            lemma_swapped_within(before, 0, n as int, i as int, 0);
            lemma_rearranged_twice(input, before, exchanged, 0, n as int);
        }
        sift_down(&mut nums, i, 0);
        proof {
            lemma_end_stays_in_order(exchanged, nums@, n as int, i as int);
            lemma_rearranged_twice(input, exchanged, nums@, 0, n as int);
        }
        i -= 1;
    }
    proof {
        lemma_rearranged_permutation(input, nums@, 0, n as int);
    }
    nums
}

/// Lets the value at place `i` sink, among the first `n` values, while it is below one of
/// its children.
fn sift_down(nums: &mut Vec<i32>, n: usize, i: usize)
    requires
        n <= old(nums)@.len(),
        heap_prefix(old(nums)@, n as int, i + 1),
    ensures
        heap_prefix(final(nums)@, n as int, i as int),
        rearranged_between(old(nums)@, final(nums)@, 0, n as int),
{
    let ghost input = nums@;
    let ghost start = i;
    let mut i = i;
    let len = nums.len();
    loop
        invariant
            n <= len == nums@.len(),
            start <= i,
            rearranged_between(input, nums@, 0, n as int),
            forall|j: int|
                0 < j < n && parent_of(j) >= start && parent_of(j) != i ==> #[trigger] nums@[j]
                    <= nums@[parent_of(j)],
            forall|j: int|
                0 < j < n && parent_of(j) == i && i > start ==> #[trigger] nums@[j]
                    <= nums@[parent_of(i as int)],
        ensures
            heap_prefix(nums@, n as int, start as int),
            rearranged_between(input, nums@, 0, n as int),
        decreases n - i,
    {
        if i >= n || i > (usize::MAX - 2) / 2 {
            assert forall|j: int| 0 < j < n implies parent_of(j) != i by {
                assert(parent_of(j) == i ==> j >= 2 * i + 1);
            }
            break ;
        }
        let l = 2 * i + 1;
        let r = 2 * i + 2;
        let mut max = i;
        if l < n && nums[l] > nums[max] {
            max = l;
        }
        if r < n && nums[r] > nums[max] {
            max = r;
        }
        if max == i {
            break ;
        }
        let ghost before = nums@;
        swap(nums, max, i);
        proof {
            lemma_swapped_within(before, 0, n as int, max as int, i as int);
            lemma_rearranged_twice(input, before, nums@, 0, n as int);
            assert forall|j: int|
                0 < j < n && parent_of(j) >= start && parent_of(j) != max implies #[trigger] nums@[j]
                <= nums@[parent_of(j)] by {
                if j == i {
                    assert(parent_of(max as int) == i);
                } else if parent_of(j) == i {
                    assert(j == l || j == r);
                } else {
                    assert(nums@[j] == before[j]);
                    assert(nums@[parent_of(j)] == before[parent_of(j)]);
                }
            }
            assert forall|j: int|
                0 < j < n && parent_of(j) == max && max > start implies #[trigger] nums@[j]
                <= nums@[parent_of(max as int)] by {
                assert(parent_of(max as int) == i);
                assert(nums@[j] == before[j]);
            }
        }
        i = max;
    }
}

} // verus!
