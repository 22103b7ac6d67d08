//! Quick sort: a pivot parts the smaller values from the larger ones, and each part is put
//! in order in the same way.

use crate::sort::sorted::{
    lemma_rearranged_bounds, lemma_rearranged_twice, lemma_rearranged_wider, lemma_swapped_within,
    rearranged_between, sorted_between, sorts, swap,
};
use vstd::prelude::*;

verus! {

pub fn quick_sort(mut nums: Vec<i32>) -> (result: Vec<i32>)
    ensures
        sorts(nums@, result@),
{
    let n = nums.len();
    if n > 0 {
        let ghost input = nums@;
        _quick_sort(&mut nums, 0, n - 1);
        proof {
            assert(input.subrange(0, n as int) =~= input);
            assert(nums@.subrange(0, n as int) =~= nums@);
        }
    }
    nums
}

/// Puts the places from `left` to `right`, both included, in order.
fn _quick_sort(nums: &mut Vec<i32>, left: usize, right: usize)
    requires
        left < right ==> right < old(nums)@.len(),
    ensures
        left < right ==> sorted_between(final(nums)@, left as int, right + 1),
        left < right ==> rearranged_between(old(nums)@, final(nums)@, left as int, right + 1),
        left >= right ==> final(nums)@ == old(nums)@,
    decreases right - left,
{
    if left >= right {
        return ;
    }
    let ghost input = nums@;
    let n = nums.len();
    let pivot = partition(nums, left, right);
    let ghost parted = nums@;
    let ghost v = parted[pivot as int];
    if pivot > left {
        _quick_sort(nums, left, pivot - 1);
    }
    let ghost lower = nums@;
    proof {
        if left < pivot - 1 {
            lemma_rearranged_bounds(parted, lower, left as int, pivot as int, v);
            lemma_rearranged_wider(parted, lower, left as int, pivot as int, left as int, right + 1);
        }
        assert(rearranged_between(parted, lower, left as int, right + 1));
    }
    if pivot < right {
        _quick_sort(nums, pivot + 1, right);
    }
    proof {
        if pivot + 1 < right {
            lemma_rearranged_bounds(lower, nums@, pivot + 1, right + 1, v);
            lemma_rearranged_wider(lower, nums@, pivot + 1, right + 1, left as int, right + 1);
        }
        assert(rearranged_between(lower, nums@, left as int, right + 1));
        lemma_rearranged_twice(input, parted, lower, left as int, right + 1);
        lemma_rearranged_twice(input, lower, nums@, left as int, right + 1);
        assert forall|i: int, j: int| left <= i <= j < right + 1 implies nums@[i] <= nums@[j] by {
            if i < pivot {
                assert(nums@[i] == lower[i]);
                assert(nums@[i] <= v);
            }
            if j < pivot {
                assert(nums@[j] == lower[j]);
            }
            if i == pivot || j == pivot {
                assert(nums@[pivot as int] == v);
            }
        }
    }
}

/// Parts the places from `left` to `right` about a pivot value, and hands back the place
/// where the pivot value has come to lie: nothing before it is larger, nothing behind it
/// smaller.
fn partition(nums: &mut Vec<i32>, left: usize, right: usize) -> (pivot: usize)
    requires
        left < right < old(nums)@.len(),
    ensures
        left <= pivot <= right,
        rearranged_between(old(nums)@, final(nums)@, left as int, right + 1),
        forall|k: int| left <= k < pivot ==> final(nums)@[k] <= final(nums)@[pivot as int],
        forall|k: int| pivot < k <= right ==> final(nums)@[k] >= final(nums)@[pivot as int],
{
    let ghost input = nums@;
    let n = nums.len();
    let mid = median_three(nums, left, left + (right - left) / 2, right);
    swap(nums, mid, left);
    proof {
        lemma_swapped_within(input, left as int, right + 1, mid as int, left as int);
    }

    let pivot = nums[left];
    let mut l = left;
    let mut r = right;
    while l < r
        invariant
            n == nums@.len(),
            left <= l <= r <= right < n,
            nums@[left as int] == pivot,
            rearranged_between(input, nums@, left as int, right + 1),
            nums@[l as int] <= pivot,
            forall|k: int| left <= k < l ==> nums@[k] <= pivot,
            forall|k: int| r < k <= right ==> nums@[k] >= pivot,
        decreases r - l,
    {
        while l < r && nums[r] >= pivot
            invariant
                n == nums@.len(),
                left <= l <= r <= right < n,
                nums@[l as int] <= pivot,
                forall|k: int| r < k <= right ==> nums@[k] >= pivot,
            decreases r - l,
        {
            r -= 1;
        }
        while l < r && nums[l] <= pivot
            invariant
                n == nums@.len(),
                left <= l <= r <= right < n,
                nums@[r as int] <= pivot,
                nums@[left as int] == pivot,
                forall|k: int| left <= k < l ==> nums@[k] <= pivot,
            decreases r - l,
        {
            l += 1;
        }
        let ghost before = nums@;
        swap(nums, l, r);
        proof {
            lemma_swapped_within(before, left as int, right + 1, l as int, r as int);
            lemma_rearranged_twice(input, before, nums@, left as int, right + 1);
        }
    }
    let ghost before = nums@;
    swap(nums, left, l);
    proof {
        lemma_swapped_within(before, left as int, right + 1, left as int, l as int);
        lemma_rearranged_twice(input, before, nums@, left as int, right + 1);
    }
    l
}

/// Of three places, the one that the pivot is taken from: the first if its value lies between
/// the other two, else the second if its value does, else the third.
fn median_three(nums: &Vec<i32>, left: usize, mid: usize, right: usize) -> (result: usize)
    requires
        left < nums@.len(),
        mid < nums@.len(),
        right < nums@.len(),
    ensures
        result == left || result == mid || result == right,
        result == if (nums@[left as int] < nums@[mid as int]) != (nums@[left as int]
            < nums@[right as int]) {
            left
        } else if (nums@[mid as int] < nums@[left as int]) != (nums@[mid as int]
            < nums@[right as int]) {
            mid
        } else {
            right
        },
{
    if (nums[left] < nums[mid]) != (nums[left] < nums[right]) {
        left
    } else if (nums[mid] < nums[left]) != (nums[mid] < nums[right]) {
        mid
    } else {
        right
    }
}

} // verus!
