//! Merge sort: each half is put in order, then the two halves are merged.

use crate::permutation::{lemma_range_permutation, permutation};
use crate::sort::sorted::{lemma_empty_parts, lemma_push_parts, sorted_between, sorts};
use vstd::prelude::*;

verus! {

pub fn merge_sort(mut nums: Vec<i32>) -> (result: Vec<i32>)
    ensures
        sorts(nums@, result@),
{
    if nums.is_empty() {
        return nums;
    }
    let n = nums.len();
    _merge_sort(&mut nums, 0, n - 1);
    nums
}

/// Puts the places from `left` to `right`, both included, in order.
fn _merge_sort(nums: &mut Vec<i32>, left: usize, right: usize)
    requires
        left < right ==> right < old(nums)@.len(),
    ensures
        final(nums)@.len() == old(nums)@.len(),
        forall|k: int|
            0 <= k < old(nums)@.len() && !(left <= k <= right) ==> final(nums)@[k] == old(nums)@[k],
        left < right ==> sorted_between(final(nums)@, left as int, right + 1),
        permutation(old(nums)@, final(nums)@),
    decreases right - left,
{
    if left >= right {
        return ;
    }
    let mid = left + (right - left) / 2;
    _merge_sort(nums, left, mid);
    let ghost half = nums@;
    _merge_sort(nums, mid + 1, right);
    proof {
        assert forall|i: int, j: int| left <= i <= j < mid + 1 implies nums@[i] <= nums@[j] by {
            assert(nums@[i] == half[i] && nums@[j] == half[j]);
        }
    }
    merge(nums, left, mid, right);
}

/// Merges the places from `left` to `mid` with those from `mid + 1` to `right`, each already
/// in order.
fn merge(nums: &mut Vec<i32>, left: usize, mid: usize, right: usize)
    requires
        left <= mid < right < old(nums)@.len(),
        sorted_between(old(nums)@, left as int, mid + 1),
        sorted_between(old(nums)@, mid + 1, right + 1),
    ensures
        final(nums)@.len() == old(nums)@.len(),
        forall|k: int|
            0 <= k < old(nums)@.len() && !(left <= k <= right) ==> final(nums)@[k] == old(nums)@[k],
        sorted_between(final(nums)@, left as int, right + 1),
        permutation(old(nums)@, final(nums)@),
{
    let ghost input = nums@;
    let n = nums.len();
    let temp_size = right - left + 1;
    let mut temp: Vec<i32> = Vec::new();
    let mut i = left;
    let mut j = mid + 1;
    proof {
        assert(input.subrange(left as int, i as int) =~= Seq::<i32>::empty());
        assert(input.subrange(mid + 1, j as int) =~= Seq::<i32>::empty());
        lemma_empty_parts();
    }

    while i <= mid && j <= right
        invariant
            nums@ == input,
            left <= mid < right < n,
            n == input.len(),
            left <= i <= mid + 1,
            mid + 1 <= j <= right + 1,
            temp@.len() == (i - left) + (j - mid - 1),
            sorted_between(input, left as int, mid + 1),
            sorted_between(input, mid + 1, right + 1),
            sorted_between(temp@, 0, temp@.len() as int),
            forall|a: int, b: int| 0 <= a < temp@.len() && i <= b <= mid ==> temp@[a] <= input[b],
            forall|a: int, b: int| 0 <= a < temp@.len() && j <= b <= right ==> temp@[a] <= input[b],
            temp@.to_multiset() == input.subrange(left as int, i as int).to_multiset().add(
                input.subrange(mid + 1, j as int).to_multiset(),
            ),
        decreases (mid + 1 - i) + (right + 1 - j),
    {
        proof {
            lemma_push_parts(
                temp@,
                input.subrange(left as int, i as int),
                input.subrange(mid + 1, j as int),
                if input[i as int] <= input[j as int] {
                    input[i as int]
                } else {
                    input[j as int]
                },
            );
            assert(input.subrange(left as int, i + 1) =~= input.subrange(
                left as int,
                i as int,
            ).push(input[i as int]));
            assert(input.subrange(mid + 1, j + 1) =~= input.subrange(mid + 1, j as int).push(
                input[j as int],
            ));
        }
        if nums[i] <= nums[j] {
            temp.push(nums[i]);
            i += 1;
        } else {
            temp.push(nums[j]);
            j += 1;
        }
    }

    while i <= mid
        invariant
            nums@ == input,
            left <= mid < right < n,
            n == input.len(),
            left <= i <= mid + 1,
            mid + 1 <= j <= right + 1,
            i <= mid ==> j == right + 1,
            temp@.len() == (i - left) + (j - mid - 1),
            sorted_between(input, left as int, mid + 1),
            sorted_between(temp@, 0, temp@.len() as int),
            forall|a: int, b: int| 0 <= a < temp@.len() && i <= b <= mid ==> temp@[a] <= input[b],
            forall|a: int, b: int| 0 <= a < temp@.len() && j <= b <= right ==> temp@[a] <= input[b],
            temp@.to_multiset() == input.subrange(left as int, i as int).to_multiset().add(
                input.subrange(mid + 1, j as int).to_multiset(),
            ),
        decreases mid + 1 - i,
    {
        proof {
            lemma_push_parts(
                temp@,
                input.subrange(left as int, i as int),
                input.subrange(mid + 1, j as int),
                input[i as int],
            );
            assert(input.subrange(left as int, i + 1) =~= input.subrange(
                left as int,
                i as int,
            ).push(input[i as int]));
        }
        temp.push(nums[i]);
        i += 1;
    }
    while j <= right
        invariant
            nums@ == input,
            left <= mid < right < n,
            n == input.len(),
            i == mid + 1,
            mid + 1 <= j <= right + 1,
            temp@.len() == (i - left) + (j - mid - 1),
            sorted_between(input, mid + 1, right + 1),
            sorted_between(temp@, 0, temp@.len() as int),
            forall|a: int, b: int| 0 <= a < temp@.len() && j <= b <= right ==> temp@[a] <= input[b],
            temp@.to_multiset() == input.subrange(left as int, i as int).to_multiset().add(
                input.subrange(mid + 1, j as int).to_multiset(),
            ),
        decreases right + 1 - j,
    {
        proof {
            lemma_push_parts(
                temp@,
                input.subrange(left as int, i as int),
                input.subrange(mid + 1, j as int),
                input[j as int],
            );
            assert(input.subrange(mid + 1, j + 1) =~= input.subrange(mid + 1, j as int).push(
                input[j as int],
            ));
        }
        temp.push(nums[j]);
        j += 1;
    }

    proof {
        vstd::seq_lib::lemma_multiset_commutative(
            input.subrange(left as int, mid + 1),
            input.subrange(mid + 1, right + 1),
        );
        assert(input.subrange(left as int, right + 1) =~= input.subrange(left as int, mid + 1)
            + input.subrange(mid + 1, right + 1));
    }

    let mut k: usize = 0;
    while k < temp_size
        invariant
            k <= temp_size,
            temp_size == right - left + 1,
            temp@.len() == temp_size,
            right < input.len(),
            nums@.len() == input.len(),
            forall|p: int| 0 <= p < input.len() && !(left <= p < left + k) ==> nums@[p] == input[p],
            forall|p: int| 0 <= p < k ==> nums@[left + p] == temp@[p],
        decreases temp_size - k,
    {
        nums.set(left + k, temp[k]);
        k += 1;
    }
    proof {
        assert(nums@.subrange(left as int, right + 1) =~= temp@);
        lemma_range_permutation(input, nums@, left as int, right + 1);
        assert forall|a: int, b: int| left <= a <= b < right + 1 implies nums@[a] <= nums@[b] by {
            assert(nums@[left + (a - left)] == temp@[a - left]);
            assert(nums@[left + (b - left)] == temp@[b - left]);
        }
    }
}

} // verus!
