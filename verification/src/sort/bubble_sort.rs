//! Bubble sort: the largest value left rises to the end of what is not yet in order.

use crate::permutation::{permutation};
use crate::sort::sorted::{lemma_neighbours_sorted, sorted, sorts, swap};
use vstd::prelude::*;

verus! {

pub fn bubble_sort(mut nums: Vec<i32>) -> (result: Vec<i32>)
    ensures
        sorts(nums@, result@),
{
    let ghost input = nums@;
    let n = nums.len();
    let mut j = n;
    let mut finished = false;
    while j > 1 && !finished
        invariant
            n == nums@.len(),
            j <= n,
            permutation(input, nums@),
            forall|a: int, b: int| j <= a <= b < n ==> nums@[a] <= nums@[b],
            forall|a: int, b: int| 0 <= a < j && j <= b < n ==> nums@[a] <= nums@[b],
            finished ==> sorted(nums@),
        decreases j,
    {
        j -= 1;
        let mut exchanged = false;
        let mut i: usize = 0;
        while i < j
            invariant
                n == nums@.len(),
                i <= j < n,
                permutation(input, nums@),
                forall|a: int, b: int| j < a <= b < n ==> nums@[a] <= nums@[b],
                forall|a: int, b: int| 0 <= a <= j && j < b < n ==> nums@[a] <= nums@[b],
                forall|a: int| 0 <= a < i ==> nums@[a] <= nums@[i as int],
                !exchanged ==> forall|k: int| 0 <= k && k + 1 <= i ==> nums@[k] <= #[trigger] nums@[k + 1],
            decreases j - i,
        {
            if nums[i] > nums[i + 1] {
                swap(&mut nums, i, i + 1);
                exchanged = true;
            }
            i += 1;
        }
        if !exchanged {
            proof {
                lemma_neighbours_sorted(nums@, 0, j + 1);
            }
            finished = true;
        }
    }
    nums
}

} // verus!
