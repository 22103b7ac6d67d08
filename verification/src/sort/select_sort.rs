//! Selection sort: the smallest value left goes to the end of what is in order.

use crate::permutation::{permutation};
use crate::sort::sorted::{sorts, swap};
use vstd::prelude::*;

verus! {

pub fn select_sort(mut nums: Vec<i32>) -> (result: Vec<i32>)
    ensures
        sorts(nums@, result@),
{
    let ghost input = nums@;
    let n = nums.len();
    if n < 2 {
        return nums;
    }
    let mut i: usize = 0;
    while i < n - 1
        invariant
            n == nums@.len(),
            n >= 2,
            i <= n - 1,
            permutation(input, nums@),
            forall|a: int, b: int| 0 <= a <= b < i ==> nums@[a] <= nums@[b],
            forall|a: int, b: int| 0 <= a < i && i <= b < n ==> nums@[a] <= nums@[b],
        decreases n - i,
    {
        let mut k = i;
        let mut j = i + 1;
        while j < n
            invariant
                n == nums@.len(),
                i <= k < j <= n,
                forall|a: int| i <= a < j ==> nums@[k as int] <= nums@[a],
            decreases n - j,
        {
            if nums[j] < nums[k] {
                k = j;
            }
            j += 1;
        }
        swap(&mut nums, i, k);
        i += 1;
    }
    nums
}

} // verus!
