//! Insertion sort: each value in turn goes to its place among those before it.

use crate::permutation::{lemma_swapped_permutation, permutation, swapped};
use crate::sort::sorted::{sorts};
use vstd::prelude::*;

verus! {

pub fn insert_sort(mut nums: Vec<i32>) -> (result: Vec<i32>)
    ensures
        sorts(nums@, result@),
{
    let ghost input = nums@;
    let n = nums.len();
    let mut i: usize = 1;
    while i < n
        invariant
            n == nums@.len(),
            1 <= i,
            permutation(input, nums@),
            forall|a: int, b: int| 0 <= a <= b < i && b < n ==> nums@[a] <= nums@[b],
        decreases n - i,
    {
        let base = nums[i];
        let mut j = i;
        assert(nums@.update(j as int, base) =~= nums@);
        while j > 0 && nums[j - 1] > base
            invariant
                n == nums@.len(),
                j <= i < n,
                permutation(input, nums@.update(j as int, base)),
                forall|a: int, b: int| 0 <= a <= b < j ==> nums@[a] <= nums@[b],
                forall|a: int, b: int| j < a <= b <= i ==> nums@[a] <= nums@[b],
                forall|a: int, b: int| 0 <= a < j && j < b <= i ==> nums@[a] <= nums@[b],
                forall|b: int| j < b <= i ==> base < nums@[b],
            decreases j,
        {
            let ghost before = nums@.update(j as int, base);
            let moved = nums[j - 1];
            nums.set(j, moved);
            proof {
                lemma_swapped_permutation(before, j - 1, j as int);
                assert(nums@.update(j - 1, base) =~= swapped(before, j - 1, j as int));
            }
            j -= 1;
        }
        nums.set(j, base);
        assert(nums@ =~= nums@.update(j as int, base));
        i += 1;
    }
    nums
}

} // verus!
