//! What it means to sort, and the exchange of two places that several sorts are made of.

use crate::permutation::{lemma_range_permutation, lemma_swapped_permutation, permutation, swapped};
use vstd::prelude::*;

verus! {

/// No element of `s` is above a later one.
pub open spec fn sorted(s: Seq<i32>) -> bool {
    forall|i: int, j: int| 0 <= i <= j < s.len() ==> s[i] <= s[j]
}

/// The places of `s` from `lo` up to, not including, `hi` are in order.
pub open spec fn sorted_between(s: Seq<i32>, lo: int, hi: int) -> bool {
    forall|i: int, j: int| lo <= i <= j < hi ==> s[i] <= s[j]
}

/// `output` is `input` put in order.
pub open spec fn sorts(input: Seq<i32>, output: Seq<i32>) -> bool {
    &&& sorted(output)
    &&& permutation(input, output)
}

/// Exchanging two places between `lo` and `hi` keeps what the sequence holds there.
pub proof fn lemma_swapped_within(s: Seq<i32>, lo: int, hi: int, i: int, j: int)
    requires
        0 <= lo <= i < hi <= s.len(),
        lo <= j < hi,
    ensures
        permutation(s.subrange(lo, hi), swapped(s, i, j).subrange(lo, hi)),
{
    lemma_swapped_permutation(s.subrange(lo, hi), i - lo, j - lo);
    assert(swapped(s, i, j).subrange(lo, hi) =~= swapped(s.subrange(lo, hi), i - lo, j - lo));
}

/// The empty sequence holds what two empty sequences hold together.
pub proof fn lemma_empty_parts()
    ensures
        Seq::<i32>::empty().to_multiset() == Seq::<i32>::empty().to_multiset().add(
            Seq::<i32>::empty().to_multiset(),
        ),
{
    broadcast use vstd::multiset::group_multiset_axioms;
    broadcast use vstd::seq_lib::to_multiset_contains;

    let nothing = Seq::<i32>::empty();
    assert forall|x: i32| nothing.to_multiset().count(x) == 0 by {
        assert(!nothing.contains(x));
    }
    assert(nothing.to_multiset() =~= nothing.to_multiset().add(nothing.to_multiset()));
}

/// Where `whole` holds what `a` and `b` hold together, it still does after one more value
/// went to `whole` and to either of the two.
pub proof fn lemma_push_parts(whole: Seq<i32>, a: Seq<i32>, b: Seq<i32>, x: i32)
    requires
        whole.to_multiset() == a.to_multiset().add(b.to_multiset()),
    ensures
        whole.push(x).to_multiset() == a.push(x).to_multiset().add(b.to_multiset()),
        whole.push(x).to_multiset() == a.to_multiset().add(b.push(x).to_multiset()),
{
    broadcast use vstd::multiset::group_multiset_axioms;

    vstd::seq_lib::to_multiset_build(whole, x);
    vstd::seq_lib::to_multiset_build(a, x);
    vstd::seq_lib::to_multiset_build(b, x);
    assert(whole.push(x).to_multiset() =~= a.push(x).to_multiset().add(b.to_multiset()));
    assert(whole.push(x).to_multiset() =~= a.to_multiset().add(b.push(x).to_multiset()));
}

/// What bounds every value of one sequence bounds every value of a sequence that holds the
/// same values.
pub proof fn lemma_permutation_bounds(a: Seq<i32>, b: Seq<i32>, bound: i32)
    requires
        permutation(a, b),
    ensures
        (forall|k: int| 0 <= k < a.len() ==> a[k] <= bound) ==> (forall|k: int|
            0 <= k < b.len() ==> b[k] <= bound),
        (forall|k: int| 0 <= k < a.len() ==> a[k] >= bound) ==> (forall|k: int|
            0 <= k < b.len() ==> b[k] >= bound),
{
    broadcast use vstd::seq_lib::to_multiset_contains;

    assert forall|k: int| 0 <= k < b.len() implies a.contains(#[trigger] b[k]) by {
        assert(b.contains(b[k]));
        assert(b.to_multiset().count(b[k]) > 0);
    }
}

/// The places from `lo` up to, not including, `hi` hold in `b` what they hold in `a`, and the
/// other places are the same in both.
pub open spec fn rearranged_between(a: Seq<i32>, b: Seq<i32>, lo: int, hi: int) -> bool {
    &&& a.len() == b.len()
    &&& forall|k: int| 0 <= k < a.len() && !(lo <= k < hi) ==> a[k] == b[k]
    &&& 0 <= lo <= hi <= a.len() ==> permutation(a.subrange(lo, hi), b.subrange(lo, hi))
}

/// A rearrangement within a part of a range is a rearrangement of the range.
pub proof fn lemma_rearranged_wider(a: Seq<i32>, b: Seq<i32>, lo: int, hi: int, from: int, to: int)
    requires
        0 <= from <= lo <= hi <= to <= a.len(),
        rearranged_between(a, b, lo, hi),
    ensures
        rearranged_between(a, b, from, to),
{
    let x = a.subrange(from, to);
    let y = b.subrange(from, to);
    assert(x.subrange(lo - from, hi - from) =~= a.subrange(lo, hi));
    assert(y.subrange(lo - from, hi - from) =~= b.subrange(lo, hi));
    lemma_range_permutation(x, y, lo - from, hi - from);
}

/// A rearrangement of a range keeps what the whole sequence holds.
pub proof fn lemma_rearranged_permutation(a: Seq<i32>, b: Seq<i32>, lo: int, hi: int)
    requires
        0 <= lo <= hi <= a.len(),
        rearranged_between(a, b, lo, hi),
    ensures
        permutation(a, b),
{
    lemma_range_permutation(a, b, lo, hi);
}

/// Two rearrangements of one range, one after the other, are a rearrangement of it.
pub proof fn lemma_rearranged_twice(a: Seq<i32>, b: Seq<i32>, c: Seq<i32>, lo: int, hi: int)
    requires
        rearranged_between(a, b, lo, hi),
        rearranged_between(b, c, lo, hi),
    ensures
        rearranged_between(a, c, lo, hi),
{
}

/// What bounds the values of a range bounds them after a rearrangement of the range.
pub proof fn lemma_rearranged_bounds(a: Seq<i32>, b: Seq<i32>, lo: int, hi: int, bound: i32)
    requires
        0 <= lo <= hi <= a.len(),
        rearranged_between(a, b, lo, hi),
    ensures
        (forall|k: int| lo <= k < hi ==> a[k] <= bound) ==> (forall|k: int|
            lo <= k < hi ==> b[k] <= bound),
        (forall|k: int| lo <= k < hi ==> a[k] >= bound) ==> (forall|k: int|
            lo <= k < hi ==> b[k] >= bound),
{
    let x = a.subrange(lo, hi);
    let y = b.subrange(lo, hi);
    lemma_permutation_bounds(x, y, bound);
    if forall|k: int| lo <= k < hi ==> a[k] <= bound {
        assert forall|k: int| 0 <= k < x.len() implies x[k] <= bound by {
            assert(x[k] == a[lo + k]);
        }
        assert forall|k: int| lo <= k < hi implies b[k] <= bound by {
            assert(y[k - lo] == b[k]);
        }
    }
    if forall|k: int| lo <= k < hi ==> a[k] >= bound {
        assert forall|k: int| 0 <= k < x.len() implies x[k] >= bound by {
            assert(x[k] == a[lo + k]);
        }
        assert forall|k: int| lo <= k < hi implies b[k] >= bound by {
            assert(y[k - lo] == b[k]);
        }
    }
}

/// Places that are in order pair by neighbouring pair are in order.
pub proof fn lemma_neighbours_sorted(s: Seq<i32>, lo: int, hi: int)
    requires
        0 <= lo,
        hi <= s.len(),
        forall|k: int| lo <= k && k + 1 < hi ==> s[k] <= #[trigger] s[k + 1],
    ensures
        sorted_between(s, lo, hi),
    decreases hi - lo,
{
    if lo < hi {
        lemma_neighbours_sorted(s, lo, hi - 1);
        assert forall|i: int, j: int| lo <= i <= j < hi implies s[i] <= s[j] by {
            if j == hi - 1 && i < j {
                assert(s[i] <= s[j - 1]);
                assert(s[j - 1] <= s[(j - 1) + 1]);
            }
        }
    }
}

/// Exchanges the values at places `i` and `j`.
pub fn swap(nums: &mut Vec<i32>, i: usize, j: usize)
    requires
        i < old(nums)@.len(),
        j < old(nums)@.len(),
    ensures
        final(nums)@ == swapped(old(nums)@, i as int, j as int),
        permutation(old(nums)@, final(nums)@),
        final(nums)@.len() == old(nums)@.len(),
{
    proof {
        lemma_swapped_permutation(nums@, i as int, j as int);
    }
    if i != j {
        let a = nums[i];
        let b = nums[j];
        nums.set(i, b);
        nums.set(j, a);
    } else {
        assert(swapped(nums@, i as int, j as int) =~= nums@);
    }
}

} // verus!
