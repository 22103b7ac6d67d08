//! Counting sort, for values that are not negative: the values are counted, and each goes to
//! the place that the counts of the smaller ones leave it.

use crate::sort::sorted::sorts;
use vstd::prelude::*;

verus! {

/// How often `v` occurs in `s`.
pub open spec fn count_of(s: Seq<i32>, v: int) -> nat
    decreases s.len(),
{
    if s.len() == 0 {
        0
    } else {
        count_of(s.drop_last(), v) + if s.last() == v {
            1nat
        } else {
            0nat
        }
    }
}

/// How many values of `s` are below `v`.
pub open spec fn count_below(s: Seq<i32>, v: int) -> nat
    decreases s.len(),
{
    if s.len() == 0 {
        0
    } else {
        count_below(s.drop_last(), v) + if s.last() < v {
            1nat
        } else {
            0nat
        }
    }
}

/// No value of `s` is negative.
pub open spec fn no_negative(s: Seq<i32>) -> bool {
    forall|i: int| 0 <= i < s.len() ==> #[trigger] s[i] >= 0
}

/// Every value of `s` lies from `lo` up to, not including, `hi`.
pub open spec fn within(s: Seq<i32>, lo: int, hi: int) -> bool {
    forall|i: int| 0 <= i < s.len() ==> lo <= #[trigger] s[i] && s[i] < hi
}

/// The values below `v + 1` are those below `v` and those equal to `v`; no count is above the
/// length.
proof fn lemma_counts(s: Seq<i32>, v: int)
    ensures
        count_below(s, v + 1) == count_below(s, v) + count_of(s, v),
        count_below(s, v) <= s.len(),
        count_of(s, v) <= s.len(),
    decreases s.len(),
{
    if s.len() > 0 {
        lemma_counts(s.drop_last(), v);
    }
}

/// Where every value lies from `lo` up to, not including, `hi`, none is below `lo` and all
/// are below `hi`.
proof fn lemma_count_bounds(s: Seq<i32>, lo: int, hi: int)
    requires
        within(s, lo, hi),
    ensures
        count_below(s, lo) == 0,
        count_below(s, hi) == s.len(),
        forall|v: int| v < lo || v >= hi ==> count_of(s, v) == 0,
    decreases s.len(),
{
    if s.len() > 0 {
        lemma_count_bounds(s.drop_last(), lo, hi);
        assert forall|v: int| v < lo || v >= hi implies count_of(s, v) == 0 by {
            assert(count_of(s.drop_last(), v) == 0);
        }
    }
}

/// The count of the smaller values grows with the value.
proof fn lemma_count_below_grows(s: Seq<i32>, v: int, w: int)
    requires
        v <= w,
    ensures
        count_below(s, v) <= count_below(s, w),
    decreases s.len(),
{
    if s.len() > 0 {
        lemma_count_below_grows(s.drop_last(), v, w);
    }
}

/// Behind the values that were looked at lies one more value: what that does to the counts
/// of those looked at, taken from the front or from the back.
proof fn lemma_count_step(s: Seq<i32>, i: int, v: int)
    requires
        0 <= i < s.len(),
    ensures
        count_of(s.take(i + 1), v) == count_of(s.take(i), v) + if s[i] == v {
            1nat
        } else {
            0nat
        },
        count_of(s.skip(i), v) == count_of(s.skip(i + 1), v) + if s[i] == v {
            1nat
        } else {
            0nat
        },
        count_of(s.take(0), v) == 0,
        count_of(s.skip(s.len() as int), v) == 0,
        count_of(s.skip(0), v) == count_of(s, v),
{
    assert(s.take(i + 1).drop_last() =~= s.take(i));
    assert(s.skip(0) =~= s);
    lemma_count_front(s.skip(i), v);
    assert(s.skip(i).drop_first() =~= s.skip(i + 1));
}

/// The count of a value in a sequence, taken from the front.
proof fn lemma_count_front(s: Seq<i32>, v: int)
    requires
        s.len() > 0,
    ensures
        count_of(s, v) == count_of(s.drop_first(), v) + if s[0] == v {
            1nat
        } else {
            0nat
        },
    decreases s.len(),
{
    if s.len() > 1 {
        lemma_count_front(s.drop_last(), v);
        assert(s.drop_last().drop_first() =~= s.drop_first().drop_last());
    } else {
        assert(s.drop_first() =~= s.drop_last());
    }
}

/// A value occurs in what a sequence holds as often as it is counted.
proof fn lemma_count_is_multiplicity(s: Seq<i32>, v: i32)
    ensures
        s.to_multiset().count(v) == count_of(s, v as int),
    decreases s.len(),
{
    broadcast use vstd::multiset::group_multiset_axioms;

    if s.len() == 0 {
        vstd::seq_lib::to_multiset_len(s);
        assert(s.to_multiset().len() == 0);
        if s.to_multiset().count(v) > 0 {
            vstd::seq_lib::to_multiset_contains(s, v);
        }
    } else {
        lemma_count_is_multiplicity(s.drop_last(), v);
        vstd::seq_lib::to_multiset_build(s.drop_last(), s.last());
        assert(s.drop_last().push(s.last()) =~= s);
    }
}

/// Every value of `r` lies in its block: behind as many places as there are smaller values
/// in the input, and before the place where the larger values begin.
spec fn in_blocks(input: Seq<i32>, r: Seq<i32>) -> bool {
    forall|p: int|
        0 <= p < r.len() ==> count_below(input, #[trigger] r[p] as int) <= p < count_below(
            input,
            r[p] + 1,
        )
}

/// Each place lies in the block of one value.
proof fn lemma_block_of(input: Seq<i32>, hi: int, p: int, v: int) -> (w: int)
    requires
        0 <= v < hi,
        within(input, 0, hi),
        count_below(input, v) <= p < input.len(),
    ensures
        v <= w < hi,
        count_below(input, w) <= p < count_below(input, w + 1),
    decreases hi - v,
{
    lemma_count_bounds(input, 0, hi);
    if p < count_below(input, v + 1) {
        v
    } else {
        lemma_block_of(input, hi, p, v + 1)
    }
}

/// How many of the first `m` places lie in the block of `v`.
spec fn in_block_before(input: Seq<i32>, v: int, m: int) -> int {
    if m <= count_below(input, v) {
        0
    } else if m <= count_below(input, v + 1) {
        m - count_below(input, v)
    } else {
        count_below(input, v + 1) - count_below(input, v)
    }
}

/// Among the first `m` values of a sequence whose values lie in their blocks, `v` occurs as
/// often as places of its block are among the first `m`.
proof fn lemma_blocks_count(input: Seq<i32>, r: Seq<i32>, v: int, m: int)
    requires
        r.len() == input.len(),
        in_blocks(input, r),
        0 <= m <= r.len(),
    ensures
        count_of(r.take(m), v) == in_block_before(input, v, m),
    decreases m,
{
    lemma_count_below_grows(input, v, v + 1);
    if m > 0 {
        lemma_blocks_count(input, r, v, m - 1);
        assert(r.take(m).drop_last() =~= r.take(m - 1));
        let p = m - 1;
        let u = r[p] as int;
        assert(r.take(m).last() == r[p]);
        assert(count_below(input, u) <= p < count_below(input, u + 1));
        if u < v {
            lemma_count_below_grows(input, u + 1, v);
        } else if u > v {
            lemma_count_below_grows(input, v + 1, u);
        }
    }
}

/// A sequence whose values lie in their blocks is the input put in order.
proof fn lemma_blocks_sort(input: Seq<i32>, r: Seq<i32>)
    requires
        r.len() == input.len(),
        in_blocks(input, r),
    ensures
        sorts(input, r),
{
    assert forall|i: int, j: int| 0 <= i <= j < r.len() implies r[i] <= r[j] by {
        let v = r[i] as int;
        let w = r[j] as int;
        assert(count_below(input, v) <= i < count_below(input, v + 1));
        assert(count_below(input, w) <= j < count_below(input, w + 1));
        if v > w {
            lemma_count_below_grows(input, w + 1, v);
        }
    }
    assert forall|x: i32| r.to_multiset().count(x) == input.to_multiset().count(x) by {
        lemma_count_is_multiplicity(r, x);
        lemma_count_is_multiplicity(input, x);
        lemma_blocks_count(input, r, x as int, r.len() as int);
        assert(r.take(r.len() as int) =~= r);
        lemma_counts(input, x as int);
        lemma_counts(input, x + 1);
    }
    assert(r.to_multiset() =~= input.to_multiset());
}

pub fn counting_sort(mut nums: Vec<i32>) -> (result: Vec<i32>)
    requires
        no_negative(nums@),
    ensures
        sorts(nums@, result@),
{
    let ghost input = nums@;
    let n = nums.len();
    if n == 0 {
        return nums;
    }
    let mut max: usize = 0;
    let mut i: usize = 0;
    while i < n
        invariant
            n == nums@.len(),
            nums@ == input,
            no_negative(input),
            i <= n,
            max <= i32::MAX,
            forall|k: int| 0 <= k < i ==> #[trigger] input[k] <= max,
        decreases n - i,
    {
        let value = nums[i];
        if value as usize > max {
            max = value as usize;
        }
        i += 1;
    }
    let ghost hi = max + 1;

    let mut counter: Vec<usize> = Vec::new();
    let mut v: usize = 0;
    while v <= max
        invariant
            v <= max + 1,
            max <= i32::MAX,
            counter@.len() == v,
            forall|k: int| 0 <= k < v ==> counter@[k] == 0,
        decreases max + 1 - v,
    {
        counter.push(0);
        v += 1;
    }

    let mut i: usize = 0;
    while i < n
        invariant
            n == nums@.len(),
            nums@ == input,
            i <= n,
            counter@.len() == max + 1,
            within(input, 0, max + 1),
            forall|w: int| 0 <= w <= max ==> counter@[w] == count_of(input.take(i as int), w),
        decreases n - i,
    {
        let value = nums[i] as usize;
        proof {
            assert forall|w: int| 0 <= w <= max implies count_of(input.take(i + 1), w) == count_of(
                input.take(i as int),
                w,
            ) + if input[i as int] == w {
                1nat
            } else {
                0nat
            } by {
                lemma_count_step(input, i as int, w);
            }
            lemma_counts(input.take(i as int), value as int);
        }
        let count = counter[value];
        counter.set(value, count + 1);
        i += 1;
    }
    assert(input.take(n as int) =~= input);

    let mut v: usize = 0;
    proof {
        lemma_count_bounds(input, 0, hi as int);
        lemma_counts(input, 0);
    }
    while v < max
        invariant
            v <= max,
            n == input.len(),
            counter@.len() == max + 1,
            within(input, 0, max + 1),
            forall|w: int| 0 <= w <= v ==> counter@[w] == count_below(input, w + 1),
            forall|w: int| v < w <= max ==> counter@[w] == count_of(input, w),
        decreases max - v,
    {
        proof {
            lemma_counts(input, v + 1);
            lemma_counts(input, v + 2);
        }
        let sum = counter[v + 1] + counter[v];
        counter.set(v + 1, sum);
        v += 1;
    }

    let mut result: Vec<i32> = Vec::new();
    let mut i: usize = 0;
    while i < n
        invariant
            i <= n,
            result@.len() == i,
        decreases n - i,
    {
        result.push(0);
        i += 1;
    }

    let mut k: usize = n;
    let ghost mut filled: Seq<bool> = Seq::new(n as nat, |p: int| false);
    proof {
        assert forall|w: int| 0 <= w <= max implies count_of(input.skip(n as int), w) == 0 by {
            lemma_count_step(input, 0, w);
        }
    }
    while k > 0
        invariant
            n == nums@.len(),
            nums@ == input,
            k <= n,
            result@.len() == n,
            filled.len() == n,
            counter@.len() == max + 1,
            max <= i32::MAX,
            within(input, 0, max + 1),
            forall|w: int|
                0 <= w <= max ==> #[trigger] counter@[w] + count_of(input.skip(k as int), w)
                    == count_below(input, w + 1),
            forall|p: int|
                0 <= p < n && #[trigger] filled[p] ==> 0 <= result@[p] <= max
                    && counter@[result@[p] as int] <= p < count_below(input, result@[p] + 1),
            forall|w: int, p: int|
                #![trigger counter@[w], filled[p]]
                0 <= w <= max && counter@[w] <= p < count_below(input, w + 1) && p < n
                    ==> filled[p],
        decreases k,
    {
        k -= 1;
        let num = nums[k];
        let slot = num as usize;
        proof {
            lemma_count_step(input, k as int, slot as int);
            lemma_counts(input, slot as int);
            lemma_counts(input, slot + 1);
            lemma_count_parts(input, k as int, slot as int);
            assert(counter@[slot as int] + count_of(input.skip(k + 1), slot as int) == count_below(
                input,
                slot + 1,
            ));
            assert(counter@[slot as int] >= 1);
            assert(counter@[slot as int] <= n);
        }
        let place = counter[slot] - 1;
        let ghost counts = counter@;
        result.set(place, num);
        counter.set(slot, place);
        proof {
            let ghost filled_before = filled;
            filled = filled.update(place as int, true);
            assert forall|w: int| 0 <= w <= max implies #[trigger] counter@[w] + count_of(
                input.skip(k as int),
                w,
            ) == count_below(input, w + 1) by {
                lemma_count_step(input, k as int, w);
                assert(counts[w] + count_of(input.skip(k + 1), w) == count_below(input, w + 1));
            }
            assert forall|p: int| 0 <= p < n && #[trigger] filled[p] implies 0 <= result@[p] <= max
                && counter@[result@[p] as int] <= p < count_below(input, result@[p] + 1) by {
                if p != place {
                    assert(filled_before[p]);
                    assert(counts[result@[p] as int] <= p);
                }
            }
            assert forall|w: int, p: int|
                #![trigger counter@[w], filled[p]]
                0 <= w <= max && counter@[w] <= p < count_below(input, w + 1) && p < n implies filled[p] by {
                lemma_counts(input, w + 1);
                if p != place {
                    assert(counts[w] <= p);
                    assert(filled_before[p]);
                }
            }
        }
    }
    proof {
        lemma_count_bounds(input, 0, max + 1);
        assert forall|p: int| 0 <= p < n implies count_below(input, #[trigger] result@[p] as int)
            <= p < count_below(input, result@[p] + 1) by {
            let w = lemma_block_of(input, max + 1, p, 0);
            lemma_counts(input, w);
            lemma_count_step(input, 0, w);
            assert(counter@[w] + count_of(input.skip(0), w) == count_below(input, w + 1));
            assert(counter@[w] == count_below(input, w));
            assert(filled[p]);
            let u = result@[p] as int;
            lemma_counts(input, u);
            assert(counter@[u] + count_of(input.skip(0), u) == count_below(input, u + 1));
        }
        lemma_blocks_sort(input, result@);
    }

    let mut i: usize = 0;
    while i < n
        invariant
            i <= n,
            n == nums@.len(),
            n == result@.len(),
            forall|j: int| 0 <= j < i ==> nums@[j] == result@[j],
        decreases n - i,
    {
        nums.set(i, result[i]);
        i += 1;
    }
    assert(nums@ =~= result@);
    nums
}

/// The values equal to `v` behind place `k` are among all those equal to `v`.
proof fn lemma_count_parts(s: Seq<i32>, k: int, v: int)
    requires
        0 <= k <= s.len(),
    ensures
        count_of(s.skip(k), v) <= count_of(s, v),
    decreases k,
{
    if k == 0 {
        assert(s.skip(0) =~= s);
    } else {
        lemma_count_parts(s, k - 1, v);
        lemma_count_step(s, k - 1, v);
    }
}

} // verus!
