//! Sequences that hold the same values in another order.

use vstd::prelude::*;

verus! {

/// `b` holds what `a` holds, each value as often, in some order.
pub open spec fn permutation<A>(a: Seq<A>, b: Seq<A>) -> bool {
    a.to_multiset() == b.to_multiset()
}

/// `s` with the values at places `i` and `j` exchanged.
pub open spec fn swapped<A>(s: Seq<A>, i: int, j: int) -> Seq<A> {
    s.update(i, s[j]).update(j, s[i])
}

/// Exchanging two places keeps what a sequence holds.
pub proof fn lemma_swapped_permutation<A>(s: Seq<A>, i: int, j: int)
    requires
        0 <= i < s.len(),
        0 <= j < s.len(),
    ensures
        permutation(s, swapped(s, i, j)),
        swapped(s, i, j).len() == s.len(),
{
    broadcast use vstd::seq_lib::to_multiset_update;
    broadcast use vstd::multiset::group_multiset_axioms;
    broadcast use vstd::seq_lib::to_multiset_contains;

    let mid = s.update(i, s[j]);
    assert(mid.to_multiset() == s.to_multiset().insert(s[j]).remove(s[i]));
    assert(swapped(s, i, j).to_multiset() == mid.to_multiset().insert(s[i]).remove(mid[j]));
    if i == j {
        assert(swapped(s, i, j) =~= s);
    } else {
        assert(mid[j] == s[j]);
        assert(s.contains(s[i]));
        assert(s.contains(s[j]));
        assert(swapped(s, i, j).to_multiset() =~= s.to_multiset());
    }
}

/// Two sequences that differ only between `lo` and `hi`, and hold the same values there, hold
/// the same values.
pub proof fn lemma_range_permutation<A>(a: Seq<A>, b: Seq<A>, lo: int, hi: int)
    requires
        0 <= lo <= hi <= a.len(),
        a.len() == b.len(),
        forall|k: int| 0 <= k < a.len() && !(lo <= k < hi) ==> a[k] == b[k],
        permutation(a.subrange(lo, hi), b.subrange(lo, hi)),
    ensures
        permutation(a, b),
{
    broadcast use vstd::seq_lib::lemma_multiset_commutative;

    let n = a.len() as int;
    assert(a =~= a.subrange(0, lo) + a.subrange(lo, hi) + a.subrange(hi, n));
    assert(b =~= b.subrange(0, lo) + b.subrange(lo, hi) + b.subrange(hi, n));
    assert(a.subrange(0, lo) =~= b.subrange(0, lo));
    assert(a.subrange(hi, n) =~= b.subrange(hi, n));
}

} // verus!
