//! What the containers of this crate say about the copies that `Clone` makes.

use vstd::prelude::*;

verus! {

/// Every clone of a `T` equals the value it was made from.
pub open spec fn exact_clone<T: Clone>() -> bool {
    forall|a: T, b: T| #[trigger] cloned(a, b) ==> a == b
}

/// `copy` holds, place by place, a clone of what `source` holds.
pub open spec fn clones_of<T: Clone>(source: Seq<T>, copy: Seq<T>) -> bool {
    &&& copy.len() == source.len()
    &&& forall|i: int| 0 <= i < source.len() ==> cloned(#[trigger] source[i], copy[i])
}

/// `after` is `before` followed by a clone of each element of `source`.
pub open spec fn extended_by_clones<T: Clone>(before: Seq<T>, source: Seq<T>, after: Seq<T>) -> bool {
    &&& after.len() == before.len() + source.len()
    &&& forall|i: int| 0 <= i < before.len() ==> #[trigger] after[i] == before[i]
    &&& forall|i: int|
        0 <= i < source.len() ==> cloned(#[trigger] source[i], after[before.len() + i])
}

/// Extending by nothing changes nothing, and two extensions in a row are one.
pub proof fn lemma_extended_twice<T: Clone>(
    before: Seq<T>,
    first: Seq<T>,
    mid: Seq<T>,
    second: Seq<T>,
    after: Seq<T>,
)
    requires
        extended_by_clones(before, first, mid),
        extended_by_clones(mid, second, after),
    ensures
        extended_by_clones(before, first + second, after),
        extended_by_clones(before, Seq::<T>::empty(), before),
{
    let both = first + second;
    assert forall|i: int| 0 <= i < both.len() implies cloned(
        #[trigger] both[i],
        after[before.len() + i],
    ) by {
        if i < first.len() {
            assert(both[i] == first[i]);
            assert(after[before.len() + i] == mid[before.len() + i]);
        } else {
            assert(both[i] == second[i - first.len()]);
        }
    }
    assert forall|i: int| 0 <= i < before.len() implies #[trigger] after[i] == before[i] by {
        assert(mid[i] == before[i]);
    }
}

/// An extension of the empty sequence is a sequence of clones; where clones are exact, an
/// extension is a concatenation.
pub proof fn lemma_extended_exact<T: Clone>(before: Seq<T>, source: Seq<T>, after: Seq<T>)
    requires
        extended_by_clones(before, source, after),
    ensures
        before.len() == 0 ==> clones_of(source, after),
        exact_clone::<T>() ==> after == before + source,
{
    if exact_clone::<T>() {
        assert forall|i: int| 0 <= i < after.len() implies after[i] == (before + source)[i] by {
            if i >= before.len() {
                assert(cloned(source[i - before.len()], after[before.len() + (i - before.len())]));
            }
        }
        assert(after =~= before + source);
    }
}

/// Where clones are exact, a sequence of clones is the sequence itself.
pub proof fn lemma_exact_clones<T: Clone>(source: Seq<T>, copy: Seq<T>)
    requires
        exact_clone::<T>(),
        clones_of(source, copy),
    ensures
        copy == source,
{
    assert(copy =~= source);
}

/// The clones of the integers are exact.
pub proof fn lemma_integers_clone_exactly()
    ensures
        exact_clone::<u8>(),
        exact_clone::<u16>(),
        exact_clone::<u32>(),
        exact_clone::<u64>(),
        exact_clone::<usize>(),
        exact_clone::<i8>(),
        exact_clone::<i16>(),
        exact_clone::<i32>(),
        exact_clone::<i64>(),
        exact_clone::<isize>(),
{
}

} // verus!
