//! The ordering contract that the ordered containers of this crate rely on.

use core::cmp::Ordering;
use vstd::laws_cmp::{obeys_cmp, obeys_cmp_ord, obeys_cmp_partial_ord, obeys_partial_cmp_spec_properties};
use vstd::laws_eq::obeys_concrete_eq;
use vstd::prelude::*;
use vstd::std_specs::cmp::{OrdSpec, PartialEqSpec, PartialOrdSpec};

verus! {

/// `T` compares as a strict total order whose notion of equality is plain equality of values.
pub open spec fn total_order<T: Ord>() -> bool {
    &&& obeys_cmp::<T>()
    &&& obeys_concrete_eq::<T>()
}

/// `a` is strictly below `b`.
pub open spec fn lt<T: Ord>(a: T, b: T) -> bool {
    a.cmp_spec(&b) == Ordering::Less
}

/// `a` is below or equal to `b`.
pub open spec fn le<T: Ord>(a: T, b: T) -> bool {
    lt(a, b) || a == b
}

/// No value is below itself.
pub proof fn lemma_lt_irreflexive<T: Ord>(a: T)
    requires
        total_order::<T>(),
    ensures
        !lt(a, a),
{
    reveal(obeys_cmp_ord);
    reveal(obeys_cmp_partial_ord);
    reveal(obeys_concrete_eq);
    reveal(obeys_partial_cmp_spec_properties);
    assert(a.partial_cmp_spec(&a) == Some(a.cmp_spec(&a)));
    assert(a.eq_spec(&a));
}

/// Exactly one of `a < b`, `a == b`, `b < a` holds.
pub proof fn lemma_lt_trichotomy<T: Ord>(a: T, b: T)
    requires
        total_order::<T>(),
    ensures
        lt(a, b) || a == b || lt(b, a),
        !(lt(a, b) && a == b),
        !(lt(b, a) && a == b),
        !(lt(a, b) && lt(b, a)),
        a.cmp_spec(&b) == Ordering::Greater <==> lt(b, a),
        a.cmp_spec(&b) == Ordering::Equal <==> a == b,
{
    reveal(obeys_cmp_ord);
    reveal(obeys_cmp_partial_ord);
    reveal(obeys_concrete_eq);
    reveal(obeys_partial_cmp_spec_properties);
    assert(a.partial_cmp_spec(&b) == Some(a.cmp_spec(&b)));
    assert(b.partial_cmp_spec(&a) == Some(b.cmp_spec(&a)));
}

/// `<` is transitive.
pub proof fn lemma_lt_transitive<T: Ord>(a: T, b: T, c: T)
    requires
        total_order::<T>(),
        lt(a, b),
        lt(b, c),
    ensures
        lt(a, c),
{
    reveal(obeys_cmp_ord);
    reveal(obeys_cmp_partial_ord);
    reveal(obeys_partial_cmp_spec_properties);
    assert(a.partial_cmp_spec(&b) == Some(a.cmp_spec(&b)));
    assert(b.partial_cmp_spec(&c) == Some(b.cmp_spec(&c)));
    assert(a.partial_cmp_spec(&c) == Some(a.cmp_spec(&c)));
}

/// Three-way comparison of two values.
pub fn compare<T: Ord>(a: &T, b: &T) -> (r: Ordering)
    requires
        total_order::<T>(),
    ensures
        r == a.cmp_spec(b),
        r == Ordering::Less <==> lt(*a, *b),
        r == Ordering::Equal <==> *a == *b,
        r == Ordering::Greater <==> lt(*b, *a),
{
    proof {
        reveal(obeys_cmp_ord);
        lemma_lt_trichotomy(*a, *b);
    }
    a.cmp(b)
}

/// Whether `a` is strictly below `b`.
pub fn less<T: Ord>(a: &T, b: &T) -> (r: bool)
    requires
        total_order::<T>(),
    ensures
        r == lt(*a, *b),
{
    match compare(a, b) {
        Ordering::Less => true,
        _ => false,
    }
}

/// `<=` is reflexive and transitive, and of two values one is below or equal to the other.
pub proof fn lemma_le_order<T: Ord>(a: T, b: T, c: T)
    requires
        total_order::<T>(),
    ensures
        le(a, a),
        le(a, b) && le(b, c) ==> le(a, c),
        le(a, b) || le(b, a),
        !lt(a, b) <==> le(b, a),
{
    lemma_lt_trichotomy(a, b);
    if lt(a, b) && lt(b, c) {
        lemma_lt_transitive(a, b, c);
    }
}

/// The integers are totally ordered.
pub proof fn lemma_integers_total_order()
    ensures
        total_order::<u8>(),
        total_order::<u16>(),
        total_order::<u32>(),
        total_order::<u64>(),
        total_order::<usize>(),
        total_order::<i8>(),
        total_order::<i16>(),
        total_order::<i32>(),
        total_order::<i64>(),
        total_order::<isize>(),
{
    broadcast use vstd::laws_cmp::group_laws_cmp;
    broadcast use vstd::laws_eq::group_laws_eq;
}

} // verus!
