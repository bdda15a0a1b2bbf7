//! The total order of the elements, stated over the comparison that `Ord` gives.

use std::cmp::Ordering;
use vstd::prelude::*;
use vstd::std_specs::cmp::{OrdSpec, PartialEqSpec, PartialOrdSpec};

verus! {

/// The comparison of `T` is a total order: `cmp`, `partial_cmp` and `==`
/// agree with each other and obey the usual laws.
pub open spec fn total_order<T: Ord>() -> bool {
    vstd::laws_cmp::obeys_cmp::<T>()
}

/// `a` does not come after `b`.
pub open spec fn le<T: Ord>(a: T, b: T) -> bool {
    a.cmp_spec(&b) != Ordering::Greater
}

/// `a` comes strictly before `b`.
pub open spec fn lt<T: Ord>(a: T, b: T) -> bool {
    a.cmp_spec(&b) == Ordering::Less
}

/// `a` and `b` compare as equal.
pub open spec fn equiv<T: Ord>(a: T, b: T) -> bool {
    a.cmp_spec(&b) == Ordering::Equal
}

/// Swapping the arguments of a comparison mirrors its outcome.
pub proof fn lemma_flip<T: Ord>(a: T, b: T)
    requires
        total_order::<T>(),
    ensures
        equiv(a, b) <==> equiv(b, a),
        le(a, b) <==> !lt(b, a),
        le(a, b) || le(b, a),
        equiv(a, b) <==> le(a, b) && le(b, a),
        lt(a, b) ==> le(a, b),
{
    reveal(vstd::laws_cmp::obeys_cmp_ord);
    reveal(vstd::laws_cmp::obeys_cmp_partial_ord);
    reveal(vstd::laws_cmp::obeys_partial_cmp_spec_properties);
    reveal(vstd::laws_eq::obeys_eq_spec_properties);
    assert(a.partial_cmp_spec(&b) == Some(a.cmp_spec(&b)));
    assert(b.partial_cmp_spec(&a) == Some(b.cmp_spec(&a)));
    assert(a.eq_spec(&b) <==> b.eq_spec(&a));
}

/// Every value compares as equal to itself.
pub proof fn lemma_refl<T: Ord>(a: T)
    requires
        total_order::<T>(),
    ensures
        equiv(a, a),
        le(a, a),
        !lt(a, a),
{
    lemma_flip(a, a);
}

/// Strictly-before is transitive.
pub proof fn lemma_lt_trans<T: Ord>(a: T, b: T, c: T)
    requires
        total_order::<T>(),
        lt(a, b),
        lt(b, c),
    ensures
        lt(a, c),
{
    reveal(vstd::laws_cmp::obeys_cmp_ord);
    reveal(vstd::laws_cmp::obeys_cmp_partial_ord);
    reveal(vstd::laws_cmp::obeys_partial_cmp_spec_properties);
    assert(a.partial_cmp_spec(&b) == Some(a.cmp_spec(&b)));
    assert(b.partial_cmp_spec(&c) == Some(b.cmp_spec(&c)));
    assert(a.partial_cmp_spec(&c) == Some(a.cmp_spec(&c)));
}

/// Comparing as equal is transitive.
pub proof fn lemma_equiv_trans<T: Ord>(a: T, b: T, c: T)
    requires
        total_order::<T>(),
        equiv(a, b),
        equiv(b, c),
    ensures
        equiv(a, c),
{
    reveal(vstd::laws_cmp::obeys_cmp_ord);
    reveal(vstd::laws_cmp::obeys_cmp_partial_ord);
    reveal(vstd::laws_cmp::obeys_partial_cmp_spec_properties);
    reveal(vstd::laws_eq::obeys_eq_spec_properties);
    assert(a.partial_cmp_spec(&b) == Some(a.cmp_spec(&b)));
    assert(b.partial_cmp_spec(&c) == Some(b.cmp_spec(&c)));
    assert(a.partial_cmp_spec(&c) == Some(a.cmp_spec(&c)));
    assert(a.eq_spec(&b) && b.eq_spec(&c));
    assert(a.eq_spec(&c));
}

/// A value equal to `a` stands to `c` as `a` does, and `c` to it as to `a`.
pub proof fn lemma_equiv_subst<T: Ord>(a: T, b: T, c: T)
    requires
        total_order::<T>(),
        equiv(a, b),
    ensures
        a.cmp_spec(&c) == b.cmp_spec(&c),
        c.cmp_spec(&a) == c.cmp_spec(&b),
{
    lemma_flip(a, b);
    lemma_flip(a, c);
    lemma_flip(b, c);
    if equiv(a, c) {
        lemma_equiv_trans(b, a, c);
    } else if equiv(b, c) {
        lemma_equiv_trans(a, b, c);
    } else if lt(a, c) && !lt(b, c) {
        // c < b, b == a, a < c
        lemma_flip(c, b);
        lemma_lt_trans(a, c, b);
    } else if lt(b, c) && !lt(a, c) {
        lemma_flip(c, a);
        lemma_lt_trans(b, c, a);
    }
}

/// Not-after is transitive.
pub proof fn lemma_le_trans<T: Ord>(a: T, b: T, c: T)
    requires
        total_order::<T>(),
        le(a, b),
        le(b, c),
    ensures
        le(a, c),
{
    lemma_flip(a, b);
    lemma_flip(b, c);
    lemma_flip(a, c);
    if equiv(a, b) {
        lemma_equiv_subst(a, b, c);
    } else if equiv(b, c) {
        lemma_equiv_subst(b, c, a);
    } else {
        lemma_lt_trans(a, b, c);
    }
}

/// Strictly-before followed by not-after is strictly-before.
pub proof fn lemma_lt_le_trans<T: Ord>(a: T, b: T, c: T)
    requires
        total_order::<T>(),
        lt(a, b),
        le(b, c),
    ensures
        lt(a, c),
{
    lemma_flip(b, c);
    if equiv(b, c) {
        lemma_equiv_subst(b, c, a);
    } else {
        lemma_lt_trans(a, b, c);
    }
}

/// Not-after followed by strictly-before is strictly-before.
pub proof fn lemma_le_lt_trans<T: Ord>(a: T, b: T, c: T)
    requires
        total_order::<T>(),
        le(a, b),
        lt(b, c),
    ensures
        lt(a, c),
{
    lemma_flip(a, b);
    if equiv(a, b) {
        lemma_equiv_subst(a, b, c);
    } else {
        lemma_lt_trans(a, b, c);
    }
}

/// Whether `a` does not come after `b`.
pub fn less_eq<T: Ord>(a: &T, b: &T) -> (r: bool)
    ensures
        total_order::<T>() ==> r == le(*a, *b),
{
    proof {
        reveal(vstd::laws_cmp::obeys_cmp_ord);
    }
    match a.cmp(b) {
        Ordering::Greater => false,
        _ => true,
    }
}

/// Whether `a` comes strictly before `b`.
pub fn less_than<T: Ord>(a: &T, b: &T) -> (r: bool)
    ensures
        total_order::<T>() ==> r == lt(*a, *b),
{
    proof {
        reveal(vstd::laws_cmp::obeys_cmp_ord);
    }
    match a.cmp(b) {
        Ordering::Less => true,
        _ => false,
    }
}

} // verus!
