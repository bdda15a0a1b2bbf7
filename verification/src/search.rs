//! Sorted sequences, and binary search within one bucket.

use crate::order::{
    equiv, le, lemma_flip, lemma_le_lt_trans, lemma_le_trans, lemma_lt_le_trans, less_eq,
    less_than, lt, total_order,
};
use vstd::prelude::*;

verus! {

/// No element of `s` comes after a later one.
pub open spec fn sorted<T: Ord>(s: Seq<T>) -> bool {
    forall|i: int, j: int| 0 <= i < j < s.len() ==> le(#[trigger] s[i], #[trigger] s[j])
}

/// `p` parts `s` into the elements strictly before `x` and those not before it.
pub open spec fn is_lower_bound<T: Ord>(s: Seq<T>, x: T, p: int) -> bool {
    &&& 0 <= p <= s.len()
    &&& forall|i: int| 0 <= i < p ==> lt(#[trigger] s[i], x)
    &&& forall|i: int| p <= i < s.len() ==> le(x, #[trigger] s[i])
}

/// `x` may stand at place `p` of `s` without breaking the order.
pub open spec fn is_slot<T: Ord>(s: Seq<T>, x: T, p: int) -> bool {
    &&& 0 <= p <= s.len()
    &&& forall|i: int| 0 <= i < p ==> le(#[trigger] s[i], x)
    &&& forall|i: int| p <= i < s.len() ==> le(x, #[trigger] s[i])
}

/// `x` is absent from `s`, and `p` is where it would stand.
pub open spec fn is_gap<T: Ord>(s: Seq<T>, x: T, p: int) -> bool {
    &&& 0 <= p <= s.len()
    &&& forall|i: int| 0 <= i < p ==> lt(#[trigger] s[i], x)
    &&& forall|i: int| p <= i < s.len() ==> lt(x, #[trigger] s[i])
}

/// Some element of `s` compares as equal to `x`.
pub open spec fn occurs<T: Ord>(s: Seq<T>, x: T) -> bool {
    exists|i: int| 0 <= i < s.len() && equiv(#[trigger] s[i], x)
}

/// An element put into a slot of a sorted sequence leaves it sorted.
pub proof fn lemma_insert_sorted<T: Ord>(s: Seq<T>, x: T, p: int)
    requires
        sorted(s),
        is_slot(s, x, p),
    ensures
        sorted(s.insert(p, x)),
{
    let t = s.insert(p, x);
    assert forall|i: int, j: int| 0 <= i < j < t.len() implies le(
        #[trigger] t[i],
        #[trigger] t[j],
    ) by {
        if i < p && j > p {
            assert(t[i] == s[i] && t[j] == s[j - 1]);
        } else if i < p && j < p {
            assert(t[i] == s[i] && t[j] == s[j]);
        } else if i > p {
            assert(t[i] == s[i - 1] && t[j] == s[j - 1]);
        } else if i == p {
            assert(t[j] == s[j - 1]);
        } else {
            assert(t[i] == s[i]);
        }
    }
}

/// A sorted sequence stays sorted when an element leaves it.
pub proof fn lemma_remove_sorted<T: Ord>(s: Seq<T>, p: int)
    requires
        sorted(s),
        0 <= p < s.len(),
    ensures
        sorted(s.remove(p)),
{
    let t = s.remove(p);
    assert forall|i: int, j: int| 0 <= i < j < t.len() implies le(
        #[trigger] t[i],
        #[trigger] t[j],
    ) by {
        let a = if i < p { i } else { i + 1 };
        let b = if j < p { j } else { j + 1 };
        assert(t[i] == s[a] && t[j] == s[b]);
    }
}

/// A stretch of a sorted sequence is sorted.
pub proof fn lemma_subrange_sorted<T: Ord>(s: Seq<T>, lo: int, hi: int)
    requires
        sorted(s),
        0 <= lo <= hi <= s.len(),
    ensures
        sorted(s.subrange(lo, hi)),
{
    let t = s.subrange(lo, hi);
    assert forall|i: int, j: int| 0 <= i < j < t.len() implies le(
        #[trigger] t[i],
        #[trigger] t[j],
    ) by {
        assert(t[i] == s[lo + i] && t[j] == s[lo + j]);
    }
}

/// In a sorted sequence, a gap for `x` means that no element compares as equal to `x`, and an
/// element that compares as equal means that there is no gap.
pub proof fn lemma_gap_excludes<T: Ord>(s: Seq<T>, x: T, p: int)
    requires
        total_order::<T>(),
        is_gap(s, x, p),
    ensures
        !occurs(s, x),
{
    if occurs(s, x) {
        let i = choose|i: int| 0 <= i < s.len() && equiv(#[trigger] s[i], x);
        lemma_flip(s[i], x);
        lemma_flip(x, s[i]);
    }
}

/// The first place in the sorted `v` whose element does not come before `x`.
pub fn lower_bound<T: Ord>(v: &Vec<T>, x: &T) -> (p: usize)
    requires
        total_order::<T>(),
        sorted(v@),
    ensures
        is_lower_bound(v@, *x, p as int),
{
    let mut lo: usize = 0;
    let mut hi: usize = v.len();
    while lo < hi
        invariant
            total_order::<T>(),
            sorted(v@),
            0 <= lo <= hi <= v.len(),
            forall|i: int| 0 <= i < lo ==> lt(#[trigger] v@[i], *x),
            forall|i: int| hi <= i < v.len() ==> le(*x, #[trigger] v@[i]),
        decreases hi - lo,
    {
        let mid = lo + (hi - lo) / 2;
        if less_than(&v[mid], x) {
            proof {
                assert forall|i: int| 0 <= i < mid + 1 implies lt(#[trigger] v@[i], *x) by {
                    if i < mid {
                        lemma_le_lt_trans(v@[i], v@[mid as int], *x);
                    }
                }
            }
            lo = mid + 1;
        } else {
            proof {
                lemma_flip(*x, v@[mid as int]);
                assert forall|i: int| mid <= i < v.len() implies le(*x, #[trigger] v@[i]) by {
                    if i > mid {
                        lemma_le_trans(*x, v@[mid as int], v@[i]);
                    }
                }
            }
            hi = mid;
        }
    }
    lo
}

/// Looks `x` up in the sorted `v`: `Ok` with the first place that holds an element equal to
/// `x`, or `Err` with the place where `x` would stand.
pub fn search<T: Ord>(v: &Vec<T>, x: &T) -> (r: Result<usize, usize>)
    requires
        total_order::<T>(),
        sorted(v@),
    ensures
        match r {
            Ok(p) => p < v.len() && equiv(v@[p as int], *x) && is_lower_bound(v@, *x, p as int),
            Err(p) => is_gap(v@, *x, p as int),
        },
{
    let p = lower_bound(v, x);
    if p < v.len() && less_eq(&v[p], x) {
        proof {
            lemma_flip(v@[p as int], *x);
        }
        Ok(p)
    } else {
        proof {
            assert forall|i: int| p <= i < v.len() implies lt(*x, #[trigger] v@[i]) by {
                lemma_flip(v@[p as int], *x);
                if i > p {
                    lemma_lt_le_trans(*x, v@[p as int], v@[i]);
                }
            }
        }
        Err(p)
    }
}

} // verus!
