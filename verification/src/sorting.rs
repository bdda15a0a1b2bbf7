//! A stable merge sort, and what it means for a sequence to be the stable sort of another.

use crate::order::{
    equiv, le, lemma_equiv_subst, lemma_flip, lemma_le_trans, lemma_refl, less_than, lt,
    total_order,
};
use crate::search::sorted;
use vstd::multiset::Multiset;
use vstd::prelude::*;

verus! {

/// The elements of `s` that compare as equal to `v`, in the order in which they stand in `s`.
pub open spec fn class<T: Ord>(s: Seq<T>, v: T) -> Seq<T>
    decreases s.len(),
{
    if s.len() == 0 {
        Seq::empty()
    } else if equiv(s.last(), v) {
        class(s.drop_last(), v).push(s.last())
    } else {
        class(s.drop_last(), v)
    }
}

/// The elements of `s` that compare as equal to `v`, last to first.
pub open spec fn class_back<T: Ord>(s: Seq<T>, v: T) -> Seq<T>
    decreases s.len(),
{
    if s.len() == 0 {
        Seq::empty()
    } else if equiv(s.last(), v) {
        seq![s.last()] + class_back(s.drop_last(), v)
    } else {
        class_back(s.drop_last(), v)
    }
}

/// `r` is `s` sorted stably: `r` is in ascending order, and the elements that compare as equal
/// to any one value are the same in `r` as in `s`, in the same order.
pub open spec fn is_stable_sort_of<T: Ord>(r: Seq<T>, s: Seq<T>) -> bool {
    &&& sorted(r)
    &&& r.len() == s.len()
    &&& forall|v: T| #[trigger] class(r, v) == class(s, v)
}

/// No element of `s` comes before a later one.
pub open spec fn descending<T: Ord>(s: Seq<T>) -> bool {
    forall|i: int, j: int| 0 <= i < j < s.len() ==> le(#[trigger] s[j], #[trigger] s[i])
}

/// No element of `s` comes after an element of `t`.
pub open spec fn all_le<T: Ord>(s: Seq<T>, t: Seq<T>) -> bool {
    forall|i: int, j: int|
        0 <= i < s.len() && 0 <= j < t.len() ==> le(#[trigger] s[i], #[trigger] t[j])
}

/// The class of a value in two sequences in a row is its class in the one, then in the other.
pub proof fn lemma_class_concat<T: Ord>(a: Seq<T>, b: Seq<T>, v: T)
    ensures
        class(a + b, v) == class(a, v) + class(b, v),
    decreases b.len(),
{
    if b.len() == 0 {
        assert(a + b =~= a);
        assert(class(a, v) + class(b, v) =~= class(a, v));
    } else {
        assert((a + b).drop_last() =~= a + b.drop_last());
        lemma_class_concat(a, b.drop_last(), v);
        assert(class(a + b, v) =~= class(a, v) + class(b, v));
    }
}

/// A sequence without an element that compares as equal to `v` has an empty class of `v`.
pub proof fn lemma_class_none<T: Ord>(s: Seq<T>, v: T)
    requires
        forall|i: int| 0 <= i < s.len() ==> !equiv(#[trigger] s[i], v),
    ensures
        class(s, v) == Seq::<T>::empty(),
    decreases s.len(),
{
    if s.len() > 0 {
        assert(!equiv(s[s.len() - 1], v));
        assert forall|i: int| 0 <= i < s.drop_last().len() implies !equiv(
            #[trigger] s.drop_last()[i],
            v,
        ) by {
            assert(s.drop_last()[i] == s[i]);
        }
        lemma_class_none(s.drop_last(), v);
    }
}

/// Moves the elements of `v` into a new vector, last to first.
pub fn reversed<T>(v: Vec<T>) -> (r: Vec<T>)
    ensures
        r@ == v@.reverse(),
        r@.len() == v@.len(),
        forall|k: int| 0 <= k < r@.len() ==> r@[k] == v@[v@.len() - 1 - k],
{
    let mut v = v;
    let mut r: Vec<T> = Vec::new();
    let ghost whole = v@;
    while v.len() > 0
        invariant
            v@.len() + r@.len() == whole.len(),
            v@ == whole.take(v@.len() as int),
            forall|k: int| 0 <= k < r@.len() ==> r@[k] == whole[whole.len() - 1 - k],
        decreases v.len(),
    {
        let x = v.pop().unwrap();
        r.push(x);
    }
    proof {
        assert(r@ =~= whole.reverse());
    }
    r
}

/// The class of a value in a sequence, last to first, is its class in the sequence turned
/// round.
pub proof fn lemma_class_turned<T: Ord>(s: Seq<T>, r: Seq<T>, v: T)
    requires
        r.len() == s.len(),
        forall|k: int| 0 <= k < r.len() ==> r[k] == s[s.len() - 1 - k],
    ensures
        class(r, v) == class_back(s, v),
    decreases s.len(),
{
    if s.len() > 0 {
        let x = s.last();
        let r1 = r.subrange(1, r.len() as int);
        assert(r =~= seq![x] + r1);
        lemma_class_concat(seq![x], r1, v);
        lemma_class_turned(s.drop_last(), r1, v);
        assert(seq![x].drop_last() =~= Seq::<T>::empty());
        assert(class(Seq::<T>::empty(), v) =~= Seq::<T>::empty());
        if equiv(x, v) {
            assert(class(seq![x], v) =~= seq![x]);
        } else {
            assert(class(seq![x], v) =~= Seq::<T>::empty());
            assert(Seq::<T>::empty() + class(r1, v) =~= class(r1, v));
        }
    }
}

/// What holds between two sorted runs that are being merged from their ends and what has been
/// taken from them so far, largest first: whatever remains comes no later than what was taken.
pub open spec fn merging<T: Ord>(a: Seq<T>, b: Seq<T>, out: Seq<T>) -> bool {
    &&& sorted(a)
    &&& sorted(b)
    &&& descending(out)
    &&& all_le(a, out)
    &&& all_le(b, out)
}

/// Taking the last element of `a`, before which every element of `b` comes, keeps the merge
/// in order.
pub proof fn lemma_take_left<T: Ord>(a: Seq<T>, b: Seq<T>, out: Seq<T>)
    requires
        total_order::<T>(),
        merging(a, b, out),
        a.len() > 0,
        forall|j: int| 0 <= j < b.len() ==> lt(#[trigger] b[j], a.last()),
    ensures
        merging(a.drop_last(), b, out.push(a.last())),
{
    let x = a.last();
    let a1 = a.drop_last();
    let out1 = out.push(x);
    assert forall|i: int, j: int| 0 <= i < j < a1.len() implies le(
        #[trigger] a1[i],
        #[trigger] a1[j],
    ) by {
        assert(a1[i] == a[i] && a1[j] == a[j]);
    }
    assert forall|i: int, j: int| 0 <= i < j < out1.len() implies le(
        #[trigger] out1[j],
        #[trigger] out1[i],
    ) by {
        if j == out.len() {
            assert(out1[i] == out[i]);
            assert(le(a[a.len() - 1], out[i]));
        } else {
            assert(out1[i] == out[i] && out1[j] == out[j]);
        }
    }
    assert forall|i: int, j: int| 0 <= i < a1.len() && 0 <= j < out1.len() implies le(
        #[trigger] a1[i],
        #[trigger] out1[j],
    ) by {
        assert(a1[i] == a[i]);
        if j == out.len() {
            assert(le(a[i], a[a.len() - 1]));
        } else {
            assert(out1[j] == out[j]);
        }
    }
    assert forall|i: int, j: int| 0 <= i < b.len() && 0 <= j < out1.len() implies le(
        #[trigger] b[i],
        #[trigger] out1[j],
    ) by {
        if j == out.len() {
            lemma_flip(b[i], x);
        } else {
            assert(out1[j] == out[j]);
        }
    }
}

/// Taking the last element of `a`, before which every element of `b` comes, keeps the classes
/// of the merge.
pub proof fn lemma_take_left_class<T: Ord>(a: Seq<T>, b: Seq<T>, out: Seq<T>, v: T)
    requires
        total_order::<T>(),
        a.len() > 0,
        forall|j: int| 0 <= j < b.len() ==> lt(#[trigger] b[j], a.last()),
    ensures
        class(a, v) + class(b, v) + class_back(out, v) == class(a.drop_last(), v) + class(b, v)
            + class_back(out.push(a.last()), v),
{
    let x = a.last();
    let out1 = out.push(x);
    assert(out1.drop_last() =~= out);
    if equiv(x, v) {
        assert forall|j: int| 0 <= j < b.len() implies !equiv(#[trigger] b[j], v) by {
            if equiv(b[j], v) {
                lemma_flip(x, v);
                lemma_equiv_subst(b[j], v, x);
                lemma_refl(x);
                lemma_equiv_subst(v, x, x);
            }
        }
        lemma_class_none(b, v);
        assert(class(a, v) + class(b, v) + class_back(out, v) =~= class(a.drop_last(), v) + class(
            b,
            v,
        ) + class_back(out1, v));
    }
}

/// Taking the last element of `b`, after which no element of `a` comes, keeps the merge in
/// order.
pub proof fn lemma_take_right<T: Ord>(a: Seq<T>, b: Seq<T>, out: Seq<T>)
    requires
        total_order::<T>(),
        merging(a, b, out),
        b.len() > 0,
        forall|i: int| 0 <= i < a.len() ==> le(#[trigger] a[i], b.last()),
    ensures
        merging(a, b.drop_last(), out.push(b.last())),
{
    let y = b.last();
    let b1 = b.drop_last();
    let out1 = out.push(y);
    assert forall|i: int, j: int| 0 <= i < j < b1.len() implies le(
        #[trigger] b1[i],
        #[trigger] b1[j],
    ) by {
        assert(b1[i] == b[i] && b1[j] == b[j]);
    }
    assert forall|i: int, j: int| 0 <= i < j < out1.len() implies le(
        #[trigger] out1[j],
        #[trigger] out1[i],
    ) by {
        if j == out.len() {
            assert(out1[i] == out[i]);
            assert(le(b[b.len() - 1], out[i]));
        } else {
            assert(out1[i] == out[i] && out1[j] == out[j]);
        }
    }
    assert forall|i: int, j: int| 0 <= i < b1.len() && 0 <= j < out1.len() implies le(
        #[trigger] b1[i],
        #[trigger] out1[j],
    ) by {
        assert(b1[i] == b[i]);
        if j == out.len() {
            assert(le(b[i], b[b.len() - 1]));
        } else {
            assert(out1[j] == out[j]);
        }
    }
    assert forall|i: int, j: int| 0 <= i < a.len() && 0 <= j < out1.len() implies le(
        #[trigger] a[i],
        #[trigger] out1[j],
    ) by {
        if j < out.len() {
            assert(out1[j] == out[j]);
        }
    }
}

/// Taking the last element of `b` keeps the classes of the merge.
pub proof fn lemma_take_right_class<T: Ord>(a: Seq<T>, b: Seq<T>, out: Seq<T>, v: T)
    requires
        b.len() > 0,
    ensures
        class(a, v) + class(b, v) + class_back(out, v) == class(a, v) + class(b.drop_last(), v)
            + class_back(out.push(b.last()), v),
{
    let out1 = out.push(b.last());
    assert(out1.drop_last() =~= out);
    assert(class(a, v) + class(b, v) + class_back(out, v) =~= class(a, v) + class(
        b.drop_last(),
        v,
    ) + class_back(out1, v));
}

/// The elements of three sequences together.
pub open spec fn pooled<T>(a: Seq<T>, b: Seq<T>, out: Seq<T>) -> Multiset<T> {
    a.to_multiset().add(b.to_multiset()).add(out.to_multiset())
}

/// Moving the last element of `a`, or of `b`, to the end of `out` keeps the elements of the
/// three sequences together what they were.
pub proof fn lemma_move_last<T>(a: Seq<T>, b: Seq<T>, out: Seq<T>)
    ensures
        a.len() > 0 ==> pooled(a, b, out) == pooled(a.drop_last(), b, out.push(a.last())),
        b.len() > 0 ==> pooled(a, b, out) == pooled(a, b.drop_last(), out.push(b.last())),
{
    broadcast use vstd::multiset::group_multiset_axioms;

    if a.len() > 0 {
        let x = a.last();
        assert(a =~= a.drop_last().push(x));
        vstd::seq_lib::to_multiset_build(a.drop_last(), x);
        vstd::seq_lib::to_multiset_build(out, x);
        assert(pooled(a, b, out) =~= pooled(a.drop_last(), b, out.push(x)));
    }
    if b.len() > 0 {
        let y = b.last();
        assert(b =~= b.drop_last().push(y));
        vstd::seq_lib::to_multiset_build(b.drop_last(), y);
        vstd::seq_lib::to_multiset_build(out, y);
        assert(pooled(a, b, out) =~= pooled(a, b.drop_last(), out.push(y)));
    }
}

/// With nothing taken yet, the three sequences together hold what the first two hold; with
/// nothing left in those, they hold what was taken.
pub proof fn lemma_pooled_ends<T>(a: Seq<T>, b: Seq<T>, out: Seq<T>)
    ensures
        out.len() == 0 ==> pooled(a, b, out) == a.to_multiset().add(b.to_multiset()),
        a.len() == 0 && b.len() == 0 ==> pooled(a, b, out) == out.to_multiset(),
{
    broadcast use vstd::multiset::group_multiset_axioms;

    a.to_multiset_ensures();
    b.to_multiset_ensures();
    out.to_multiset_ensures();
    if out.len() == 0 {
        assert(out.to_multiset() =~= Multiset::<T>::empty());
        assert(pooled(a, b, out) =~= a.to_multiset().add(b.to_multiset()));
    }
    if a.len() == 0 && b.len() == 0 {
        assert(a.to_multiset() =~= Multiset::<T>::empty());
        assert(b.to_multiset() =~= Multiset::<T>::empty());
        assert(pooled(a, b, out) =~= out.to_multiset());
    }
}

/// Merges two vectors into one. Where both are sorted, so is the result, and of elements that
/// compare as equal those of `a` come first, each vector's in their order.
pub fn merge<T: Ord>(a: Vec<T>, b: Vec<T>) -> (r: Vec<T>)
    ensures
        r@.len() == a@.len() + b@.len(),
        r@.to_multiset() == a@.to_multiset().add(b@.to_multiset()),
        total_order::<T>() && sorted(a@) && sorted(b@) ==> {
            &&& sorted(r@)
            &&& forall|v: T| #[trigger] class(r@, v) == class(a@, v) + class(b@, v)
        },
{
    let mut a = a;
    let mut b = b;
    let ghost a0 = a@;
    let ghost b0 = b@;
    let ghost ok = total_order::<T>() && sorted(a0) && sorted(b0);
    let mut out: Vec<T> = Vec::new();
    proof {
        lemma_pooled_ends(a0, b0, out@);
        assert forall|v: T|
            #![trigger class(a0, v)]
            class(a0, v) + class(b0, v) == class(a@, v) + class(b@, v) + class_back(out@, v) by {
            assert(class(a0, v) + class(b0, v) + class_back(out@, v) =~= class(a0, v) + class(
                b0,
                v,
            ));
        }
    }
    while a.len() > 0 || b.len() > 0
        invariant
            a@.len() + b@.len() + out@.len() == a0.len() + b0.len(),
            pooled(a@, b@, out@) == a0.to_multiset().add(b0.to_multiset()),
            ok ==> total_order::<T>() && merging(a@, b@, out@),
            ok ==> forall|v: T|
                #![trigger class(a0, v)]
                class(a0, v) + class(b0, v) == class(a@, v) + class(b@, v) + class_back(out@, v),
        decreases a@.len() + b@.len(),
    {
        let ghost a1 = a@;
        let ghost b1 = b@;
        let ghost out1 = out@;
        let from_a = if b.len() == 0 {
            true
        } else if a.len() == 0 {
            false
        } else {
            less_than(&b[b.len() - 1], &a[a.len() - 1])
        };
        if from_a {
            proof {
                lemma_move_last(a1, b1, out1);
                if ok {
                    assert forall|j: int| 0 <= j < b1.len() implies lt(
                        #[trigger] b1[j],
                        a1.last(),
                    ) by {
                        assert(le(b1[j], b1[b1.len() - 1]) || j == b1.len() - 1);
                        if j < b1.len() - 1 {
                            crate::order::lemma_le_lt_trans(b1[j], b1.last(), a1.last());
                        }
                    }
                    lemma_take_left(a1, b1, out1);
                    assert forall|v: T|
                        #![trigger class(a0, v)]
                        class(a0, v) + class(b0, v) == class(a1.drop_last(), v) + class(b1, v)
                            + class_back(out1.push(a1.last()), v) by {
                        lemma_take_left_class(a1, b1, out1, v);
                    }
                }
            }
            let x = a.pop().unwrap();
            out.push(x);
            proof {
                assert(a@ =~= a1.drop_last());
            }
        } else {
            proof {
                lemma_move_last(a1, b1, out1);
                if ok {
                    assert forall|i: int| 0 <= i < a1.len() implies le(
                        #[trigger] a1[i],
                        b1.last(),
                    ) by {
                        lemma_flip(a1.last(), b1.last());
                        if i < a1.len() - 1 {
                            assert(le(a1[i], a1[a1.len() - 1]));
                            lemma_le_trans(a1[i], a1.last(), b1.last());
                        }
                    }
                    lemma_take_right(a1, b1, out1);
                    assert forall|v: T|
                        #![trigger class(a0, v)]
                        class(a0, v) + class(b0, v) == class(a1, v) + class(b1.drop_last(), v)
                            + class_back(out1.push(b1.last()), v) by {
                        lemma_take_right_class(a1, b1, out1, v);
                    }
                }
            }
            let y = b.pop().unwrap();
            out.push(y);
            proof {
                assert(b@ =~= b1.drop_last());
            }
        }
    }
    let r = reversed(out);
    proof {
        out@.lemma_reverse_to_multiset();
        lemma_pooled_ends(a@, b@, out@);
        if ok {
            assert forall|i: int, j: int| 0 <= i < j < r@.len() implies le(
                #[trigger] r@[i],
                #[trigger] r@[j],
            ) by {
                assert(le(out@[out@.len() - 1 - i], out@[out@.len() - 1 - j]));
            }
            assert forall|v: T| #[trigger] class(r@, v) == class(a0, v) + class(b0, v) by {
                lemma_class_turned(out@, r@, v);
                assert(class(a0, v) + class(b0, v) == class(a@, v) + class(b@, v) + class_back(
                    out@,
                    v,
                ));
                assert(class(a@, v) + class(b@, v) + class_back(out@, v) =~= class_back(out@, v));
            }
        }
    }
    r
}

/// Sorts `v` stably, by merging its sorted halves.
pub fn merge_sort<T: Ord>(v: Vec<T>) -> (r: Vec<T>)
    ensures
        r@.len() == v@.len(),
        r@.to_multiset() == v@.to_multiset(),
        total_order::<T>() ==> is_stable_sort_of(r@, v@),
    decreases v@.len(),
{
    let mut v = v;
    let ghost whole = v@;
    if v.len() <= 1 {
        return v;
    }
    let mid = v.len() / 2;
    let upper = v.split_off(mid);
    let ghost lo = v@;
    let ghost hi = upper@;
    let a = merge_sort(v);
    let b = merge_sort(upper);
    let r = merge(a, b);
    proof {
        assert(whole =~= lo + hi);
        vstd::seq_lib::lemma_multiset_commutative(lo, hi);
        if total_order::<T>() {
            assert forall|x: T| #[trigger] class(r@, x) == class(whole, x) by {
                lemma_class_concat(lo, hi, x);
                assert(class(a@, x) == class(lo, x));
                assert(class(b@, x) == class(hi, x));
            }
        }
    }
    r
}

} // verus!
