//! What holds of every sorted list, and of the operations taken together.

use crate::buckets::{
    collapsed_at, filled, inserted_at, is_place_for, is_place_of, laid_out, lemma_bucket_sorted,
    lemma_flat_index, lemma_layout_ordered, ordered,
    lemma_flat_parts, lemma_prefix_mono, merge_target, merged_at, rank_of, removed_at, sized,
    sized_but,
    DEFAULT_LOWER_LOAD_FACTOR, DEFAULT_UPPER_LOAD_FACTOR,
};
use crate::list::SortedList;
use crate::order::{
    equiv, le, lemma_equiv_trans, lemma_flip, lemma_le_trans, lemma_refl, lt, total_order,
};
use crate::search::{is_gap, is_lower_bound, is_slot, lemma_subrange_sorted, sorted};
use crate::sorting::{class, is_stable_sort_of, lemma_class_none};
use vstd::prelude::*;

verus! {

/// The elements of a list stand in ascending order: none comes after a later one.
pub proof fn lemma_ascending<T: Ord>(list: &SortedList<T>, i: int, j: int)
    requires
        list.wf(),
        0 <= i < j < list@.len(),
    ensures
        le(list@[i], list@[j]),
{
}

/// Every bucket holds at least one element and at most the upper load factor, and every bucket
/// but the last holds at least the lower load factor.
pub proof fn lemma_bucket_sizes<T: Ord>(list: &SortedList<T>, i: int)
    requires
        list.wf(),
        0 <= i < list.buckets().len(),
    ensures
        1 <= list.buckets()[i].len() <= DEFAULT_UPPER_LOAD_FACTOR,
        i + 1 < list.buckets().len() ==> list.buckets()[i].len() >= DEFAULT_LOWER_LOAD_FACTOR,
{
}

/// Each leaf of the index tree holds the size of its bucket, a leaf without a bucket holds
/// zero, and each inner node holds the sum of its two children.
pub proof fn lemma_tree_matches<T: Ord>(list: &SortedList<T>, i: int, n: int)
    requires
        list.wf(),
    ensures
        0 <= i < list.buckets().len() ==> list.tree()[list.tree_offset() + i]
            == list.buckets()[i].len(),
        list.buckets().len() <= i < list.tree_offset() ==> list.tree()[list.tree_offset() + i]
            == 0,
        1 <= n < list.tree_offset() ==> list.tree()[n] == list.tree()[2 * n] + list.tree()[2 * n
            + 1],
{
    if 0 <= i < list.tree_offset() {
        assert(list.leaf(i) == list.tree()[list.tree_offset() + i]);
    }
    if 1 <= n < list.tree_offset() {
        assert(crate::index_tree::node_is_sum(list.tree(), n));
    }
}

/// A list without elements has no bucket, and a list with elements has no empty bucket.
pub proof fn lemma_no_empty_bucket<T: Ord>(list: &SortedList<T>, i: int)
    requires
        list.wf(),
    ensures
        list@.len() == 0 ==> list.buckets().len() == 0,
        0 <= i < list.buckets().len() ==> list.buckets()[i].len() >= 1,
{
    let bs = list.buckets();
    if bs.len() > 0 {
        assert(bs[0].len() >= 1);
        lemma_flat_parts(bs, 0);
    }
}

/// Each bucket is in ascending order.
pub proof fn lemma_bucket_ascending<T: Ord>(list: &SortedList<T>, i: int)
    requires
        list.wf(),
        0 <= i < list.buckets().len(),
    ensures
        sorted(list.buckets()[i]),
{
    lemma_bucket_sorted(list.buckets(), i);
}

/// The last element of a bucket does not come after the first element of the next bucket.
pub proof fn lemma_buckets_ordered<T: Ord>(list: &SortedList<T>, i: int)
    requires
        list.wf(),
        0 <= i,
        i + 1 < list.buckets().len(),
    ensures
        le(list.buckets()[i].last(), list.buckets()[i + 1].first()),
{
    let bs = list.buckets();
    assert(bs[i].len() >= 1 && bs[i + 1].len() >= 1);
    lemma_flat_index(bs, i, bs[i].len() - 1);
    lemma_flat_index(bs, i + 1, 0);
    lemma_flat_parts(bs, i);
}

/// A sequence has one stable sort only.
pub proof fn lemma_stable_sort_unique<T: Ord>(ra: Seq<T>, rb: Seq<T>, s: Seq<T>)
    requires
        total_order::<T>(),
        is_stable_sort_of(ra, s),
        is_stable_sort_of(rb, s),
    ensures
        ra == rb,
{
    assert forall|v: T| #[trigger] class(ra, v) == class(rb, v) by {
        assert(class(ra, v) == class(s, v));
        assert(class(rb, v) == class(s, v));
    }
    lemma_same_classes(ra, rb);
}

/// Two sorted sequences in which every value has the same class are one sequence.
pub proof fn lemma_same_classes<T: Ord>(ra: Seq<T>, rb: Seq<T>)
    requires
        total_order::<T>(),
        sorted(ra),
        sorted(rb),
        ra.len() == rb.len(),
        forall|v: T| #[trigger] class(ra, v) == class(rb, v),
    ensures
        ra == rb,
    decreases ra.len(),
{
    if ra.len() == 0 {
        assert(ra =~= rb);
    } else {
        let x = ra.last();
        let y = rb.last();
        let front_a = ra.drop_last();
        let front_b = rb.drop_last();
        lemma_refl(x);
        lemma_refl(y);
        lemma_top_class(ra, rb);
        lemma_top_class(rb, ra);
        lemma_flip(x, y);
        assert(equiv(x, y));
        assert(class(ra, x) == class(front_a, x).push(x));
        assert(class(rb, x) == class(front_b, x).push(y));
        assert(class(ra, x) == class(rb, x));
        assert(class(front_a, x).push(x).last() == class(front_b, x).push(y).last());
        assert(x == y);
        assert forall|v: T| #[trigger] class(front_a, v) == class(front_b, v) by {
            assert(class(ra, v) == class(rb, v));
            if equiv(x, v) {
                assert(class(front_a, v).push(x).drop_last() =~= class(front_a, v));
                assert(class(front_b, v).push(y).drop_last() =~= class(front_b, v));
            }
        }
        lemma_subrange_sorted(ra, 0, ra.len() - 1);
        lemma_subrange_sorted(rb, 0, rb.len() - 1);
        lemma_same_classes(front_a, front_b);
        assert(ra =~= front_a.push(x));
        assert(rb =~= front_b.push(y));
    }
}

/// Where every value has the same class in two sorted sequences, the last element of the one
/// does not come after the last element of the other.
pub proof fn lemma_top_class<T: Ord>(ra: Seq<T>, rb: Seq<T>)
    requires
        total_order::<T>(),
        sorted(rb),
        ra.len() > 0,
        rb.len() > 0,
        forall|v: T| #[trigger] class(ra, v) == class(rb, v),
    ensures
        le(ra.last(), rb.last()),
{
    let x = ra.last();
    lemma_refl(x);
    assert(class(ra, x) == class(ra.drop_last(), x).push(x));
    assert(class(rb, x) == class(ra, x));
    if forall|i: int| 0 <= i < rb.len() ==> !equiv(#[trigger] rb[i], x) {
        lemma_class_none(rb, x);
        assert(false);
    }
    let i = choose|i: int| 0 <= i < rb.len() && equiv(#[trigger] rb[i], x);
    lemma_flip(rb[i], x);
    if i < rb.len() - 1 {
        assert(le(rb[i], rb[rb.len() - 1]));
        lemma_le_trans(x, rb[i], rb.last());
    }
}

/// A value occurs in its own class as often as in the sequence.
pub proof fn lemma_class_counts<T: Ord>(s: Seq<T>, e: T)
    requires
        total_order::<T>(),
    ensures
        s.to_multiset().count(e) == class(s, e).to_multiset().count(e),
    decreases s.len(),
{
    if s.len() == 0 {
        assert(class(s, e) =~= s);
    } else {
        let p = s.drop_last();
        let x = s.last();
        lemma_class_counts(p, e);
        assert(s =~= p.push(x));
        vstd::seq_lib::to_multiset_build(p, x);
        vstd::seq_lib::to_multiset_build(class(p, e), x);
        lemma_refl(e);
    }
}

/// A stable sort of a sequence holds the elements of the sequence, each as often.
pub proof fn lemma_stable_sort_permutes<T: Ord>(r: Seq<T>, s: Seq<T>)
    requires
        total_order::<T>(),
        is_stable_sort_of(r, s),
    ensures
        r.to_multiset() == s.to_multiset(),
{
    assert forall|e: T| r.to_multiset().count(e) == s.to_multiset().count(e) by {
        lemma_class_counts(r, e);
        lemma_class_counts(s, e);
        assert(class(r, e) == class(s, e));
    }
    assert(r.to_multiset() =~= s.to_multiset());
}

/// Clones of the elements of a stable sort, in order, are that stable sort, where a clone
/// of a value is that value.
pub proof fn lemma_clones_of_sort<T: Ord + Clone>(batch: Seq<T>, held: Seq<T>, clones: Seq<T>)
    requires
        is_stable_sort_of(held, batch),
        clones.len() == held.len(),
        forall|k: int| 0 <= k < held.len() ==> cloned(held[k], #[trigger] clones[k]),
        forall|a: T, b: T| #[trigger] cloned(a, b) ==> a == b,
    ensures
        clones == held,
        is_stable_sort_of(clones, batch),
{
    assert(clones =~= held);
}

/// Between a slot for `x` and a place that holds an element equal to `x`, every element
/// compares as equal to `x`.
proof fn lemma_all_equal_between<T: Ord>(s: Seq<T>, x: T, r: int, p: int, i: int)
    requires
        total_order::<T>(),
        sorted(s),
        is_slot(s, x, r),
        0 <= p < s.len(),
        equiv(s[p], x),
        (p <= i < r) || (r <= i <= p),
    ensures
        equiv(s[i], x),
{
    lemma_flip(s[p], x);
    lemma_flip(s[i], x);
    lemma_refl(s[p]);
    if p <= i < r {
        if p < i {
            assert(le(s[p], s[i]));
        }
        lemma_le_trans(x, s[p], s[i]);
    } else {
        if i < p {
            assert(le(s[i], s[p]));
        }
        lemma_le_trans(s[i], s[p], x);
    }
}

/// After `x` has been put into a slot of a sorted sequence, taking out any element that
/// compares as equal to `x` gives back the sequence, up to elements that compare as equal.
pub proof fn lemma_insert_then_remove<T: Ord>(s: Seq<T>, x: T, r: int, p: int, k: int)
    requires
        total_order::<T>(),
        sorted(s),
        is_slot(s, x, r),
        0 <= p <= s.len(),
        equiv(s.insert(r, x)[p], x),
        0 <= k < s.len(),
    ensures
        s.insert(r, x).remove(p).len() == s.len(),
        equiv(s.insert(r, x).remove(p)[k], s[k]),
        p == r ==> s.insert(r, x).remove(p) == s,
{
    let t = s.insert(r, x);
    let u = t.remove(p);
    lemma_refl(s[k]);
    if p == r {
        assert(u =~= s);
    } else if p < r {
        assert(t[p] == s[p]);
        if p <= k < r {
            lemma_all_equal_between(s, x, r, p, k);
            if k + 1 < r {
                assert(u[k] == s[k + 1]);
                lemma_all_equal_between(s, x, r, p, k + 1);
            } else {
                assert(u[k] == x);
                lemma_refl(x);
            }
            lemma_flip(s[k], x);
            lemma_equiv_trans(u[k], x, s[k]);
        } else {
            assert(u[k] == s[k]);
        }
    } else {
        assert(t[p] == s[p - 1]);
        if r <= k < p {
            lemma_all_equal_between(s, x, r, p - 1, k);
            if k > r {
                assert(u[k] == s[k - 1]);
                lemma_all_equal_between(s, x, r, p - 1, k - 1);
            } else {
                assert(u[k] == x);
                lemma_refl(x);
            }
            lemma_flip(s[k], x);
            lemma_equiv_trans(u[k], x, s[k]);
        } else {
            assert(u[k] == s[k]);
        }
    }
}

/// Insert, search, remove: where `x` has been put into a sorted list, a search for `x` finds
/// it, and removing the element of the rank found leaves, rank by rank, elements that compare
/// as equal to those that the list held before.
pub proof fn lemma_insert_search_remove<T: Ord>(
    before: Seq<T>,
    put: Seq<T>,
    x: T,
    found: Result<usize, usize>,
    taken: Seq<T>,
)
    requires
        total_order::<T>(),
        sorted(before),
        exists|rank: int| is_slot(before, x, rank) && put == before.insert(rank, x),
        match found {
            Ok(rank) => rank < put.len() && equiv(put[rank as int], x),
            Err(rank) => is_gap(put, x, rank as int),
        },
        taken == put.remove(rank_of(found)),
    ensures
        found.is_ok(),
        equiv(put[rank_of(found)], x),
        taken.len() == before.len(),
        forall|k: int| 0 <= k < before.len() ==> equiv(#[trigger] taken[k], before[k]),
{
    let rank = choose|rank: int| is_slot(before, x, rank) && put == before.insert(rank, x);
    assert(put[rank] == x);
    lemma_refl(x);
    if found.is_err() {
        crate::search::lemma_gap_excludes(put, x, rank_of(found));
        assert(false);
    }
    assert forall|k: int| 0 <= k < before.len() implies equiv(#[trigger] taken[k], before[k]) by {
        lemma_insert_then_remove(before, x, rank, rank_of(found), k);
    }
    if before.len() > 0 {
        lemma_insert_then_remove(before, x, rank, rank_of(found), 0);
    }
}

/// Where a search finds a gap for `x`, the gap is the only slot for `x`, and putting `x` there
/// keeps the order and makes `x` the element of that rank.
pub proof fn lemma_gap_is_the_slot<T: Ord>(s: Seq<T>, x: T, gap: int, slot: int)
    requires
        total_order::<T>(),
        sorted(s),
        is_gap(s, x, gap),
        is_slot(s, x, slot),
    ensures
        slot == gap,
        s.insert(slot, x)[gap] == x,
        sorted(s.insert(gap, x)),
{
    if slot > gap {
        lemma_flip(s[gap], x);
    } else if slot < gap {
        lemma_flip(x, s[slot]);
    }
    crate::search::lemma_insert_sorted(s, x, slot);
}

/// Search, insert: where a search for `x` has missed at a rank and `x` is then put into the
/// list, the list is the old one with `x` at that rank, and it is in order.
pub proof fn lemma_miss_then_insert<T: Ord>(before: Seq<T>, x: T, gap: int, put: Seq<T>)
    requires
        total_order::<T>(),
        sorted(before),
        is_gap(before, x, gap),
        exists|rank: int| is_slot(before, x, rank) && put == before.insert(rank, x),
    ensures
        put == before.insert(gap, x),
        put[gap] == x,
        put.subrange(0, gap) == before.subrange(0, gap),
        put.subrange(gap + 1, put.len() as int) == before.subrange(gap, before.len() as int),
        sorted(put),
{
    let rank = choose|rank: int| is_slot(before, x, rank) && put == before.insert(rank, x);
    lemma_gap_is_the_slot(before, x, gap, rank);
    assert(put.subrange(0, gap) =~= before.subrange(0, gap));
    assert(put.subrange(gap + 1, put.len() as int) =~= before.subrange(
        gap,
        before.len() as int,
    ));
}

/// The buckets of a list are in order: each is ascending, and the last element of a bucket
/// does not come after the first element of the next.
pub proof fn lemma_buckets_in_order<T: Ord>(list: &SortedList<T>)
    requires
        list.wf(),
    ensures
        ordered(list.buckets()),
{
    lemma_layout_ordered(list.buckets());
}

/// A search ends at one place only.
pub proof fn lemma_place_unique<T: Ord>(bs: Seq<Seq<T>>, x: T, ia: int, pa: int, ib: int, pb: int)
    requires
        total_order::<T>(),
        filled(bs),
        is_place_for(bs, x, ia, pa),
        is_place_for(bs, x, ib, pb),
    ensures
        ia == ib,
        pa == pb,
{
    if ia < ib {
        assert(lt(x, bs[ib][0]));
        lemma_flip(bs[ib][0], x);
    } else if ib < ia {
        assert(lt(x, bs[ia][0]));
        lemma_flip(bs[ia][0], x);
    } else if pa < pb {
        lemma_flip(x, bs[ia][pa]);
    } else if pb < pa {
        lemma_flip(x, bs[ia][pb]);
    }
}

/// An element put into a bucket that holds the upper load factor splits it: there is one
/// bucket more, and the two halves hold 1024 and 1025 elements. Put into a smaller bucket, it
/// leaves the number of buckets as it was.
pub proof fn lemma_insert_splits<T: Ord>(bs: Seq<Seq<T>>, i: int, p: int, x: T)
    requires
        0 <= i < bs.len(),
        0 <= p <= bs[i].len(),
    ensures
        bs[i].len() == DEFAULT_UPPER_LOAD_FACTOR ==> {
            &&& inserted_at(bs, i, p, x).len() == bs.len() + 1
            &&& inserted_at(bs, i, p, x)[i].len() == 1024
            &&& inserted_at(bs, i, p, x)[i + 1].len() == 1025
        },
        bs[i].len() < DEFAULT_UPPER_LOAD_FACTOR ==> {
            &&& inserted_at(bs, i, p, x).len() == bs.len()
            &&& inserted_at(bs, i, p, x)[i].len() == bs[i].len() + 1
        },
{
}

/// An element taken from a bucket that holds the lower load factor, where there are two
/// buckets or more, joins the bucket to a neighbour: there is one bucket less, unless the
/// joined bucket came out over the upper load factor and was split again.
pub proof fn lemma_remove_collapses<T: Ord>(bs: Seq<Seq<T>>, i: int, j: int)
    requires
        bs.len() >= 2,
        0 <= i < bs.len(),
        0 <= j < bs[i].len(),
        bs[i].len() == DEFAULT_LOWER_LOAD_FACTOR,
    ensures
        removed_at(bs, i, j) == collapsed_at(bs.update(i, bs[i].remove(j)), i),
        merged_at(bs.update(i, bs[i].remove(j)), merge_target(bs, i))[merge_target(bs, i)].len()
            <= DEFAULT_UPPER_LOAD_FACTOR ==> removed_at(bs, i, j).len() == bs.len() - 1,
        merge_target(bs.update(i, bs[i].remove(j)), i) == merge_target(bs, i),
{
    let taken = bs.update(i, bs[i].remove(j));
    assert(merge_target(taken, i) == merge_target(bs, i));
}

/// A bucket that has fallen under the lower load factor, by one element unless it is the last,
/// holds at least the lower load factor once it is joined to its neighbour.
pub proof fn lemma_joined_bucket_size<T>(bs: Seq<Seq<T>>, i: int)
    requires
        sized_but(bs, i),
        bs.len() >= 2,
        0 <= i < bs.len(),
        bs[i].len() < DEFAULT_LOWER_LOAD_FACTOR,
        i + 1 < bs.len() ==> bs[i].len() == DEFAULT_LOWER_LOAD_FACTOR - 1,
    ensures
        merged_at(bs, merge_target(bs, i))[merge_target(bs, i)].len()
            >= DEFAULT_LOWER_LOAD_FACTOR,
{
    let j = merge_target(bs, i);
    let other = if j == i { i + 1 } else { i - 1 };
    assert(bs[other].len() >= 1);
    if i + 1 >= bs.len() {
        assert(bs[other].len() >= DEFAULT_LOWER_LOAD_FACTOR);
    }
    assert(merged_at(bs, j)[j] == bs[j] + bs[j + 1]);
}

/// A batch laid out in buckets keeps to the load factors.
pub proof fn lemma_laid_out_sized<T>(bs: Seq<Seq<T>>)
    requires
        laid_out(bs),
    ensures
        sized(bs),
{
}

/// The element of a rank stands at one place only.
pub proof fn lemma_rank_place_unique<T>(bs: Seq<Seq<T>>, k: int, ia: int, ja: int, ib: int, jb: int)
    requires
        is_place_of(bs, k, ia, ja),
        is_place_of(bs, k, ib, jb),
    ensures
        ia == ib,
        ja == jb,
{
    if ia < ib {
        lemma_flat_parts(bs, ia);
        lemma_prefix_mono(bs, ia + 1, ib);
    } else if ib < ia {
        lemma_flat_parts(bs, ib);
        lemma_prefix_mono(bs, ib + 1, ia);
    }
}

} // verus!
