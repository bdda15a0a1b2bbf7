//! The buckets as sequences: how they lay out the elements, how large they may be, and what a
//! split, a join, an insertion and a removal make of them.

use crate::index_tree::{range_sum, sizes_of};
use crate::order::{
    le, lemma_flip, lemma_le_lt_trans, lemma_le_trans, lemma_lt_le_trans, lemma_refl, lt,
    total_order,
};
use crate::search::{is_gap, is_lower_bound, is_slot, sorted};
use vstd::prelude::*;

verus! {

/// The size that a bucket gets when a batch is laid out.
pub const DEFAULT_LOAD_FACTOR: usize = 1024;

/// The size above which a bucket is split.
pub const DEFAULT_UPPER_LOAD_FACTOR: usize = 2048;

/// The size below which a bucket is merged into a neighbour.
pub const DEFAULT_LOWER_LOAD_FACTOR: usize = 512;

/// The buckets laid end to end.
pub open spec fn flat<T>(bs: Seq<Seq<T>>) -> Seq<T>
    decreases bs.len(),
{
    if bs.len() == 0 {
        Seq::empty()
    } else {
        flat(bs.drop_last()) + bs.last()
    }
}

/// The number of elements in the first `k` buckets.
pub open spec fn prefix_len<T>(bs: Seq<Seq<T>>, k: int) -> int {
    flat(bs.take(k)).len() as int
}

/// What the buckets hold, bucket by bucket.
pub open spec fn views<T>(lists: Seq<Vec<T>>) -> Seq<Seq<T>> {
    Seq::new(lists.len(), |i: int| lists[i]@)
}

/// Laying out two runs of buckets one after the other gives both layouts in a row.
pub proof fn lemma_flat_concat<T>(a: Seq<Seq<T>>, b: Seq<Seq<T>>)
    ensures
        flat(a + b) == flat(a) + flat(b),
    decreases b.len(),
{
    if b.len() == 0 {
        assert(a + b =~= a);
        assert(flat(a) + flat(b) =~= flat(a));
    } else {
        assert((a + b).drop_last() =~= a + b.drop_last());
        lemma_flat_concat(a, b.drop_last());
        assert(flat(a + b) =~= flat(a) + flat(b));
    }
}

/// A single bucket laid out is that bucket.
pub proof fn lemma_flat_one<T>(b: Seq<T>)
    ensures
        flat(seq![b]) == b,
{
    assert(seq![b].drop_last() =~= Seq::<Seq<T>>::empty());
    assert(flat(Seq::<Seq<T>>::empty()) =~= Seq::<T>::empty());
    assert(flat(seq![b]) =~= b);
}

/// The layout is what lies before bucket `i`, then bucket `i`, then what lies after it.
pub proof fn lemma_flat_parts<T>(bs: Seq<Seq<T>>, i: int)
    requires
        0 <= i < bs.len(),
    ensures
        flat(bs) == flat(bs.take(i)) + bs[i] + flat(bs.skip(i + 1)),
        prefix_len(bs, i + 1) == prefix_len(bs, i) + bs[i].len(),
        prefix_len(bs, i + 1) <= flat(bs).len(),
{
    assert(bs =~= bs.take(i) + seq![bs[i]] + bs.skip(i + 1));
    lemma_flat_concat(bs.take(i) + seq![bs[i]], bs.skip(i + 1));
    lemma_flat_concat(bs.take(i), seq![bs[i]]);
    lemma_flat_one(bs[i]);
    assert(bs.take(i + 1) =~= bs.take(i) + seq![bs[i]]);
}

/// The element at place `j` of bucket `i` stands in the layout after all earlier buckets.
pub proof fn lemma_flat_index<T>(bs: Seq<Seq<T>>, i: int, j: int)
    requires
        0 <= i < bs.len(),
        0 <= j < bs[i].len(),
    ensures
        0 <= prefix_len(bs, i) + j < flat(bs).len(),
        flat(bs)[prefix_len(bs, i) + j] == bs[i][j],
{
    lemma_flat_parts(bs, i);
}

/// The first `k` buckets hold as many elements as their sizes add up to.
pub proof fn lemma_prefix_sum<T>(lists: Seq<Vec<T>>, k: int)
    requires
        0 <= k <= lists.len(),
    ensures
        prefix_len(views(lists), k) == range_sum(sizes_of(lists), 0, k),
    decreases k,
{
    let bs = views(lists);
    if k == 0 {
        assert(bs.take(0) =~= Seq::<Seq<T>>::empty());
    } else {
        lemma_prefix_sum(lists, k - 1);
        lemma_flat_parts(bs, k - 1);
        assert(sizes_of(lists)[k - 1] == lists[k - 1]@.len());
    }
}

/// The number of elements in the first buckets grows with the number of buckets.
pub proof fn lemma_prefix_mono<T>(bs: Seq<Seq<T>>, i: int, j: int)
    requires
        0 <= i <= j <= bs.len(),
    ensures
        prefix_len(bs, i) <= prefix_len(bs, j),
        prefix_len(bs, bs.len() as int) == flat(bs).len(),
        prefix_len(bs, 0) == 0,
    decreases j - i,
{
    assert(bs.take(bs.len() as int) =~= bs);
    assert(bs.take(0) =~= Seq::<Seq<T>>::empty());
    if i < j {
        lemma_prefix_mono(bs, i, j - 1);
        lemma_flat_parts(bs, j - 1);
    }
}

/// Every bucket but bucket `i` holds at least one element and at most the upper load factor,
/// and at least the lower load factor unless it is the last.
pub open spec fn sized_but<T>(bs: Seq<Seq<T>>, i: int) -> bool {
    forall|j: int|
        0 <= j < bs.len() && j != i ==> {
            &&& 1 <= (#[trigger] bs[j]).len() <= DEFAULT_UPPER_LOAD_FACTOR
            &&& j + 1 < bs.len() ==> DEFAULT_LOWER_LOAD_FACTOR <= bs[j].len()
        }
}

/// Every bucket holds at least one element and at most the upper load factor, and at least the
/// lower load factor unless it is the last.
pub open spec fn sized<T>(bs: Seq<Seq<T>>) -> bool {
    forall|j: int|
        0 <= j < bs.len() ==> {
            &&& 1 <= (#[trigger] bs[j]).len() <= DEFAULT_UPPER_LOAD_FACTOR
            &&& j + 1 < bs.len() ==> DEFAULT_LOWER_LOAD_FACTOR <= bs[j].len()
        }
}

/// Every bucket holds at least one element.
pub open spec fn filled<T>(bs: Seq<Seq<T>>) -> bool {
    forall|j: int| 0 <= j < bs.len() ==> (#[trigger] bs[j]).len() >= 1
}

/// `i` is the bucket for `x`: the last one whose first element does not come after `x`, or
/// the first bucket where there is none.
pub open spec fn is_bucket_for<T: Ord>(bs: Seq<Seq<T>>, x: T, i: int) -> bool {
    &&& 0 <= i < bs.len()
    &&& i == 0 || le(bs[i][0], x)
    &&& forall|j: int| i < j < bs.len() ==> lt(x, (#[trigger] bs[j])[0])
}

/// The first elements of the buckets of a sorted layout are in order.
pub proof fn lemma_heads_sorted<T: Ord>(bs: Seq<Seq<T>>, a: int, b: int)
    requires
        sorted(flat(bs)),
        filled(bs),
        0 <= a <= b < bs.len(),
        total_order::<T>(),
    ensures
        le(bs[a][0], bs[b][0]),
{
    if a == b {
        lemma_refl(bs[a][0]);
    } else {
        lemma_flat_index(bs, a, 0);
        lemma_flat_index(bs, b, 0);
        lemma_flat_parts(bs, a);
        lemma_prefix_mono(bs, a + 1, b);
        assert(bs[a].len() >= 1);
    }
}

/// A place in the bucket for `x` that parts that bucket around `x` is a slot for `x` in the
/// whole layout.
pub proof fn lemma_slot_in_layout<T: Ord>(bs: Seq<Seq<T>>, x: T, i: int, p: int)
    requires
        total_order::<T>(),
        sorted(flat(bs)),
        filled(bs),
        is_bucket_for(bs, x, i),
        is_lower_bound(bs[i], x, p),
    ensures
        is_slot(flat(bs), x, prefix_len(bs, i) + p),
{
    let s = flat(bs);
    let base = prefix_len(bs, i);
    lemma_flat_parts(bs, i);
    lemma_flat_index(bs, i, 0);
    assert forall|a: int| 0 <= a < base + p implies le(#[trigger] s[a], x) by {
        if a < base {
            lemma_prefix_mono(bs, 0, i);
            assert(le(s[a], s[base]));
            lemma_le_trans(s[a], bs[i][0], x);
        } else {
            lemma_flat_index(bs, i, a - base);
            lemma_flip(bs[i][a - base], x);
        }
    }
    assert forall|a: int| base + p <= a < s.len() implies le(x, #[trigger] s[a]) by {
        if a < base + bs[i].len() {
            lemma_flat_index(bs, i, a - base);
        } else {
            lemma_prefix_mono(bs, i + 1, bs.len() as int);
            lemma_flat_index(bs, i + 1, 0);
            let head = bs[i + 1][0];
            assert(lt(x, head));
            if a > base + bs[i].len() {
                assert(le(s[base + bs[i].len()], s[a]));
                lemma_lt_le_trans(x, head, s[a]);
            }
            lemma_flip(x, s[a]);
        }
    }
}

/// A gap for `x` in the bucket for `x` is a gap for `x` in the whole layout.
pub proof fn lemma_gap_in_layout<T: Ord>(bs: Seq<Seq<T>>, x: T, i: int, p: int)
    requires
        total_order::<T>(),
        sorted(flat(bs)),
        filled(bs),
        is_bucket_for(bs, x, i),
        is_gap(bs[i], x, p),
    ensures
        is_gap(flat(bs), x, prefix_len(bs, i) + p),
{
    let s = flat(bs);
    let base = prefix_len(bs, i);
    lemma_flat_parts(bs, i);
    lemma_flat_index(bs, i, 0);
    assert forall|a: int| 0 <= a < base + p implies lt(#[trigger] s[a], x) by {
        if a < base {
            lemma_prefix_mono(bs, 0, i);
            assert(le(s[a], s[base]));
            lemma_flip(bs[i][0], x);
            assert(lt(bs[i][0], x));
            lemma_le_lt_trans(s[a], bs[i][0], x);
        } else {
            lemma_flat_index(bs, i, a - base);
        }
    }
    assert forall|a: int| base + p <= a < s.len() implies lt(x, #[trigger] s[a]) by {
        if a < base + bs[i].len() {
            lemma_flat_index(bs, i, a - base);
        } else {
            lemma_prefix_mono(bs, i + 1, bs.len() as int);
            lemma_flat_index(bs, i + 1, 0);
            let head = bs[i + 1][0];
            assert(lt(x, head));
            if a > base + bs[i].len() {
                assert(le(s[base + bs[i].len()], s[a]));
                lemma_lt_le_trans(x, head, s[a]);
            }
        }
    }
}

/// A bucket of a sorted layout is sorted.
pub proof fn lemma_bucket_sorted<T: Ord>(bs: Seq<Seq<T>>, i: int)
    requires
        sorted(flat(bs)),
        0 <= i < bs.len(),
    ensures
        sorted(bs[i]),
{
    let base = prefix_len(bs, i);
    assert forall|a: int, b: int| 0 <= a < b < bs[i].len() implies le(
        #[trigger] bs[i][a],
        #[trigger] bs[i][b],
    ) by {
        lemma_flat_index(bs, i, a);
        lemma_flat_index(bs, i, b);
        assert(le(flat(bs)[base + a], flat(bs)[base + b]));
    }
}

/// Every bucket is in ascending order, and the last element of a bucket does not come after
/// the first element of the next bucket.
pub open spec fn ordered<T: Ord>(bs: Seq<Seq<T>>) -> bool {
    &&& forall|i: int| 0 <= i < bs.len() ==> sorted(#[trigger] bs[i])
    &&& forall|i: int|
        0 <= i && i + 1 < bs.len() ==> le((#[trigger] bs[i]).last(), bs[i + 1].first())
}

/// The buckets of a sorted layout, none of them empty, are in order.
pub proof fn lemma_layout_ordered<T: Ord>(bs: Seq<Seq<T>>)
    requires
        sorted(flat(bs)),
        filled(bs),
    ensures
        ordered(bs),
{
    assert forall|i: int| 0 <= i < bs.len() implies sorted(#[trigger] bs[i]) by {
        lemma_bucket_sorted(bs, i);
    }
    assert forall|i: int| 0 <= i && i + 1 < bs.len() implies le(
        (#[trigger] bs[i]).last(),
        bs[i + 1].first(),
    ) by {
        assert(bs[i].len() >= 1 && bs[i + 1].len() >= 1);
        lemma_flat_index(bs, i, bs[i].len() - 1);
        lemma_flat_index(bs, i + 1, 0);
        lemma_flat_parts(bs, i);
    }
}

/// The buckets after bucket `i` has been split in the middle: its upper half becomes a bucket
/// of its own right behind it.
pub open spec fn split_at<T>(bs: Seq<Seq<T>>, i: int) -> Seq<Seq<T>> {
    let half = bs[i].len() / 2;
    bs.update(i, bs[i].subrange(0, half as int)).insert(
        i + 1,
        bs[i].subrange(half as int, bs[i].len() as int),
    )
}

/// The buckets after bucket `j + 1` has been joined to the end of bucket `j`.
pub open spec fn merged_at<T>(bs: Seq<Seq<T>>, j: int) -> Seq<Seq<T>> {
    bs.update(j, bs[j] + bs[j + 1]).remove(j + 1)
}

/// Splitting a bucket leaves the layout as it was.
pub proof fn lemma_split_flat<T>(bs: Seq<Seq<T>>, i: int)
    requires
        0 <= i < bs.len(),
    ensures
        flat(split_at(bs, i)) == flat(bs),
{
    let half = (bs[i].len() / 2) as int;
    let l = bs[i].subrange(0, half);
    let r = bs[i].subrange(half, bs[i].len() as int);
    let a = bs.take(i);
    let c = bs.skip(i + 1);
    assert(split_at(bs, i) =~= a + seq![l] + seq![r] + c);
    lemma_flat_concat(a + seq![l] + seq![r], c);
    lemma_flat_concat(a + seq![l], seq![r]);
    lemma_flat_concat(a, seq![l]);
    lemma_flat_one(l);
    lemma_flat_one(r);
    lemma_flat_parts(bs, i);
    assert(l + r =~= bs[i]);
    assert(flat(a) + l + r =~= flat(a) + (l + r));
}

/// Joining two neighbouring buckets leaves the layout as it was.
pub proof fn lemma_merge_flat<T>(bs: Seq<Seq<T>>, j: int)
    requires
        0 <= j,
        j + 1 < bs.len(),
    ensures
        flat(merged_at(bs, j)) == flat(bs),
{
    let a = bs.take(j);
    let c = bs.skip(j + 2);
    let m = bs[j] + bs[j + 1];
    assert(merged_at(bs, j) =~= a + seq![m] + c);
    assert(bs =~= a + seq![bs[j]] + seq![bs[j + 1]] + c);
    lemma_flat_concat(a + seq![m], c);
    lemma_flat_concat(a, seq![m]);
    lemma_flat_one(m);
    lemma_flat_concat(a + seq![bs[j]] + seq![bs[j + 1]], c);
    lemma_flat_concat(a + seq![bs[j]], seq![bs[j + 1]]);
    lemma_flat_concat(a, seq![bs[j]]);
    lemma_flat_one(bs[j]);
    lemma_flat_one(bs[j + 1]);
    assert(flat(a) + bs[j] + bs[j + 1] =~= flat(a) + m);
}

/// Putting an element into a bucket puts it into the layout, behind the earlier buckets.
pub proof fn lemma_insert_flat<T>(bs: Seq<Seq<T>>, i: int, p: int, x: T)
    requires
        0 <= i < bs.len(),
        0 <= p <= bs[i].len(),
    ensures
        flat(bs.update(i, bs[i].insert(p, x))) == flat(bs).insert(prefix_len(bs, i) + p, x),
{
    let n = bs.update(i, bs[i].insert(p, x));
    lemma_flat_parts(bs, i);
    lemma_flat_parts(n, i);
    assert(n.take(i) =~= bs.take(i));
    assert(n.skip(i + 1) =~= bs.skip(i + 1));
    assert(flat(n) =~= flat(bs).insert(prefix_len(bs, i) + p, x));
}

/// Taking an element out of a bucket takes it out of the layout.
pub proof fn lemma_remove_flat<T>(bs: Seq<Seq<T>>, i: int, p: int)
    requires
        0 <= i < bs.len(),
        0 <= p < bs[i].len(),
    ensures
        flat(bs.update(i, bs[i].remove(p))) == flat(bs).remove(prefix_len(bs, i) + p),
{
    let n = bs.update(i, bs[i].remove(p));
    lemma_flat_parts(bs, i);
    lemma_flat_parts(n, i);
    assert(n.take(i) =~= bs.take(i));
    assert(n.skip(i + 1) =~= bs.skip(i + 1));
    assert(flat(n) =~= flat(bs).remove(prefix_len(bs, i) + p));
}

/// Buckets that keep to the lower load factor, but for one of them and the last, are few
/// beside their elements.
pub proof fn lemma_bucket_count<T>(bs: Seq<Seq<T>>, i: int, k: int)
    requires
        sized_but(bs, i),
        0 <= k < bs.len(),
    ensures
        prefix_len(bs, k) >= DEFAULT_LOWER_LOAD_FACTOR * (k - 1),
        i < 0 || i >= k ==> prefix_len(bs, k) >= DEFAULT_LOWER_LOAD_FACTOR * k,
        prefix_len(bs, k) <= flat(bs).len(),
    decreases k,
{
    lemma_prefix_mono(bs, 0, k);
    lemma_prefix_mono(bs, k, bs.len() as int);
    if k > 0 {
        lemma_bucket_count(bs, i, k - 1);
        lemma_flat_parts(bs, k - 1);
        if k - 1 != i {
            assert(bs[k - 1].len() >= DEFAULT_LOWER_LOAD_FACTOR);
        }
    }
}

/// When one bucket changes, the others keep to the load factors.
pub proof fn lemma_update_sized_but<T>(bs: Seq<Seq<T>>, i: int, b: Seq<T>)
    requires
        sized(bs),
        0 <= i < bs.len(),
    ensures
        sized_but(bs.update(i, b), i),
{
    let ns = bs.update(i, b);
    assert forall|m: int| 0 <= m < ns.len() && m != i implies {
        &&& 1 <= (#[trigger] ns[m]).len() <= DEFAULT_UPPER_LOAD_FACTOR
        &&& m + 1 < ns.len() ==> DEFAULT_LOWER_LOAD_FACTOR <= ns[m].len()
    } by {
        assert(ns[m] == bs[m]);
    }
}

/// Buckets of which all but one keep to the load factors all do so where that one does too.
pub proof fn lemma_sized_with<T>(bs: Seq<Seq<T>>, i: int)
    requires
        sized_but(bs, i),
        0 <= i < bs.len(),
        1 <= bs[i].len() <= DEFAULT_UPPER_LOAD_FACTOR,
        i + 1 < bs.len() ==> DEFAULT_LOWER_LOAD_FACTOR <= bs[i].len(),
    ensures
        sized(bs),
{
}

/// The bucket to which bucket `i` is joined: its left neighbour where that one is strictly the
/// smaller of the two neighbours, else bucket `i` itself, which then takes in its right
/// neighbour. A neighbour that is not there counts as larger than any bucket.
pub open spec fn merge_target<T>(bs: Seq<Seq<T>>, i: int) -> int {
    if i >= 1 && (i + 1 >= bs.len() || bs[i - 1].len() < bs[i + 1].len()) {
        i - 1
    } else {
        i
    }
}

/// The buckets after bucket `i` has been joined to a neighbour, and the joined bucket split
/// again where it came out over the upper load factor.
pub open spec fn collapsed_at<T>(bs: Seq<Seq<T>>, i: int) -> Seq<Seq<T>> {
    let j = merge_target(bs, i);
    let merged = merged_at(bs, j);
    if merged[j].len() > DEFAULT_UPPER_LOAD_FACTOR {
        split_at(merged, j)
    } else {
        merged
    }
}

/// Joining a bucket that is not over the upper load factor to its neighbour leaves the other
/// buckets within the load factors, and the joined bucket too unless it has to be split.
pub proof fn lemma_merged_sized<T>(bs: Seq<Seq<T>>, i: int)
    requires
        sized_but(bs, i),
        bs.len() >= 2,
        0 <= i < bs.len(),
        bs[i].len() <= DEFAULT_UPPER_LOAD_FACTOR,
    ensures
        0 <= merge_target(bs, i) < bs.len() - 1,
        sized_but(merged_at(bs, merge_target(bs, i)), merge_target(bs, i)),
        1 <= merged_at(bs, merge_target(bs, i))[merge_target(bs, i)].len() <= 2
            * DEFAULT_UPPER_LOAD_FACTOR,
        merged_at(bs, merge_target(bs, i))[merge_target(bs, i)].len() <= DEFAULT_UPPER_LOAD_FACTOR
            ==> sized(merged_at(bs, merge_target(bs, i))),
{
    let j = merge_target(bs, i);
    let ms = merged_at(bs, j);
    let other = if j == i { i + 1 } else { i - 1 };
    assert(1 <= bs[other].len() <= DEFAULT_UPPER_LOAD_FACTOR);
    assert(ms[j] == bs[j] + bs[j + 1]);
    assert forall|m: int| 0 <= m < ms.len() && m != j implies {
        &&& 1 <= (#[trigger] ms[m]).len() <= DEFAULT_UPPER_LOAD_FACTOR
        &&& m + 1 < ms.len() ==> DEFAULT_LOWER_LOAD_FACTOR <= ms[m].len()
    } by {
        if m < j {
            assert(ms[m] == bs[m]);
        } else {
            assert(ms[m] == bs[m + 1]);
        }
    }
    if ms[j].len() <= DEFAULT_UPPER_LOAD_FACTOR {
        assert forall|m: int| 0 <= m < ms.len() implies {
            &&& 1 <= (#[trigger] ms[m]).len() <= DEFAULT_UPPER_LOAD_FACTOR
            &&& m + 1 < ms.len() ==> DEFAULT_LOWER_LOAD_FACTOR <= ms[m].len()
        } by {
            if m == j && m + 1 < ms.len() {
                assert(bs[other].len() >= DEFAULT_LOWER_LOAD_FACTOR);
            }
        }
    }
}

/// Splitting a bucket that is over the upper load factor, and at most twice as large, brings
/// all buckets within the load factors.
pub proof fn lemma_split_sized<T>(bs: Seq<Seq<T>>, i: int)
    requires
        sized_but(bs, i),
        0 <= i < bs.len(),
        DEFAULT_UPPER_LOAD_FACTOR < bs[i].len() <= 2 * DEFAULT_UPPER_LOAD_FACTOR,
    ensures
        sized(split_at(bs, i)),
{
    let ns = split_at(bs, i);
    assert forall|j: int| 0 <= j < ns.len() implies {
        &&& 1 <= (#[trigger] ns[j]).len() <= DEFAULT_UPPER_LOAD_FACTOR
        &&& j + 1 < ns.len() ==> DEFAULT_LOWER_LOAD_FACTOR <= ns[j].len()
    } by {
        if j < i {
            assert(ns[j] == bs[j]);
        } else if j > i + 1 {
            assert(ns[j] == bs[j - 1]);
        }
    }
}

/// The buckets after `x` has been put at place `p` of bucket `i`: a bucket that has grown over
/// the upper load factor is split.
pub open spec fn inserted_at<T>(bs: Seq<Seq<T>>, i: int, p: int, x: T) -> Seq<Seq<T>> {
    let put = bs.update(i, bs[i].insert(p, x));
    if put[i].len() > DEFAULT_UPPER_LOAD_FACTOR {
        split_at(put, i)
    } else {
        put
    }
}

/// The buckets are those of a batch laid out: every bucket but the last holds exactly the load
/// factor, and the last holds the rest, which is at least one element.
pub open spec fn laid_out<T>(bs: Seq<Seq<T>>) -> bool {
    forall|i: int|
        0 <= i < bs.len() ==> {
            &&& 1 <= (#[trigger] bs[i]).len() <= DEFAULT_LOAD_FACTOR
            &&& i + 1 < bs.len() ==> bs[i].len() == DEFAULT_LOAD_FACTOR
        }
}

/// Place `p` of bucket `i` is where a search for `x` ends: `i` is the bucket for `x`, and `p`
/// the first place in it whose element does not come before `x`.
pub open spec fn is_place_for<T: Ord>(bs: Seq<Seq<T>>, x: T, i: int, p: int) -> bool {
    &&& is_bucket_for(bs, x, i)
    &&& is_lower_bound(bs[i], x, p)
}

/// Place `j` of bucket `i` holds the element of rank `k`.
pub open spec fn is_place_of<T>(bs: Seq<Seq<T>>, k: int, i: int, j: int) -> bool {
    &&& 0 <= i < bs.len()
    &&& 0 <= j < bs[i].len()
    &&& prefix_len(bs, i) + j == k
}

/// The rank that a search reports, found or not.
pub open spec fn rank_of(r: Result<usize, usize>) -> int {
    match r {
        Ok(rank) => rank as int,
        Err(rank) => rank as int,
    }
}

/// The buckets after the element at place `j` has left bucket `i`: a bucket that has fallen
/// under the lower load factor is joined to a neighbour, unless it is the only one, and an only
/// bucket that has become empty goes.
pub open spec fn removed_at<T>(bs: Seq<Seq<T>>, i: int, j: int) -> Seq<Seq<T>> {
    let taken = bs.update(i, bs[i].remove(j));
    if bs.len() > 1 && taken[i].len() < DEFAULT_LOWER_LOAD_FACTOR {
        collapsed_at(taken, i)
    } else if taken[i].len() == 0 {
        Seq::empty()
    } else {
        taken
    }
}

} // verus!
