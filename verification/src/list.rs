//! The sorted list and its operations.

use crate::buckets::{
    flat, inserted_at, is_bucket_for, is_place_for, is_place_of, laid_out, lemma_bucket_count,
    lemma_bucket_sorted, lemma_flat_index, lemma_flat_one, lemma_flat_parts,
    lemma_layout_ordered, ordered,
    lemma_gap_in_layout, lemma_heads_sorted, lemma_insert_flat, lemma_merge_flat,
    lemma_merged_sized, lemma_prefix_mono, lemma_prefix_sum, lemma_remove_flat,
    lemma_sized_with, lemma_slot_in_layout, lemma_split_flat, lemma_split_sized,
    lemma_update_sized_but, merge_target, merged_at,
    collapsed_at, prefix_len, rank_of, removed_at, sized, sized_but, split_at, views,
    DEFAULT_LOAD_FACTOR, DEFAULT_LOWER_LOAD_FACTOR, DEFAULT_UPPER_LOAD_FACTOR,
};
use crate::index_tree::{
    lemma_range_agree, lemma_range_split, lemma_range_zero, lemma_root_sum, range_sum, sizes_of,
    tree_sums, IndexTree, DEFAULT_INDEX_TREE_OFFSET,
};
use crate::order::{equiv, le, lemma_flip, lemma_lt_le_trans, less_eq, less_than, lt, total_order};
use crate::search::{
    is_gap, is_lower_bound, is_slot, lemma_gap_excludes, lemma_insert_sorted,
    lemma_remove_sorted, occurs, search, sorted,
};
use crate::sorting::{is_stable_sort_of, merge_sort, reversed};
use vstd::prelude::*;
use vstd::std_specs::iter::IteratorSpec;

verus! {

/// A sorted list: a multiset of elements kept in ascending order, in buckets, with a tree over
/// the bucket sizes that finds the bucket of a rank.
pub struct SortedList<T: Ord> {
    lists: Vec<Vec<T>>,
    index_tree: IndexTree,
    load_factor: usize,
    upper_load_factor: usize,
    lower_load_factor: usize,
    len: usize,
}

impl<T: Ord> View for SortedList<T> {
    type V = Seq<T>;

    /// The elements in ascending order.
    open spec fn view(&self) -> Seq<T> {
        flat(self.buckets())
    }
}

impl<T: Ord> SortedList<T> {
    /// The buckets, in order.
    pub closed spec fn buckets(&self) -> Seq<Seq<T>> {
        views(self.lists@)
    }

    /// The nodes of the index tree; node 0 is unused and node 1 is the root.
    pub closed spec fn tree(&self) -> Seq<usize> {
        self.index_tree.nodes()
    }

    /// The number of leaves of the index tree, and the index of its first leaf.
    pub closed spec fn tree_offset(&self) -> int {
        self.index_tree.offset()
    }

    /// The number of elements that the list has counted.
    pub closed spec fn counted(&self) -> int {
        self.len as int
    }

    /// The load factors are the fixed ones.
    pub closed spec fn tuned(&self) -> bool {
        &&& self.load_factor == DEFAULT_LOAD_FACTOR
        &&& self.upper_load_factor == DEFAULT_UPPER_LOAD_FACTOR
        &&& self.lower_load_factor == DEFAULT_LOWER_LOAD_FACTOR
    }

    /// Leaf `i` of the index tree.
    pub open spec fn leaf(&self, i: int) -> int {
        self.tree()[self.tree_offset() + i] as int
    }

    /// The index tree is a tree of sums over the bucket sizes: the smallest one of at least 32
    /// leaves that has a leaf for each bucket.
    pub open spec fn indexed(&self) -> bool {
        &&& tree_sums(self.tree(), self.tree_offset())
        &&& self.tree_offset() >= DEFAULT_INDEX_TREE_OFFSET
        &&& 2 * self.tree_offset() <= usize::MAX
        &&& self.buckets().len() <= self.tree_offset()
        &&& self.tree_offset() > DEFAULT_INDEX_TREE_OFFSET ==> self.tree_offset() / 2
            < self.buckets().len()
        &&& forall|i: int|
            0 <= i < self.buckets().len() ==> #[trigger] self.leaf(i) == self.buckets()[i].len()
        &&& forall|i: int|
            self.buckets().len() <= i < self.tree_offset() ==> #[trigger] self.leaf(i) == 0
    }

    /// The invariant of the list: the elements are in ascending order and counted, the buckets
    /// keep to the load factors, and the index tree matches the buckets.
    pub open spec fn wf(&self) -> bool {
        &&& self.counted() == self@.len()
        &&& sorted(self@)
        &&& sized(self.buckets())
        &&& self.indexed()
        &&& self.tuned()
    }

    /// What holds while a bucket is out of bounds and the index tree is out of date: the
    /// elements are in ascending order and counted, and the other buckets keep to the load
    /// factors.
    spec fn wf_but(&self, i: int) -> bool {
        &&& self.len == self@.len()
        &&& sorted(self@)
        &&& sized_but(self.buckets(), i)
        &&& self.tuned()
    }

    /// The index tree matches the buckets.
    proof fn lemma_indexed(&self)
        ensures
            self.index_tree.indexes(self.lists@) <==> self.indexed(),
    {
        let o = self.index_tree.offset();
        if self.index_tree.indexes(self.lists@) {
            assert forall|i: int| 0 <= i < self.buckets().len() implies #[trigger] self.leaf(i)
                == self.buckets()[i].len() by {
                assert(self.index_tree.leaves()[i] == self.lists@[i]@.len());
            }
            assert forall|i: int| self.buckets().len() <= i < o implies #[trigger] self.leaf(i)
                == 0 by {
                assert(self.index_tree.leaves()[i] == 0);
            }
        }
        if self.indexed() {
            let leaves = self.index_tree.leaves();
            assert forall|i: int| 0 <= i < self.lists@.len() implies #[trigger] leaves[i]
                == self.lists@[i]@.len() by {
                assert(self.leaf(i) == self.buckets()[i].len());
            }
            assert forall|i: int| self.lists@.len() <= i < o implies #[trigger] leaves[i] == 0 by {
                assert(self.leaf(i) == 0);
            }
        }
    }

    /// The leaves before leaf `k` add up to the number of elements in the first `k` buckets,
    /// and all leaves to the number of elements.
    proof fn lemma_leaf_sums(&self, k: int)
        requires
            self.index_tree.indexes(self.lists@),
            0 <= k <= self.lists@.len(),
        ensures
            range_sum(self.index_tree.leaves(), 0, k) == prefix_len(self.buckets(), k),
            range_sum(self.index_tree.leaves(), 0, self.index_tree.offset()) == self@.len(),
            range_sum(sizes_of(self.lists@), 0, self.lists@.len() as int) == self@.len(),
    {
        let leaves = self.index_tree.leaves();
        let sizes = sizes_of(self.lists@);
        let n = self.lists@.len() as int;
        let o = self.index_tree.offset();
        lemma_range_agree(sizes, leaves, 0, k);
        lemma_range_agree(sizes, leaves, 0, n);
        lemma_range_zero(leaves, n, o);
        lemma_range_split(leaves, 0, n, o);
        lemma_prefix_sum(self.lists@, k);
        lemma_prefix_sum(self.lists@, n);
        lemma_prefix_mono(self.buckets(), 0, n);
    }

    /// The root of the index tree holds the number of elements, and so does the count that the
    /// list keeps.
    pub proof fn lemma_root_is_len(&self)
        requires
            self.wf(),
        ensures
            self.tree()[1] == self@.len(),
            self.counted() == self@.len(),
    {
        self.lemma_indexed();
        self.lemma_leaf_sums(0);
        lemma_root_sum(self.tree(), self.tree_offset(), 1);
    }

    /// The list is as new: no bucket, and the smallest index tree, with every node zero.
    pub open spec fn is_cleared(&self) -> bool {
        &&& self.buckets().len() == 0
        &&& self.counted() == 0
        &&& self.tree_offset() == DEFAULT_INDEX_TREE_OFFSET
        &&& self.tree().len() == 2 * DEFAULT_INDEX_TREE_OFFSET
        &&& forall|n: int| 0 <= n < self.tree().len() ==> self.tree()[n] == 0
    }

    /// Two lists that are as new hold the same: clearing a list a second time changes nothing.
    pub proof fn lemma_cleared_alike(&self, other: &Self)
        requires
            self.is_cleared(),
            other.is_cleared(),
        ensures
            self@ == other@,
            self@.len() == 0,
            self.buckets() == other.buckets(),
            self.tree() == other.tree(),
            self.tree_offset() == other.tree_offset(),
            self.counted() == other.counted(),
    {
        assert(self.buckets() =~= other.buckets());
        assert(self.tree() =~= other.tree());
    }

    /// What `get` returns for a rank within the list is what `kth_smallest` returns for it.
    pub proof fn lemma_get_is_kth(&self, k: int, got: Option<&T>, kth: &T)
        requires
            0 <= k < self@.len(),
            got == Some(&self@[k]),
            *kth == self@[k],
        ensures
            got == Some(kth),
    {
    }

    /// An empty list.
    fn default_list() -> (list: Self)
        ensures
            list.wf(),
            list@ == Seq::<T>::empty(),
            list.is_cleared(),
    {
        let list = SortedList {
            lists: Vec::new(),
            index_tree: IndexTree::new(),
            load_factor: DEFAULT_LOAD_FACTOR,
            upper_load_factor: DEFAULT_UPPER_LOAD_FACTOR,
            lower_load_factor: DEFAULT_LOWER_LOAD_FACTOR,
            len: 0,
        };
        proof {
            assert(list.buckets() =~= Seq::<Seq<T>>::empty());
            assert(list@ =~= Seq::<T>::empty());
            assert(sorted(list@));
        }
        list
    }

    /// Creates an empty list.
    pub fn new() -> (list: Self)
        ensures
            list.wf(),
            list@ == Seq::<T>::empty(),
            list.is_cleared(),
    {
        Self::default_list()
    }

    /// The number of elements.
    pub fn len(&self) -> (n: usize)
        requires
            self.wf(),
        ensures
            n == self@.len(),
    {
        self.len
    }

    /// Whether the list holds no element.
    pub fn is_empty(&self) -> (b: bool)
        requires
            self.wf(),
        ensures
            b == (self@.len() == 0),
    {
        self.len() == 0
    }

    /// The bucket that holds the element of rank `k`, and the element's place in it.
    fn locate_kth_element(&self, k: usize) -> (at: (usize, usize))
        requires
            self.wf(),
            k < self@.len(),
        ensures
            at.0 < self.buckets().len(),
            at.1 < self.buckets()[at.0 as int].len(),
            prefix_len(self.buckets(), at.0 as int) + at.1 == k,
            self@[k as int] == self.buckets()[at.0 as int][at.1 as int],
    {
        proof {
            self.lemma_indexed();
            self.lemma_leaf_sums(0);
        }
        let at = self.index_tree.locate(k);
        proof {
            assert(self.index_tree.leaves()[at.0 as int] == self.leaf(at.0 as int));
            self.lemma_leaf_sums(at.0 as int);
            lemma_flat_index(self.buckets(), at.0 as int, at.1 as int);
        }
        at
    }

    /// The element at place `j` of bucket `i`.
    fn at(&self, i: usize, j: usize) -> (element: &T)
        requires
            i < self.buckets().len(),
            j < self.buckets()[i as int].len(),
        ensures
            *element == self.buckets()[i as int][j as int],
    {
        &self.lists[i][j]
    }

    /// The element of rank `k`, counted from 0 at the smallest.
    pub fn kth_smallest(&self, k: usize) -> (element: &T)
        requires
            self.wf(),
            k < self@.len(),
        ensures
            *element == self@[k as int],
    {
        let (i, j) = self.locate_kth_element(k);
        self.at(i, j)
    }

    /// Removes every element.
    pub fn clear(&mut self)
        requires
            old(self).wf(),
        ensures
            final(self).wf(),
            final(self)@ == Seq::<T>::empty(),
            final(self).is_cleared(),
    {
        self.lists.clear();
        self.index_tree.reset();
        self.len = 0;
        proof {
            assert(self.buckets() =~= Seq::<Seq<T>>::empty());
            assert(self@ =~= Seq::<T>::empty());
        }
    }

    /// The largest element, if there is one.
    pub fn last(&self) -> (element: Option<&T>)
        requires
            self.wf(),
        ensures
            self@.len() == 0 ==> element.is_none(),
            self@.len() > 0 ==> element == Some(&self@[self@.len() - 1]),
    {
        if self.is_empty() {
            return None;
        }
        let n = self.lists.len();
        let m = self.lists[n - 1].len();
        proof {
            let bs = self.buckets();
            lemma_flat_index(bs, n - 1, m - 1);
            lemma_flat_parts(bs, n - 1);
            lemma_prefix_mono(bs, 0, n as int);
        }
        Some(&self.lists[n - 1][m - 1])
    }

    /// The smallest element, if there is one.
    pub fn first(&self) -> (element: Option<&T>)
        requires
            self.wf(),
        ensures
            self@.len() == 0 ==> element.is_none(),
            self@.len() > 0 ==> element == Some(&self@[0]),
    {
        if self.is_empty() {
            return None;
        }
        proof {
            let bs = self.buckets();
            lemma_flat_index(bs, 0, 0);
            lemma_prefix_mono(bs, 0, 0);
        }
        Some(&self.lists[0][0])
    }

    /// The element of rank `index`, if the list has that many.
    pub fn get(&self, index: usize) -> (element: Option<&T>)
        requires
            self.wf(),
        ensures
            index >= self@.len() ==> element.is_none(),
            index < self@.len() ==> element == Some(&self@[index as int]),
    {
        if self.is_empty() || self.len() <= index {
            return None;
        }
        Some(self.kth_smallest(index))
    }

    /// The bucket in which `element` belongs: the last bucket whose first element does not
    /// come after it, or the first bucket where there is none.
    fn bisect_right_lists(&self, element: &T) -> (k: usize)
        requires
            self.wf(),
            total_order::<T>(),
            self@.len() > 0,
        ensures
            is_bucket_for(self.buckets(), *element, k as int),
    {
        let ghost bs = self.buckets();
        let ghost x = *element;
        proof {
            assert(bs.len() > 0);
            assert(bs[0].len() >= 1);
        }
        if less_than(element, &self.lists[0][0]) {
            proof {
                assert forall|j: int| 0 < j < bs.len() implies lt(x, (#[trigger] bs[j])[0]) by {
                    lemma_heads_sorted(bs, 0, j);
                    lemma_lt_le_trans(x, bs[0][0], bs[j][0]);
                }
            }
            return 0;
        }
        let mut lo: usize = 0;
        let mut hi: usize = self.lists.len() - 1;
        proof {
            assert(bs[hi as int].len() >= 1);
        }
        if less_eq(&self.lists[hi][0], element) {
            return hi;
        }
        proof {
            lemma_flip(bs[0][0], x);
            lemma_flip(bs[hi as int][0], x);
        }
        while lo + 1 < hi
            invariant
                self.wf(),
                total_order::<T>(),
                bs == self.buckets(),
                x == *element,
                0 <= lo < hi < bs.len(),
                le(bs[lo as int][0], x),
                lt(x, bs[hi as int][0]),
            decreases hi - lo,
        {
            let mid = (lo + hi) / 2;
            proof {
                assert(bs[mid as int].len() >= 1);
            }
            if less_eq(&self.lists[mid][0], element) {
                lo = mid;
            } else {
                proof {
                    lemma_flip(bs[mid as int][0], x);
                }
                hi = mid;
            }
        }
        proof {
            assert forall|j: int| lo < j < bs.len() implies lt(x, (#[trigger] bs[j])[0]) by {
                lemma_heads_sorted(bs, hi as int, j);
                lemma_lt_le_trans(x, bs[hi as int][0], bs[j][0]);
            }
        }
        lo
    }

    /// Looks `element` up: `Ok` with the rank of an element that compares as equal to it, or
    /// `Err` with the rank at which it would stand.
    pub fn binary_search(&self, element: &T) -> (r: Result<usize, usize>)
        requires
            self.wf(),
            total_order::<T>(),
        ensures
            match r {
                Ok(rank) => rank < self@.len() && equiv(self@[rank as int], *element),
                Err(rank) => is_gap(self@, *element, rank as int),
            },
            r.is_ok() <==> occurs(self@, *element),
            self@.len() == 0 ==> r == Err::<usize, usize>(0),
            self@.len() > 0 ==> exists|i: int, p: int|
                #[trigger] is_place_for(self.buckets(), *element, i, p) && rank_of(r)
                    == prefix_len(self.buckets(), i) + p,
    {
        if self.len == 0 {
            proof {
                assert(is_gap(self@, *element, 0));
                lemma_gap_excludes(self@, *element, 0);
            }
            return Err(0);
        }
        let i: usize = self.bisect_right_lists(element);
        proof {
            lemma_bucket_sorted(self.buckets(), i as int);
            self.lemma_indexed();
            self.lemma_leaf_sums(i as int);
            lemma_flat_parts(self.buckets(), i as int);
        }
        let found = search(&self.lists[i], element);
        let before: usize = if i == 0 {
            proof {
                lemma_prefix_mono(self.buckets(), 0, 0);
            }
            0
        } else {
            self.index_tree.sum(0, i - 1)
        };
        match found {
            Ok(pos) => {
                proof {
                    lemma_flat_index(self.buckets(), i as int, pos as int);
                    assert(is_place_for(self.buckets(), *element, i as int, pos as int));
                }
                Ok(pos + before)
            },
            Err(pos) => {
                proof {
                    lemma_gap_in_layout(self.buckets(), *element, i as int, pos as int);
                    lemma_gap_excludes(self@, *element, before + pos);
                    assert forall|a: int| pos <= a < self.buckets()[i as int].len() implies le(
                        *element,
                        #[trigger] self.buckets()[i as int][a],
                    ) by {
                        lemma_flip(*element, self.buckets()[i as int][a]);
                    }
                    assert(is_place_for(self.buckets(), *element, i as int, pos as int));
                }
                Err(pos + before)
            },
        }
    }

    /// Whether some element compares as equal to `element`.
    pub fn contains(&self, element: &T) -> (b: bool)
        requires
            self.wf(),
            total_order::<T>(),
        ensures
            b == occurs(self@, *element),
    {
        self.binary_search(element).is_ok()
    }

    /// Splits bucket `i`, which has grown over the upper load factor, in the middle.
    fn expand(&mut self, i: usize)
        requires
            old(self).wf_but(i as int),
            i < old(self).buckets().len(),
            DEFAULT_UPPER_LOAD_FACTOR < old(self).buckets()[i as int].len() <= 2
                * DEFAULT_UPPER_LOAD_FACTOR,
        ensures
            final(self).wf(),
            final(self)@ == old(self)@,
            final(self).buckets() == split_at(old(self).buckets(), i as int),
    {
        let ghost bs = self.buckets();
        proof {
            lemma_bucket_count(bs, i as int, bs.len() - 1);
            lemma_split_flat(bs, i as int);
        }
        let size = self.lists[i].len();
        let removed: Vec<T> = self.lists[i].split_off(size / 2);
        self.lists.insert(i + 1, removed);
        proof {
            assert(self.buckets() =~= split_at(bs, i as int));
            self.lemma_size_sum();
        }
        self.index_tree.rebuild(&self.lists);
        proof {
            self.lemma_indexed();
            lemma_split_sized(bs, i as int);
        }
    }

    /// The sizes of the buckets add up to the number of elements.
    proof fn lemma_size_sum(&self)
        ensures
            range_sum(sizes_of(self.lists@), 0, self.lists@.len() as int) == self@.len(),
    {
        lemma_prefix_sum(self.lists@, self.lists@.len() as int);
        lemma_prefix_mono(self.buckets(), 0, self.lists@.len() as int);
    }

    /// Joins bucket `i` to the smaller of its neighbours, and splits the joined bucket again if
    /// it is over the upper load factor. There must be two buckets or more; bucket `i` may hold
    /// any number of elements up to the upper load factor, none included.
    fn collapse(&mut self, i: usize)
        requires
            old(self).wf_but(i as int),
            old(self).buckets().len() >= 2,
            i < old(self).buckets().len(),
            old(self).buckets()[i as int].len() <= DEFAULT_UPPER_LOAD_FACTOR,
        ensures
            final(self).wf(),
            final(self)@ == old(self)@,
            final(self).buckets() == collapsed_at(old(self).buckets(), i as int),
    {
        let ghost bs = self.buckets();
        let n = self.lists.len();
        let left = if i >= 1 {
            self.lists[i - 1].len()
        } else {
            usize::MAX
        };
        let right = if i + 1 < n {
            self.lists[i + 1].len()
        } else {
            usize::MAX
        };
        proof {
            if i >= 1 {
                assert(bs[i - 1].len() <= DEFAULT_UPPER_LOAD_FACTOR);
            }
            if i + 1 < bs.len() {
                assert(bs[i + 1].len() <= DEFAULT_UPPER_LOAD_FACTOR);
            }
            lemma_merged_sized(bs, i as int);
        }
        let j = if left < right {
            i - 1
        } else {
            i
        };
        assert(j == merge_target(bs, i as int));
        let mut removed = self.lists.remove(j + 1);
        self.lists[j].append(&mut removed);
        let ghost ms = self.buckets();
        proof {
            assert(ms =~= merged_at(bs, j as int));
            lemma_merge_flat(bs, j as int);
        }
        if self.lists[j].len() > self.upper_load_factor {
            self.expand(j);
        } else {
            proof {
                lemma_bucket_count(ms, j as int, ms.len() - 1);
                self.lemma_size_sum();
            }
            self.index_tree.rebuild(&self.lists);
            proof {
                self.lemma_indexed();
            }
        }
    }

    /// Takes the element at place `j` out of bucket `i`, and joins the bucket to a neighbour
    /// if it has fallen under the lower load factor.
    fn lists_remove(&mut self, i: usize, j: usize) -> (removed: T)
        requires
            old(self).wf(),
            i < old(self).buckets().len(),
            j < old(self).buckets()[i as int].len(),
        ensures
            final(self).wf(),
            removed == old(self).buckets()[i as int][j as int],
            final(self)@ == old(self)@.remove(prefix_len(old(self).buckets(), i as int) + j),
            final(self).buckets() == removed_at(old(self).buckets(), i as int, j as int),
    {
        let ghost bs = self.buckets();
        let ghost flat_before = self@;
        proof {
            self.lemma_indexed();
            self.lemma_leaf_sums(i as int);
            lemma_flat_index(bs, i as int, j as int);
            lemma_remove_flat(bs, i as int, j as int);
            lemma_remove_sorted(flat_before, prefix_len(bs, i as int) + j);
            assert(self.index_tree.leaves()[i as int] == self.leaf(i as int));
        }
        let removed = self.lists[i].remove(j);
        self.len = self.len - 1;
        proof {
            assert(self.buckets() =~= bs.update(i as int, bs[i as int].remove(j as int)));
            lemma_update_sized_but(bs, i as int, bs[i as int].remove(j as int));
        }
        if self.lists.len() > 1 && self.lists[i].len() < self.lower_load_factor {
            self.collapse(i);
        } else {
            let ghost tree_before = self.index_tree;
            let ghost lists_before = old(self).lists@;
            self.index_tree.add(i, -1);
            if self.lists[i].len() == 0 {
                self.lists.clear();
                proof {
                    assert(self.lists@ =~= Seq::<Vec<T>>::empty());
                    self.index_tree.lemma_emptied(&tree_before, lists_before);
                    assert(self.buckets() =~= Seq::<Seq<T>>::empty());
                    let taken = bs.update(i as int, bs[i as int].remove(j as int));
                    assert(taken[0] =~= Seq::<T>::empty());
                    assert(taken =~= seq![Seq::<T>::empty()]);
                    lemma_flat_one(Seq::<T>::empty());
                    assert(self@ =~= Seq::<T>::empty());
                }
            } else {
                proof {
                    let lists = self.lists@;
                    self.index_tree.lemma_patched(&tree_before, lists_before, lists, i as int);
                    assert(bs[i as int].len() <= DEFAULT_UPPER_LOAD_FACTOR);
                    lemma_sized_with(self.buckets(), i as int);
                }
            }
            proof {
                self.lemma_indexed();
            }
        }
        removed
    }

    /// Removes the element of rank `k`, counted from 0 at the smallest, and returns it.
    pub fn remove(&mut self, k: usize) -> (removed: T)
        requires
            old(self).wf(),
            k < old(self)@.len(),
        ensures
            final(self).wf(),
            removed == old(self)@[k as int],
            final(self)@ == old(self)@.remove(k as int),
            final(self).counted() == old(self).counted() - 1,
            final(self).tree()[1] == old(self).tree()[1] - 1,
            final(self).tree()[1] == final(self)@.len(),
            ordered(final(self).buckets()),
            exists|i: int, j: int|
                {
                    &&& #[trigger] is_place_of(old(self).buckets(), k as int, i, j)
                    &&& final(self).buckets() == removed_at(old(self).buckets(), i, j)
                },
    {
        let (i, j) = self.locate_kth_element(k);
        proof {
            assert(is_place_of(self.buckets(), k as int, i as int, j as int));
            self.lemma_root_is_len();
        }
        let removed = self.lists_remove(i, j);
        proof {
            self.lemma_root_is_len();
            lemma_layout_ordered(self.buckets());
        }
        removed
    }

    /// Puts `element` into bucket `i`, which is the bucket for it, at the first place whose
    /// element does not come before it, and splits the bucket if it has grown over the upper
    /// load factor. Returns the place.
    fn lists_insert(&mut self, i: usize, element: T) -> (pos: usize)
        requires
            old(self).wf(),
            total_order::<T>(),
            is_bucket_for(old(self).buckets(), element, i as int),
            old(self)@.len() < usize::MAX,
        ensures
            final(self).wf(),
            is_lower_bound(old(self).buckets()[i as int], element, pos as int),
            is_slot(old(self)@, element, prefix_len(old(self).buckets(), i as int) + pos),
            final(self)@ == old(self)@.insert(
                prefix_len(old(self).buckets(), i as int) + pos,
                element,
            ),
            final(self).buckets() == inserted_at(
                old(self).buckets(),
                i as int,
                pos as int,
                element,
            ),
    {
        let ghost bs = self.buckets();
        let ghost flat_before = self@;
        proof {
            lemma_bucket_sorted(bs, i as int);
            self.lemma_indexed();
            self.lemma_leaf_sums(i as int);
        }
        let pos = match search(&self.lists[i], &element) {
            Ok(p) => p,
            Err(p) => {
                proof {
                    assert forall|a: int| p <= a < bs[i as int].len() implies le(
                        element,
                        #[trigger] bs[i as int][a],
                    ) by {
                        lemma_flip(element, bs[i as int][a]);
                    }
                }
                p
            },
        };
        proof {
            lemma_slot_in_layout(bs, element, i as int, pos as int);
            lemma_insert_flat(bs, i as int, pos as int, element);
            lemma_insert_sorted(flat_before, element, prefix_len(bs, i as int) + pos);
            assert(self.index_tree.leaves()[i as int] == self.leaf(i as int));
            assert(bs[i as int].len() <= DEFAULT_UPPER_LOAD_FACTOR);
        }
        self.lists[i].insert(pos, element);
        self.len = self.len + 1;
        proof {
            assert(self.buckets() =~= bs.update(
                i as int,
                bs[i as int].insert(pos as int, element),
            ));
            lemma_update_sized_but(bs, i as int, bs[i as int].insert(pos as int, element));
        }
        if self.lists[i].len() > self.upper_load_factor {
            self.expand(i);
        } else {
            let ghost tree_before = self.index_tree;
            self.index_tree.add(i, 1);
            proof {
                let lists = self.lists@;
                self.index_tree.lemma_patched(&tree_before, old(self).lists@, lists, i as int);
                assert(bs[i as int].len() >= 1);
                assert(i + 1 < bs.len() ==> bs[i as int].len() >= DEFAULT_LOWER_LOAD_FACTOR);
                lemma_sized_with(self.buckets(), i as int);
                self.lemma_indexed();
            }
        }
        pos
    }

    /// Puts the first element into an empty list.
    fn insert_first(&mut self, element: T)
        requires
            old(self).wf(),
            old(self)@.len() == 0,
        ensures
            final(self).wf(),
            final(self)@ == seq![element],
            final(self).buckets() == seq![seq![element]],
    {
        proof {
            self.lemma_indexed();
            self.lemma_leaf_sums(0);
            assert(self.buckets().len() == 0) by {
                if self.buckets().len() > 0 {
                    lemma_flat_parts(self.buckets(), 0);
                    assert(self.buckets()[0].len() >= 1);
                }
            }
            assert(self.index_tree.leaves()[0] == self.leaf(0));
        }
        let mut bucket: Vec<T> = Vec::new();
        bucket.push(element);
        self.lists.clear();
        self.lists.push(bucket);
        self.len = 1;
        let ghost tree_before = self.index_tree;
        self.index_tree.add(0, 1);
        proof {
            assert(old(self).lists@ =~= Seq::<Vec<T>>::empty());
            self.index_tree.lemma_started(&tree_before, self.lists@);
            assert(self.buckets() =~= seq![seq![element]]);
            lemma_flat_one(seq![element]);
            self.lemma_indexed();
        }
    }

    /// Puts `element` into the list, at a rank that keeps the order.
    pub fn insert(&mut self, element: T)
        requires
            old(self).wf(),
            total_order::<T>(),
            old(self)@.len() < usize::MAX,
        ensures
            final(self).wf(),
            exists|rank: int|
                is_slot(old(self)@, element, rank) && final(self)@ == old(self)@.insert(
                    rank,
                    element,
                ),
            final(self).counted() == old(self).counted() + 1,
            final(self).tree()[1] == old(self).tree()[1] + 1,
            final(self).tree()[1] == final(self)@.len(),
            ordered(final(self).buckets()),
            old(self)@.len() == 0 ==> final(self).buckets() == seq![seq![element]],
            old(self)@.len() > 0 ==> exists|i: int, p: int|
                {
                    &&& #[trigger] is_place_for(old(self).buckets(), element, i, p)
                    &&& final(self).buckets() == inserted_at(old(self).buckets(), i, p, element)
                    &&& final(self)@ == old(self)@.insert(
                        prefix_len(old(self).buckets(), i) + p,
                        element,
                    )
                },
    {
        proof {
            self.lemma_root_is_len();
        }
        if self.len == 0 {
            self.insert_first(element);
            proof {
                assert(is_slot(old(self)@, element, 0));
                assert(seq![element] =~= old(self)@.insert(0, element));
                self.lemma_root_is_len();
                lemma_layout_ordered(self.buckets());
            }
            return ;
        }
        let k = self.bisect_right_lists(&element);
        let ghost base = prefix_len(self.buckets(), k as int);
        let pos = self.lists_insert(k, element);
        proof {
            assert(is_slot(old(self)@, element, base + pos));
            assert(is_place_for(old(self).buckets(), element, k as int, pos as int));
            self.lemma_root_is_len();
            lemma_layout_ordered(self.buckets());
        }
    }

    /// Builds a list from a batch: sorts it stably and lays it out in buckets of the load
    /// factor, the last one holding the rest.
    pub fn from_vec(array: Vec<T>) -> (list: Self)
        ensures
            list@.len() == array@.len(),
            list@.to_multiset() == array@.to_multiset(),
            laid_out(list.buckets()),
            sized(list.buckets()),
            list.indexed(),
            list.counted() == list@.len(),
            total_order::<T>() ==> list.wf() && is_stable_sort_of(list@, array@),
    {
        let n = array.len();
        let sorted_array = merge_sort(array);
        let ghost whole = sorted_array@;
        let mut rest = reversed(sorted_array);
        let mut list = Self::default_list();
        let mut bucket: Vec<T> = Vec::new();
        proof {
            assert(views(list.lists@) =~= Seq::<Seq<T>>::empty());
            assert(flat(views(list.lists@)) + bucket@ =~= whole.take(0));
        }
        while rest.len() > 0
            invariant
                whole.len() == n,
                rest@.len() <= n,
                forall|k: int| 0 <= k < rest@.len() ==> rest@[k] == whole[n - 1 - k],
                flat(views(list.lists@)) + bucket@ == whole.take(n - rest@.len()),
                forall|i: int|
                    0 <= i < list.lists@.len() ==> (#[trigger] list.lists@[i])@.len()
                        == DEFAULT_LOAD_FACTOR,
                bucket@.len() < DEFAULT_LOAD_FACTOR,
                n - rest@.len() == list.lists@.len() * DEFAULT_LOAD_FACTOR + bucket@.len(),
                list.tuned(),
            decreases rest@.len(),
        {
            let ghost done = n - rest@.len();
            let ghost before = flat(views(list.lists@)) + bucket@;
            let element = rest.pop().unwrap();
            bucket.push(element);
            proof {
                assert(before.push(element) =~= whole.take(done + 1));
                assert(flat(views(list.lists@)) + bucket@ =~= before.push(element));
            }
            if bucket.len() == list.load_factor {
                let ghost full = bucket@;
                let ghost lists_before = list.lists@;
                list.lists.push(bucket);
                bucket = Vec::new();
                proof {
                    assert(views(list.lists@).drop_last() =~= views(lists_before));
                    assert(views(list.lists@).last() == full);
                    assert(flat(views(list.lists@)) + bucket@ =~= flat(views(lists_before)) + full);
                }
            }
        }
        if bucket.len() > 0 {
            let ghost last = bucket@;
            let ghost lists_before = list.lists@;
            list.lists.push(bucket);
            proof {
                assert(views(list.lists@).drop_last() =~= views(lists_before));
                assert(views(list.lists@).last() == last);
            }
        }
        list.len = n;
        proof {
            assert(whole.take(n as int) =~= whole);
            assert(list@ =~= whole);
            list.lemma_size_sum();
        }
        list.index_tree.rebuild(&list.lists);
        proof {
            list.lemma_indexed();
        }
        list
    }

    /// The elements in ascending order, by reference.
    fn flat_refs(&self) -> (all: Vec<&T>)
        ensures
            all@.len() == self@.len(),
            forall|k: int| 0 <= k < all@.len() ==> *all@[k] == self@[k],
    {
        let mut all: Vec<&T> = Vec::new();
        let mut i: usize = 0;
        proof {
            lemma_prefix_mono(self.buckets(), 0, 0);
        }
        while i < self.lists.len()
            invariant
                i <= self.lists@.len(),
                all@.len() == prefix_len(self.buckets(), i as int),
                forall|k: int| 0 <= k < all@.len() ==> *all@[k] == self@[k],
            decreases self.lists@.len() - i,
        {
            let list = &self.lists[i];
            let mut j: usize = 0;
            proof {
                lemma_flat_parts(self.buckets(), i as int);
            }
            while j < list.len()
                invariant
                    i < self.lists@.len(),
                    list@ == self.buckets()[i as int],
                    j <= list@.len(),
                    all@.len() == prefix_len(self.buckets(), i as int) + j,
                    forall|k: int| 0 <= k < all@.len() ==> *all@[k] == self@[k],
                decreases list@.len() - j,
            {
                proof {
                    lemma_flat_index(self.buckets(), i as int, j as int);
                }
                all.push(&list[j]);
                j = j + 1;
            }
            i = i + 1;
        }
        proof {
            lemma_prefix_mono(self.buckets(), 0, self.lists@.len() as int);
        }
        all
    }

    /// The elements in ascending order, by reference.
    pub fn flatten(&self) -> (all: Vec<&T>)
        ensures
            all@.len() == self@.len(),
            forall|k: int| 0 <= k < all@.len() ==> *all@[k] == self@[k],
    {
        self.flat_refs()
    }

    /// Clones of the elements, in ascending order.
    pub fn to_vec(&self) -> (all: Vec<T>) where T: Clone
        ensures
            all@.len() == self@.len(),
            forall|k: int| 0 <= k < all@.len() ==> cloned(self@[k], #[trigger] all@[k]),
    {
        let mut all: Vec<T> = Vec::new();
        let mut i: usize = 0;
        proof {
            lemma_prefix_mono(self.buckets(), 0, 0);
        }
        while i < self.lists.len()
            invariant
                i <= self.lists@.len(),
                all@.len() == prefix_len(self.buckets(), i as int),
                forall|k: int| 0 <= k < all@.len() ==> cloned(self@[k], #[trigger] all@[k]),
            decreases self.lists@.len() - i,
        {
            let list = &self.lists[i];
            let mut j: usize = 0;
            proof {
                lemma_flat_parts(self.buckets(), i as int);
            }
            while j < list.len()
                invariant
                    i < self.lists@.len(),
                    list@ == self.buckets()[i as int],
                    j <= list@.len(),
                    all@.len() == prefix_len(self.buckets(), i as int) + j,
                    forall|k: int| 0 <= k < all@.len() ==> cloned(self@[k], #[trigger] all@[k]),
                decreases list@.len() - j,
            {
                proof {
                    lemma_flat_index(self.buckets(), i as int, j as int);
                }
                all.push(list[j].clone());
                j = j + 1;
            }
            i = i + 1;
        }
        proof {
            lemma_prefix_mono(self.buckets(), 0, self.lists@.len() as int);
        }
        all
    }

    /// An iterator over the elements in ascending order, by reference.
    pub fn iter(&self) -> (elements: std::vec::IntoIter<&T>)
        ensures
            elements.remaining().len() == self@.len(),
            forall|k: int| 0 <= k < self@.len() ==> *elements.remaining()[k] == self@[k],
    {
        let all = self.flat_refs();
        proof {
            vstd::std_specs::vec::axiom_spec_into_iter(all);
        }
        all.into_iter()
    }

    /// The nodes of the index tree.
    pub fn index_tree(&self) -> (nodes: &Vec<usize>)
        ensures
            nodes@ == self.tree(),
    {
        self.index_tree.as_vec()
    }

    /// The number of leaves of the index tree.
    pub fn index_tree_offset(&self) -> (offset: usize)
        ensures
            offset == self.tree_offset(),
    {
        self.index_tree.leaf_count()
    }

    /// The number of buckets.
    pub fn bucket_count(&self) -> (count: usize)
        ensures
            count == self.buckets().len(),
    {
        self.lists.len()
    }
}

} // verus!
