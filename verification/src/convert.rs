//! How a sorted list is built from other collections, and how it is indexed.

use crate::buckets::laid_out;
use crate::list::SortedList;
use crate::order::total_order;
use crate::sorting::is_stable_sort_of;
use vstd::prelude::*;
use vstd::std_specs::iter::IteratorSpec;

verus! {

impl<T: Ord> Default for SortedList<T> {
    /// Creates an empty list.
    fn default() -> (list: Self)
        ensures
            list.wf(),
            list@ == Seq::<T>::empty(),
            list.is_cleared(),
    {
        Self::new()
    }
}

impl<T: Ord> From<Vec<T>> for SortedList<T> {
    /// Builds a list from a batch, which it sorts stably.
    fn from(array: Vec<T>) -> (list: Self)
        ensures
            list@.len() == array@.len(),
            list@.to_multiset() == array@.to_multiset(),
            laid_out(list.buckets()),
            total_order::<T>() ==> list.wf() && is_stable_sort_of(list@, array@),
    {
        Self::from_vec(array)
    }
}

impl<T: Ord> vstd::std_specs::convert::FromSpecImpl<Vec<T>> for SortedList<T> {
    /// The list is stated by `from` itself, not as a function of its argument.
    open spec fn obeys_from_spec() -> bool {
        false
    }

    open spec fn from_spec(array: Vec<T>) -> Self {
        arbitrary()
    }
}

impl<T: Ord> std::ops::Index<usize> for SortedList<T> {
    type Output = T;

    /// The element of rank `index`, counted from 0 at the smallest.
    fn index(&self, index: usize) -> (element: &T)
        ensures
            *element == self@[index as int],
    {
        self.kth_smallest(index)
    }
}

impl<T: Ord> vstd::std_specs::core::IndexSpecImpl<usize> for SortedList<T> {
    /// A list can be indexed by the ranks of its elements.
    open spec fn index_req(&self, index: &usize) -> bool {
        self.wf() && *index < self@.len()
    }
}

/// Moves the elements of an array into a vector, in order, with `Vec::from`.
#[verifier::external_body]
fn array_into_vec<T, const N: usize>(array: [T; N]) -> (v: Vec<T>)
    ensures
        v@ == array@,
{
    Vec::from(array)
}

impl<T: Ord, const N: usize> From<[T; N]> for SortedList<T> {
    /// Builds a list from an array, which it sorts stably.
    fn from(array: [T; N]) -> (list: Self)
        ensures
            list@.len() == N,
            list@.to_multiset() == array@.to_multiset(),
            laid_out(list.buckets()),
            total_order::<T>() ==> list.wf() && is_stable_sort_of(list@, array@),
    {
        Self::from_vec(array_into_vec(array))
    }
}

impl<T: Ord, const N: usize> vstd::std_specs::convert::FromSpecImpl<[T; N]> for SortedList<T> {
    /// The list is stated by `from` itself, not as a function of its argument.
    open spec fn obeys_from_spec() -> bool {
        false
    }

    open spec fn from_spec(array: [T; N]) -> Self {
        arbitrary()
    }
}

/// `batch` holds a clone of each element of `source`, in order.
pub open spec fn is_clone_of<T: Clone>(batch: Seq<T>, source: Seq<T>) -> bool {
    &&& batch.len() == source.len()
    &&& forall|k: int| 0 <= k < source.len() ==> cloned(source[k], #[trigger] batch[k])
}

/// Clones the elements of a slice into a vector, in order.
fn clone_slice<T: Clone>(array: &[T]) -> (batch: Vec<T>)
    ensures
        is_clone_of(batch@, array@),
{
    let mut batch: Vec<T> = Vec::new();
    let mut k: usize = 0;
    while k < array.len()
        invariant
            k <= array@.len(),
            batch@.len() == k,
            forall|a: int| 0 <= a < k ==> cloned(array@[a], #[trigger] batch@[a]),
        decreases array@.len() - k,
    {
        batch.push(array[k].clone());
        k = k + 1;
    }
    batch
}

impl<T: Ord + Clone> From<&[T]> for SortedList<T> {
    /// Builds a list from clones of the elements of a slice, which it sorts stably.
    fn from(array: &[T]) -> (list: Self)
        ensures
            list@.len() == array@.len(),
            laid_out(list.buckets()),
            total_order::<T>() ==> list.wf(),
            exists|batch: Seq<T>|
                #![trigger is_clone_of(batch, array@)]
                {
                    &&& is_clone_of(batch, array@)
                    &&& list@.to_multiset() == batch.to_multiset()
                    &&& total_order::<T>() ==> is_stable_sort_of(list@, batch)
                },
    {
        let batch = clone_slice(array);
        let list = Self::from_vec(batch);
        proof {
            assert(is_clone_of(batch@, array@));
        }
        list
    }
}

impl<T: Ord + Clone> vstd::std_specs::convert::FromSpecImpl<&[T]> for SortedList<T> {
    /// The list is stated by `from` itself, not as a function of its argument.
    open spec fn obeys_from_spec() -> bool {
        false
    }

    open spec fn from_spec(array: &[T]) -> Self {
        arbitrary()
    }
}

/// Gathers what an iterator over a vector has not yet given out, in order, with
/// `Iterator::collect`.
#[verifier::external_body]
fn collect_rest<T>(iter: std::vec::IntoIter<T>) -> (batch: Vec<T>)
    ensures
        batch@ == iter.remaining(),
{
    iter.collect()
}

impl<T: Ord> From<std::vec::IntoIter<T>> for SortedList<T> {
    /// Builds a list from what an iterator over a vector has left, which it sorts stably.
    fn from(iter: std::vec::IntoIter<T>) -> (list: Self)
        ensures
            list@.len() == iter.remaining().len(),
            list@.to_multiset() == iter.remaining().to_multiset(),
            laid_out(list.buckets()),
            total_order::<T>() ==> list.wf() && is_stable_sort_of(list@, iter.remaining()),
    {
        Self::from_vec(collect_rest(iter))
    }
}

impl<T: Ord> vstd::std_specs::convert::FromSpecImpl<std::vec::IntoIter<T>> for SortedList<T> {
    /// The list is stated by `from` itself, not as a function of its argument.
    open spec fn obeys_from_spec() -> bool {
        false
    }

    open spec fn from_spec(iter: std::vec::IntoIter<T>) -> Self {
        arbitrary()
    }
}

impl<T: Ord + Clone> From<&mut [T]> for SortedList<T> {
    /// Builds a list from clones of the elements of a slice, which it sorts stably.
    fn from(array: &mut [T]) -> (list: Self)
        ensures
            list@.len() == old(array)@.len(),
            final(array)@ == old(array)@,
            laid_out(list.buckets()),
            total_order::<T>() ==> list.wf(),
            exists|batch: Seq<T>|
                #![trigger is_clone_of(batch, old(array)@)]
                {
                    &&& is_clone_of(batch, old(array)@)
                    &&& list@.to_multiset() == batch.to_multiset()
                    &&& total_order::<T>() ==> is_stable_sort_of(list@, batch)
                },
    {
        let batch = clone_slice(array);
        let list = Self::from_vec(batch);
        proof {
            assert(is_clone_of(batch@, array@));
        }
        list
    }
}

impl<T: Ord + Clone> vstd::std_specs::convert::FromSpecImpl<&mut [T]> for SortedList<T> {
    /// The list is stated by `from` itself, not as a function of its argument.
    open spec fn obeys_from_spec() -> bool {
        false
    }

    open spec fn from_spec(array: &mut [T]) -> Self {
        arbitrary()
    }
}

} // verus!
