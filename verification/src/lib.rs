//! A sorted list: a multiset of totally ordered elements kept in ascending order, with
//! insertion, removal by rank, lookup by rank and binary search by value.
//!
//! The elements lie in buckets, and a tree over the bucket sizes finds the bucket of a rank.
//! Every operation is verified against the sequence of elements that the list stands for.

pub mod buckets;
pub mod convert;
pub mod index_tree;
pub mod laws;
pub mod list;
pub mod order;
pub mod search;
pub mod sorting;

pub use list::SortedList;
