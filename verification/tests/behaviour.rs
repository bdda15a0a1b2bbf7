use sortedlist_rs::SortedList;
use std::cmp::Ordering;

/// An element that is ordered by its key alone, so that equal keys can be told apart.
#[derive(Clone, Debug)]
struct Keyed {
    key: u32,
    tag: u32,
}

impl PartialEq for Keyed {
    fn eq(&self, other: &Self) -> bool {
        self.key == other.key
    }
}

impl Eq for Keyed {}

impl PartialOrd for Keyed {
    fn partial_cmp(&self, other: &Self) -> Option<Ordering> {
        Some(self.cmp(other))
    }
}

impl Ord for Keyed {
    fn cmp(&self, other: &Self) -> Ordering {
        self.key.cmp(&other.key)
    }
}

/// A small generator of scattered numbers, so that the tests need no seed.
fn scattered(count: usize, modulus: u64) -> Vec<u64> {
    let mut state: u64 = 0x2545_f491_4f6c_dd1d;
    let mut out = Vec::with_capacity(count);
    for _ in 0..count {
        state ^= state << 13;
        state ^= state >> 7;
        state ^= state << 17;
        out.push(state % modulus);
    }
    out
}

fn check_tree(list: &SortedList<u64>) {
    let tree = list.index_tree();
    let offset = list.index_tree_offset();
    assert!(offset >= 32);
    assert!(offset.is_power_of_two());
    assert_eq!(tree.len(), 2 * offset);
    assert!(list.bucket_count() <= offset);
    if offset > 32 {
        assert!(offset / 2 < list.bucket_count());
    }
    for node in 1..offset {
        assert_eq!(tree[node], tree[2 * node] + tree[2 * node + 1]);
    }
    for leaf in 0..offset {
        if leaf < list.bucket_count() {
            assert!(tree[offset + leaf] >= 1);
            assert!(tree[offset + leaf] <= 2048);
            if leaf + 1 < list.bucket_count() {
                assert!(tree[offset + leaf] >= 512);
            }
        } else {
            assert_eq!(tree[offset + leaf], 0);
        }
    }
    assert_eq!(tree[1], list.len());
}

#[test]
fn empty_list_has_nothing() {
    let list: SortedList<i32> = SortedList::new();
    assert_eq!(list.len(), 0);
    assert!(list.is_empty());
    assert_eq!(list.first(), None);
    assert_eq!(list.last(), None);
    assert_eq!(list.get(0), None);
    assert_eq!(list.binary_search(&7), Err(0));
    assert!(!list.contains(&7));
    assert!(list.flatten().is_empty());
    assert!(list.to_vec().is_empty());
    assert_eq!(list.iter().count(), 0);
    assert_eq!(list.bucket_count(), 0);
    assert_eq!(list.index_tree_offset(), 32);
    assert_eq!(list.index_tree(), &vec![0usize; 64]);
}

#[test]
fn default_is_empty() {
    let list: SortedList<u8> = SortedList::default();
    assert!(list.is_empty());
    assert_eq!(list.index_tree().len(), 64);
}

#[test]
fn single_element_is_first_and_last() {
    let mut list = SortedList::new();
    list.insert(42);
    assert_eq!(list.len(), 1);
    assert_eq!(list.first(), Some(&42));
    assert_eq!(list.last(), Some(&42));
    assert_eq!(list.get(0), Some(&42));
    assert_eq!(list.kth_smallest(0), &42);
    assert_eq!(list[0], 42);
    assert_eq!(list.get(1), None);
    assert_eq!(list.bucket_count(), 1);
    assert_eq!(list.index_tree()[1], 1);
    assert_eq!(list.index_tree()[32], 1);
}

#[test]
fn removing_the_last_element_leaves_no_bucket() {
    let mut list = SortedList::new();
    list.insert(3usize);
    assert_eq!(list.remove(0), 3);
    assert!(list.is_empty());
    assert_eq!(list.bucket_count(), 0);
    assert_eq!(list.index_tree(), &vec![0usize; 64]);
    list.insert(1);
    list.insert(5);
    assert_eq!(list.flatten(), vec![&1, &5]);
}

#[test]
fn duplicates_come_back_whatever_the_rank() {
    let copies = 5000;
    let mut list = SortedList::new();
    for _ in 0..copies {
        list.insert(7u32);
    }
    assert_eq!(list.len(), copies);
    match list.binary_search(&7) {
        Ok(rank) => assert!(rank < copies),
        Err(_) => panic!("a value that was put in is found"),
    }
    let ranks = scattered(copies, 1 << 40);
    for step in 0..copies {
        let rank = (ranks[step] as usize) % list.len();
        assert_eq!(list.remove(rank), 7);
    }
    assert!(list.is_empty());
}

#[test]
fn a_full_bucket_splits_on_the_next_insert() {
    let mut list = SortedList::new();
    for value in 0..2048u64 {
        list.insert(value);
    }
    assert_eq!(list.bucket_count(), 1);
    assert_eq!(list.index_tree()[32], 2048);
    list.insert(5000);
    assert_eq!(list.bucket_count(), 2);
    assert_eq!(list.index_tree()[32], 1024);
    assert_eq!(list.index_tree()[33], 1025);
    assert_eq!(list.len(), 2049);
    assert_eq!(list.last(), Some(&5000));
    check_tree(&list);
}

#[test]
fn a_bucket_under_the_lower_load_joins_its_neighbour() {
    let batch: Vec<u64> = (0..1536).collect();
    let mut list = SortedList::from(batch);
    assert_eq!(list.bucket_count(), 2);
    assert_eq!(list.index_tree()[32], 1024);
    assert_eq!(list.index_tree()[33], 512);
    assert_eq!(list.remove(1535), 1535);
    assert_eq!(list.bucket_count(), 1);
    assert_eq!(list.index_tree()[32], 1535);
    assert_eq!(list.index_tree()[33], 0);
    check_tree(&list);
    assert_eq!(list.to_vec(), (0..1535).collect::<Vec<u64>>());
}

#[test]
fn a_first_bucket_under_the_lower_load_takes_in_its_right_neighbour() {
    let batch: Vec<u64> = (0..3000).collect();
    let mut list = SortedList::from(batch);
    assert_eq!(list.bucket_count(), 3);
    for _ in 0..512 {
        assert_eq!(list.index_tree()[32] >= 512, true);
        list.remove(0);
    }
    assert_eq!(list.index_tree()[32], 512);
    list.remove(0);
    assert_eq!(list.bucket_count(), 2);
    assert_eq!(list.index_tree()[32], 511 + 1024);
    assert_eq!(list.index_tree()[33], 3000 - 2048);
    check_tree(&list);
}

#[test]
fn a_joined_bucket_over_the_upper_load_is_split_again() {
    let mut list = SortedList::new();
    for value in 0..4096u64 {
        list.insert(value);
    }
    // buckets of 1024, 1024 and 2048 elements
    assert_eq!(list.bucket_count(), 3);
    assert_eq!(list.index_tree()[32], 1024);
    assert_eq!(list.index_tree()[33], 1024);
    assert_eq!(list.index_tree()[34], 2048);
    for _ in 0..513 {
        list.remove(0);
    }
    // the first bucket fell to 511 and joined the second
    assert_eq!(list.bucket_count(), 2);
    assert_eq!(list.index_tree()[32], 1535);
    for _ in 0..1024 {
        list.remove(0);
    }
    // the first bucket fell to 511 again, and with 2048 more it had to be split
    assert_eq!(list.bucket_count(), 2);
    assert_eq!(list.index_tree()[32], 1279);
    assert_eq!(list.index_tree()[33], 1280);
    check_tree(&list);
    assert_eq!(list.to_vec(), (1537..4096).collect::<Vec<u64>>());
}

#[test]
fn a_batch_is_laid_out_in_buckets_of_the_load_factor() {
    let list = SortedList::from((0..1024u64).rev().collect::<Vec<u64>>());
    assert_eq!(list.bucket_count(), 1);
    assert_eq!(list.index_tree()[32], 1024);

    let mut list = SortedList::from((0..2048u64).rev().collect::<Vec<u64>>());
    assert_eq!(list.bucket_count(), 2);
    assert_eq!(list.index_tree()[33], 1024);
    list.insert(4000);
    list.insert(0);
    assert_eq!(list.len(), 2050);
    check_tree(&list);

    let list = SortedList::from((0..1025u64).rev().collect::<Vec<u64>>());
    assert_eq!(list.bucket_count(), 2);
    assert_eq!(list.index_tree()[32], 1024);
    assert_eq!(list.index_tree()[33], 1);

    let list: SortedList<u64> = SortedList::from(Vec::new());
    assert_eq!(list.bucket_count(), 0);
    assert!(list.is_empty());
    assert_eq!(list.first(), None);
}

#[test]
fn the_tree_grows_with_the_buckets() {
    let list = SortedList::from(vec![20u64; 100_000]);
    assert_eq!(list.bucket_count(), 98);
    assert_eq!(list.index_tree_offset(), 128);
    assert_eq!(list.index_tree().len(), 256);
    assert_eq!(list.index_tree()[1], 100_000);
    assert_eq!(list.index_tree()[128 + 97], 100_000 - 97 * 1024);
    check_tree(&list);

    let list = SortedList::from(vec![20u64; 32 * 1024]);
    assert_eq!(list.bucket_count(), 32);
    assert_eq!(list.index_tree_offset(), 32);

    let list = SortedList::from(vec![20u64; 32 * 1024 + 1]);
    assert_eq!(list.bucket_count(), 33);
    assert_eq!(list.index_tree_offset(), 64);
}

#[test]
fn a_batch_comes_out_stably_sorted() {
    let keys = scattered(5000, 50);
    let batch: Vec<Keyed> = keys
        .iter()
        .enumerate()
        .map(|(tag, key)| Keyed { key: *key as u32, tag: tag as u32 })
        .collect();
    let mut expected = batch.clone();
    expected.sort();
    let list = SortedList::from(batch);
    let actual = list.to_vec();
    assert_eq!(actual.len(), expected.len());
    for k in 0..expected.len() {
        assert_eq!(actual[k].key, expected[k].key);
        assert_eq!(actual[k].tag, expected[k].tag);
    }
}

#[test]
fn small_batches_are_sorted() {
    assert_eq!(SortedList::from(vec![2, 1]).to_vec(), vec![1, 2]);
    assert_eq!(SortedList::from(vec![1, 2]).to_vec(), vec![1, 2]);
    assert_eq!(SortedList::from(vec![3, 1, 2]).to_vec(), vec![1, 2, 3]);
    assert_eq!(SortedList::from(vec![5]).to_vec(), vec![5]);
    assert_eq!(SortedList::from(vec![2, 2, 1, 1, 3, 3]).to_vec(), vec![1, 1, 2, 2, 3, 3]);
    assert_eq!(SortedList::from(vec![-1, -7, 0, i32::MAX, i32::MIN]).to_vec(), vec![
        i32::MIN,
        -7,
        -1,
        0,
        i32::MAX
    ]);
}

#[test]
fn insert_then_remove_gives_the_list_back() {
    let batch = scattered(4000, 1000);
    let mut list = SortedList::from(batch);
    let before = list.to_vec();
    for value in [0u64, 3, 500, 999, 1000, 77777] {
        list.insert(value);
        let rank = match list.binary_search(&value) {
            Ok(rank) => rank,
            Err(_) => panic!("a value that was put in is found"),
        };
        assert_eq!(list.remove(rank), value);
        assert_eq!(list.to_vec(), before);
    }
}

#[test]
fn clear_twice_is_clear_once() {
    let mut list = SortedList::from(scattered(3000, 100));
    list.clear();
    assert!(list.is_empty());
    assert_eq!(list.len(), 0);
    let tree_once = list.index_tree().clone();
    list.clear();
    assert!(list.is_empty());
    assert_eq!(list.index_tree(), &tree_once);
    assert_eq!(list.index_tree_offset(), 32);
    assert_eq!(list.bucket_count(), 0);
    list.insert(9);
    assert_eq!(list.to_vec(), vec![9]);
    assert_eq!(list.len(), 1);
}

#[test]
fn a_hit_is_reported_for_what_the_list_contains() {
    let mut list = SortedList::from(vec![10u64, 2, 99, 20]);
    assert_eq!(list.first(), Some(&2));
    assert_eq!(list.last(), Some(&99));
    assert_eq!(list.binary_search(&30), Err(3));
    assert_eq!(list.binary_search(&20), Ok(2));
    assert_eq!(list.binary_search(&1), Err(0));
    assert_eq!(list.binary_search(&100), Err(4));
    assert!(!list.contains(&90));
    for value in 0..120u64 {
        match list.binary_search(&value) {
            Ok(rank) => {
                assert!(list.contains(&value));
                assert_eq!(list.get(rank), Some(&value));
            }
            Err(_) => assert!(!list.contains(&value)),
        }
    }
    for value in [30u64, 0, 1000, 11] {
        let rank = match list.binary_search(&value) {
            Ok(_) => panic!("a value that was never put in is not found"),
            Err(rank) => rank,
        };
        list.insert(value);
        assert_eq!(list.get(rank), Some(&value));
        let all = list.to_vec();
        assert!(all.windows(2).all(|pair| pair[0] <= pair[1]));
    }
}

#[test]
fn a_search_across_buckets_finds_the_rank() {
    let list = SortedList::from((0..10_000u64).map(|v| 2 * v).collect::<Vec<u64>>());
    for value in [0u64, 2, 2046, 2048, 2050, 4094, 4096, 19_998] {
        assert_eq!(list.binary_search(&value), Ok((value / 2) as usize));
        assert_eq!(list.binary_search(&(value + 1)), Err((value / 2) as usize + 1));
    }
}

#[test]
fn the_same_keys_in_many_buckets_are_found_in_the_last() {
    let list = SortedList::from(vec![20u64; 3000]);
    // the search goes to the last bucket whose first element is not above the value
    assert_eq!(list.binary_search(&20), Ok(2048));
    assert_eq!(list.binary_search(&19), Err(0));
    assert_eq!(list.binary_search(&21), Err(3000));
}

#[test]
fn kth_and_get_agree() {
    let list = SortedList::from(scattered(5000, 1 << 30));
    let all = list.to_vec();
    for rank in 0..list.len() {
        assert_eq!(list.get(rank), Some(list.kth_smallest(rank)));
        assert_eq!(list[rank], all[rank]);
    }
    assert_eq!(list.get(list.len()), None);
    assert_eq!(list.get(usize::MAX), None);
}

#[test]
fn the_length_is_the_count_and_the_root() {
    let mut list = SortedList::from(scattered(7000, 1 << 20));
    for value in scattered(3000, 1 << 20) {
        list.insert(value);
    }
    for _ in 0..2500 {
        list.remove(list.len() / 3);
    }
    assert_eq!(list.len(), 7500);
    assert_eq!(list.iter().count(), list.len());
    assert_eq!(list.index_tree()[1], list.len());
    assert_eq!(list.flatten().len(), list.len());
    check_tree(&list);
}

#[test]
fn the_iterator_ascends() {
    let mut list = SortedList::from(scattered(6000, 300));
    for value in scattered(500, 300) {
        list.insert(value);
    }
    let mut iterator = list.iter();
    let mut previous = match iterator.next() {
        Some(first) => *first,
        None => panic!("the list is not empty"),
    };
    let mut count = 1;
    for element in iterator {
        assert!(previous <= *element);
        previous = *element;
        count += 1;
    }
    assert_eq!(count, 6500);
    let flat = list.flatten();
    let owned = list.to_vec();
    for rank in 0..owned.len() {
        assert_eq!(*flat[rank], owned[rank]);
    }
}

#[test]
fn the_iterator_gives_each_element_once() {
    let list = SortedList::from([10, 2, 99, 20]);
    let mut iterator = list.iter();
    assert_eq!(Some(&2), iterator.next());
    assert_eq!(Some(&10), iterator.next());
    assert_eq!(Some(&20), iterator.next());
    assert_eq!(Some(&99), iterator.next());
    assert_eq!(None, iterator.next());
}

#[test]
fn inserts_and_removes_keep_the_order() {
    let array = vec![90, 19, 25];
    let mut list = SortedList::from(array);
    list.insert(100);
    list.insert(1);
    list.insert(20);
    assert_eq!(list.flatten(), vec![&1, &19, &20, &25, &90, &100]);
    assert_eq!(list.remove(3), 25);
    assert_eq!(list.to_vec(), vec![1, 19, 20, 90, 100]);
    assert_eq!(list.kth_smallest(2), &20);
    assert_eq!(list[2], 20);
}

#[test]
fn equal_keys_go_to_the_first_place_in_their_bucket() {
    let mut list = SortedList::new();
    list.insert(Keyed { key: 5, tag: 0 });
    list.insert(Keyed { key: 5, tag: 1 });
    list.insert(Keyed { key: 5, tag: 2 });
    list.insert(Keyed { key: 4, tag: 3 });
    list.insert(Keyed { key: 6, tag: 4 });
    let tags: Vec<u32> = list.iter().map(|element| element.tag).collect();
    assert_eq!(tags, vec![3, 2, 1, 0, 4]);
}

#[test]
fn a_list_is_built_from_an_array_a_slice_and_an_iterator() {
    let from_array = SortedList::from([5, 3, 4]);
    assert_eq!(from_array.to_vec(), vec![3, 4, 5]);

    let source = vec![9, 7, 8];
    let from_slice = SortedList::from(&source[..]);
    assert_eq!(from_slice.to_vec(), vec![7, 8, 9]);
    assert_eq!(source, vec![9, 7, 8]);

    let mut changing = vec![3, 2, 1];
    let from_mut_slice = SortedList::from(&mut changing[..]);
    assert_eq!(from_mut_slice.to_vec(), vec![1, 2, 3]);
    assert_eq!(changing, vec![3, 2, 1]);

    let mut iterator = vec![6, 1, 5, 2].into_iter();
    assert_eq!(iterator.next(), Some(6));
    let from_iterator = SortedList::from(iterator);
    assert_eq!(from_iterator.to_vec(), vec![1, 2, 5]);
}

#[test]
fn descending_inserts_fill_the_first_bucket() {
    let mut list = SortedList::new();
    for value in (0..10_000u64).rev() {
        list.insert(value);
    }
    assert_eq!(list.to_vec(), (0..10_000).collect::<Vec<u64>>());
    check_tree(&list);
    for rank in (0..10_000usize).rev() {
        assert_eq!(list.remove(rank), rank as u64);
    }
    assert!(list.is_empty());
    assert_eq!(list.bucket_count(), 0);
}

#[test]
fn a_list_follows_a_sorted_vector() {
    let mut reference: Vec<u64> = Vec::new();
    let mut list = SortedList::new();
    let values = scattered(30_000, 5000);
    for (step, value) in values.iter().enumerate() {
        if step % 3 == 2 && !reference.is_empty() {
            let rank = (*value as usize) % reference.len();
            assert_eq!(list.remove(rank), reference.remove(rank));
        } else {
            let rank = reference.partition_point(|held| held < value);
            reference.insert(rank, *value);
            list.insert(*value);
        }
        assert_eq!(list.len(), reference.len());
        assert_eq!(list.first(), reference.first());
        assert_eq!(list.last(), reference.last());
    }
    assert_eq!(list.to_vec(), reference);
    check_tree(&list);
    for value in 0..5000u64 {
        let expected = reference.partition_point(|held| *held < value);
        match list.binary_search(&value) {
            Ok(rank) => assert_eq!(reference[rank], value),
            Err(rank) => {
                assert_eq!(rank, expected);
                assert!(reference.binary_search(&value).is_err());
            }
        }
    }
}
