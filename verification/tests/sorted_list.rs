use rand::{seq::SliceRandom, thread_rng, Rng};
use sortedlist_rs::SortedList;

#[test]
fn it_works() {
    let x = vec![1, 2, 3, 4, 9, 8, 7, 6, 5, 4];
    let y = vec![1, 2, 3, 4, 4, 5, 6, 7, 8, 9];
    let arr = SortedList::from(x);

    for i in 0..10 {
        assert_eq!(y[i], arr[i]);
    }
}

#[test]
fn random_tests() {
    let test_size = 100_000;
    let test_op = 5_000;

    let mut rng = thread_rng();
    let mut array = vec![];
    for _ in 0..test_size {
        let x = rng.gen::<i32>();
        array.push(x);
    }

    let mut copy = array.clone();
    copy.sort();

    let mut sorted_list = SortedList::from(array);

    for _ in 0..test_op {
        let x = rng.gen::<i32>();

        let k = match copy.binary_search(&x) {
            Ok(i) => i,
            Err(i) => i,
        };
        copy.insert(k, x);

        sorted_list.insert(x);
    }

    for _ in 0..test_op + test_size {
        let idx = rng.gen_range(0..copy.len());
        let expect = copy.remove(idx);
        let actual = sorted_list.remove(idx);
        assert_eq!(expect, actual);

        let expect = copy.first();
        let actual = sorted_list.first();
        assert_eq!(expect, actual);

        let expect = copy.last();
        let actual = sorted_list.last();
        assert_eq!(expect, actual);

        let x = rng.gen::<i32>();
        let actual = sorted_list.binary_search(&x);
        let expect = copy.binary_search(&x);
        assert_eq!(expect, actual);

        let index = rng.gen_range(0..copy.len() + 2000);
        let actual = sorted_list.get(index);
        let expect = copy.get(index);
        assert_eq!(expect, actual);

        let actual = sorted_list.len();
        let expect = copy.len();
        assert_eq!(expect, actual);

        let actual = sorted_list.is_empty();
        let expect = copy.is_empty();
        assert_eq!(expect, actual);
    }
}

#[test]
fn example() {
    let array = vec![90, 19, 25];
    let mut sorted_list = SortedList::from(array);

    sorted_list.insert(100);
    sorted_list.insert(1);
    sorted_list.insert(20);

    let x = sorted_list.remove(3);
    assert_eq!(25, x);
    assert_eq!(&20, sorted_list.kth_smallest(2));
    assert_eq!(20, sorted_list[2]);
}

#[test]
fn binary_search_test() {
    let array = vec![20; 100_000];
    let sorted_list = SortedList::from(array);
    let x = 50;

    let actual = sorted_list.binary_search(&x);
    let expected: Result<usize, usize> = Err(100_000);

    assert_eq!(actual, expected);
}

#[test]
fn contains_test() {
    let mut sorted_list = SortedList::from([10; 10_000]);
    assert!(sorted_list.contains(&10));
    assert!(!sorted_list.contains(&9));

    sorted_list.insert(9);
    assert!(sorted_list.contains(&9));

    sorted_list.insert(11);
    assert!(sorted_list.contains(&11));
}

#[test]
fn clear_test() {
    let mut sorted_list_1 = SortedList::from([10; 10_000]);
    let mut sorted_list_2 = SortedList::from([1, 3, 4, 2, 0]);

    sorted_list_1.clear();
    sorted_list_2.clear();

    for sorted_list in [sorted_list_1, sorted_list_2] {
        assert!(sorted_list.bucket_count() == 0);
        for val in sorted_list.index_tree() {
            assert!(val == &0);
        }
        assert!(sorted_list.index_tree().len() == 2 * sorted_list.index_tree_offset());
    }
}

#[test]
fn to_vec_test() {
    let mut rng = thread_rng();
    let mut array: Vec<usize> = (0..5_000).collect();
    array.shuffle(&mut rng);

    let sorted_list = SortedList::from(array);

    let to_vec = sorted_list.to_vec();

    assert_eq!((0..5_000).collect::<Vec<usize>>(), to_vec);
}

#[test]
fn flatten_test() {
    let mut rng = thread_rng();
    let mut array: Vec<usize> = (0..5_000).collect();
    array.shuffle(&mut rng);

    let sorted_list = SortedList::from(array);

    let flatten = sorted_list.flatten();

    for i in 0..5_000 {
        assert_eq!(flatten[i], &i);
    }
}

#[test]
fn complex_data_structure_test() {
    let mut array: Vec<Vec<i32>> = vec![];
    for i in (0..2000).rev() {
        array.push((0..i + 1).collect());
    }

    let sorted_list = SortedList::from(array);

    for i in 0..2000 {
        let actual: &Vec<i32> = &sorted_list[i];
        let expected = (0..i + 1).map(|x| x as i32).collect::<Vec<i32>>();

        assert_eq!(i + 1, actual.len());
        for j in 0..actual.len() {
            assert_eq!(actual[j], expected[j]);
        }
    }
}

#[test]
fn break_case_insert_after_lst_has_been_clean() {
    let mut lst = SortedList::<usize>::new();
    lst.insert(3);
    lst.remove(0);
    lst.insert(1);
    lst.insert(5);
}
