use toolbox::sort_list::{
    bubble_sort, insertion_sort, merge, merge_sort, parse_numbers, partition, quick_sort, swap,
    ParseNumbersError,
};

fn samples() -> Vec<Vec<i32>> {
    vec![
        vec![],
        vec![1],
        vec![2, 1],
        vec![5, 2, 8, 1, 9, 3],
        vec![3, 3, 3],
        vec![i32::MAX, -1, i32::MIN, 0, -1],
        (1..=200).rev().collect(),
        (0..100).map(|i| (i * 37) % 17 - 8).collect(),
    ]
}

fn check(sort: fn(&mut Vec<i32>)) {
    for sample in samples() {
        let mut sorted = sample.clone();
        sort(&mut sorted);
        let mut expected = sample.clone();
        expected.sort();
        assert_eq!(sorted, expected);
    }
}

#[test]
fn bubble_sort_sorts() {
    check(bubble_sort);
}

#[test]
fn quick_sort_sorts() {
    check(quick_sort);
}

#[test]
fn merge_sort_sorts() {
    check(merge_sort);
}

#[test]
fn insertion_sort_sorts() {
    check(insertion_sort);
}

#[test]
fn partition_puts_the_pivot_in_place() {
    let mut list = vec![9, 1, 7, 3, 5];
    let pivot = partition(&mut list);
    assert_eq!(pivot, 2);
    assert_eq!(list, vec![1, 3, 5, 9, 7]);
    let mut one = vec![4];
    assert_eq!(partition(&mut one), 0);
    let mut equal = vec![2, 2, 2];
    assert_eq!(partition(&mut equal), 2);
}

#[test]
fn merge_joins_two_sorted_halves() {
    let mut list = vec![1, 4, 9, 2, 3, 10];
    merge(&mut list, 3);
    assert_eq!(list, vec![1, 2, 3, 4, 9, 10]);
    let mut left_only = vec![1, 2];
    merge(&mut left_only, 2);
    assert_eq!(left_only, vec![1, 2]);
    let mut right_only = vec![1, 2];
    merge(&mut right_only, 0);
    assert_eq!(right_only, vec![1, 2]);
    let mut unsorted = vec![3, 1, 2, 0];
    merge(&mut unsorted, 2);
    assert_eq!(unsorted, vec![2, 0, 3, 1]);
}

#[test]
fn swap_exchanges_two_places() {
    let mut list = vec![1, 2, 3];
    swap(&mut list, 0, 2);
    assert_eq!(list, vec![3, 2, 1]);
    swap(&mut list, 1, 1);
    assert_eq!(list, vec![3, 2, 1]);
}

#[test]
fn numbers_are_read_word_by_word() {
    assert_eq!(parse_numbers(""), Ok(vec![]));
    assert_eq!(parse_numbers("  \t\n"), Ok(vec![]));
    assert_eq!(parse_numbers("5 2 8 1 9 3"), Ok(vec![5, 2, 8, 1, 9, 3]));
    assert_eq!(parse_numbers("  -7\t+7 \n 007 -0"), Ok(vec![-7, 7, 7, 0]));
    assert_eq!(parse_numbers("2147483647 -2147483648"), Ok(vec![i32::MAX, i32::MIN]));
    assert_eq!(parse_numbers("1 2147483648"), Err(ParseNumbersError { word: 1 }));
    assert_eq!(parse_numbers("-2147483649"), Err(ParseNumbersError { word: 0 }));
    assert_eq!(parse_numbers("1 2 x 4"), Err(ParseNumbersError { word: 2 }));
    assert_eq!(parse_numbers("1 - 2"), Err(ParseNumbersError { word: 1 }));
    assert_eq!(parse_numbers("1.5"), Err(ParseNumbersError { word: 0 }));
    assert_eq!(parse_numbers("99999999999999999999999999"), Err(ParseNumbersError { word: 0 }));
    assert_eq!(parse_numbers("12a"), Err(ParseNumbersError { word: 0 }));
}
