use rust_data_structures::sorting::{
    bubble_sort, counting_sort, insertion_sort, merge_sort, quick_sort, selection_sort,
};

fn cases() -> Vec<Vec<i32>> {
    vec![
        vec![],
        vec![1],
        vec![2, 1],
        vec![5, 3, 8, 1, 9, 2, 7],
        vec![4, 4, 1, 4, 0, -3, 4],
        vec![1, 2, 3, 4, 5],
        vec![5, 4, 3, 2, 1, 0],
        vec![0, 0, 0],
    ]
}

fn check(sort: fn(&mut Vec<i32>)) {
    for case in cases() {
        let mut array = case.clone();
        sort(&mut array);
        let mut expected = case.clone();
        expected.sort();
        assert_eq!(array, expected);
    }
}

#[test]
fn bubble_sort_sorts() {
    check(bubble_sort);
}

#[test]
fn selection_sort_sorts() {
    check(selection_sort);
}

#[test]
fn insertion_sort_sorts() {
    check(insertion_sort);
}

#[test]
fn merge_sort_sorts() {
    check(merge_sort);
}

#[test]
fn quick_sort_sorts() {
    check(quick_sort);
}

#[test]
fn quick_sort_with_smallest_pivot_last() {
    let mut array = vec![3, 5, 4, 6, 1];
    quick_sort(&mut array);
    assert_eq!(array, vec![1, 3, 4, 5, 6]);
}

#[test]
fn counting_sort_sorts_small_values() {
    let mut array = vec![3, 1, 4, 1, 5, 0, 2, 5];
    counting_sort(&mut array, 5);
    assert_eq!(array, vec![0, 1, 1, 2, 3, 4, 5, 5]);
    let mut empty: Vec<usize> = vec![];
    counting_sort(&mut empty, 3);
    assert!(empty.is_empty());
}

#[test]
fn counting_sort_leaves_out_of_range_input() {
    let mut array = vec![3, 9, 1];
    counting_sort(&mut array, 5);
    assert_eq!(array, vec![3, 9, 1]);
}
