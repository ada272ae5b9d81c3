use rust_data_structures::search::{binary_search, jump_search, linear_search, ternary_search};

#[test]
fn linear_search_finds_first() {
    let array = vec![4, 2, 4, 9];
    assert_eq!(linear_search(&array, 4), Some(0));
    assert_eq!(linear_search(&array, 9), Some(3));
    assert_eq!(linear_search(&array, 5), None);
    assert_eq!(linear_search(&vec![], 5), None);
}

#[test]
fn sorted_searches_agree() {
    let array = vec![1, 3, 5, 7, 9, 11, 13, 15, 17];
    for (index, item) in array.iter().enumerate() {
        assert_eq!(binary_search(&array, *item), Some(index));
        assert_eq!(ternary_search(&array, *item), Some(index));
        assert_eq!(jump_search(&array, *item), Some(index));
    }
    for item in [0, 2, 8, 18] {
        assert_eq!(binary_search(&array, item), None);
        assert_eq!(ternary_search(&array, item), None);
        assert_eq!(jump_search(&array, item), None);
    }
}

#[test]
fn sorted_searches_on_empty_and_single() {
    let empty: Vec<i32> = vec![];
    assert_eq!(binary_search(&empty, 1), None);
    assert_eq!(ternary_search(&empty, 1), None);
    assert_eq!(jump_search(&empty, 1), None);
    let one = vec![5];
    assert_eq!(binary_search(&one, 5), Some(0));
    assert_eq!(binary_search(&one, 4), None);
    assert_eq!(ternary_search(&one, 6), None);
    assert_eq!(jump_search(&one, 5), Some(0));
}
