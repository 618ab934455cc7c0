use dsa::algorithms::searching::binary_search;
use dsa::algorithms::searching::linear_search;

#[test]
fn linear_search_test() {
    let array = vec![1, 2, 3, 4, 5, 6, 7, 8, 9];
    assert_eq!(linear_search(&array, 1), Some(0));
    assert_eq!(linear_search(&array, 10), None);
}

#[test]
fn binary_search_test() {
    let array = vec![1, 2, 3, 4, 5, 6, 7, 8, 9];
    assert_eq!(binary_search(&array, 1), Some(0));
    assert_eq!(binary_search(&array, 10), None);
}

#[test]
fn binary_search_below_minimum_test() {
    let array = vec![3, 5, 9];
    assert_eq!(binary_search(&array, 1), None);
    assert_eq!(binary_search(&array, 9), Some(2));
    let empty: Vec<i32> = Vec::new();
    assert_eq!(binary_search(&empty, 4), None);
}
