use dsa::algorithms::sorting::bubble_sort;
use dsa::algorithms::sorting::counting_sort;
use dsa::algorithms::sorting::heap_sort;
use dsa::algorithms::sorting::insertion_sort;
use dsa::algorithms::sorting::merge_sort;
use dsa::algorithms::sorting::quick_sort;
use dsa::algorithms::sorting::radix_sort;
use dsa::algorithms::sorting::selection_sort;
use dsa::data_structures::heap::Heap;

fn bubble_sort_checks() {
    let mut arr = vec![66, 18, 54, 67, 36, 44, 78, 12, 56];
    let expected = vec![12, 18, 36, 44, 54, 56, 66, 67, 78];
    bubble_sort(&mut arr);
    assert_eq!(arr, expected);
}

#[test]
fn test_bubble_sort() {
    bubble_sort_checks();
}

#[test]
fn sorting_test_test_bubble_sort() {
    bubble_sort_checks();
}

fn insertion_sort_checks() {
    let mut arr = vec![66, 18, 54, 67, 36, 44, 78, 12, 56];
    let expected = vec![12, 18, 36, 44, 54, 56, 66, 67, 78];
    insertion_sort(&mut arr);
    assert_eq!(arr, expected);
}

#[test]
fn test_insertion_sort() {
    insertion_sort_checks();
}

#[test]
fn sorting_test_test_insertion_sort() {
    insertion_sort_checks();
}

fn selection_sort_checks() {
    let mut arr = vec![66, 18, 54, 67, 36, 44, 78, 12, 56];
    let expected = vec![12, 18, 36, 44, 54, 56, 66, 67, 78];
    selection_sort(&mut arr);
    assert_eq!(arr, expected);
}

#[test]
fn test_selection_sort() {
    selection_sort_checks();
}

#[test]
fn sorting_test_test_selection_sort() {
    selection_sort_checks();
}

fn merge_sort_checks() {
    let mut arr = vec![66, 18, 54, 67, 36, 44, 78, 12, 56];
    let expected = vec![12, 18, 36, 44, 54, 56, 66, 67, 78];
    merge_sort(&mut arr);
    assert_eq!(arr, expected);
}

#[test]
fn test_merge_sort() {
    merge_sort_checks();
}

#[test]
fn sorting_test_test_merge_sort() {
    merge_sort_checks();
}

fn quick_sort_checks() {
    let mut arr = vec![66, 18, 54, 67, 36, 44, 78, 12, 56];
    let expected = vec![12, 18, 36, 44, 54, 56, 66, 67, 78];
    quick_sort(&mut arr);
    assert_eq!(arr, expected);
}

#[test]
fn test_quick_sort() {
    quick_sort_checks();
}

#[test]
fn sorting_test_test_quick_sort() {
    quick_sort_checks();
}

fn counting_sort_checks() {
    let mut arr = vec![4, 2, 2, 8, 3, 3, 1];
    let expected = vec![1, 2, 2, 3, 3, 4, 8];
    counting_sort(&mut arr);
    assert_eq!(arr, expected);
}

#[test]
fn test_counting_sort() {
    counting_sort_checks();
}

#[test]
fn sorting_test_test_counting_sort() {
    counting_sort_checks();
}

fn radix_sort_checks() {
    let mut arr = vec![170, 45, 75, 90, 802, 24, 2, 66];
    let expected = vec![2, 24, 45, 66, 75, 90, 170, 802];
    radix_sort(&mut arr);
    assert_eq!(arr, expected);
}

#[test]
fn test_radix_sort() {
    radix_sort_checks();
}

#[test]
fn sorting_test_test_radix_sort() {
    radix_sort_checks();
}

#[test]
fn test_heap_sort_max_heap() {
    let mut heap = Heap::new(true);
    heap.values = vec![3, 1, 6, 5, 2, 4];
    heap_sort(&mut heap);

    assert_eq!(heap.values, vec![1, 2, 3, 4, 5, 6]);
}

#[test]
fn test_heap_sort_min_heap() {
    let mut heap = Heap::new(false);
    heap.values = vec![3, 1, 6, 5, 2, 4];
    heap_sort(&mut heap);

    assert_eq!(heap.values, vec![6, 5, 4, 3, 2, 1]);
}

#[test]
fn test_sorts_on_single_element() {
    let mut arr = vec![7];
    bubble_sort(&mut arr);
    assert_eq!(arr, vec![7]);
    insertion_sort(&mut arr);
    assert_eq!(arr, vec![7]);
    counting_sort(&mut arr);
    assert_eq!(arr, vec![7]);
    radix_sort(&mut arr);
    assert_eq!(arr, vec![7]);
}

#[test]
fn test_sorts_on_empty_vector() {
    let mut arr: Vec<i32> = Vec::new();
    bubble_sort(&mut arr);
    assert_eq!(arr, Vec::<i32>::new());
    selection_sort(&mut arr);
    assert_eq!(arr, Vec::<i32>::new());
    merge_sort(&mut arr);
    assert_eq!(arr, Vec::<i32>::new());
    quick_sort(&mut arr);
    assert_eq!(arr, Vec::<i32>::new());
}

#[test]
fn test_sorts_with_negative_values() {
    let mut arr = vec![3, -7, 0, -7, 12];
    let expected = vec![-7, -7, 0, 3, 12];
    quick_sort(&mut arr);
    assert_eq!(arr, expected);
    let mut arr2 = vec![3, -7, 0, -7, 12];
    merge_sort(&mut arr2);
    assert_eq!(arr2, expected);
}
