use vstd::prelude::*;

verus! {

/// Scans `array` from the front and returns the index of the first
/// element equal to `target`, or `None` when no element matches.
pub fn linear_search(array: &Vec<i32>, target: i32) -> (r: Option<usize>)
    ensures
        match r {
            Some(i) => i < array.len() && array[i as int] == target && forall|k: int|
                0 <= k < i ==> array[k] != target,
            None => forall|k: int| 0 <= k < array.len() ==> array[k] != target,
        },
{
    let mut i: usize = 0;
    while i < array.len()
        invariant
            i <= array.len(),
            forall|k: int| 0 <= k < i ==> array[k] != target,
        decreases array.len() - i,
    {
        if array[i] == target {
            return Some(i);
        }
        i = i + 1;
    }
    None
}

/// Searches a sorted `array` by repeated halving and returns the index of
/// an element equal to `target`, or `None` when no element matches.
pub fn binary_search(array: &Vec<i32>, target: i32) -> (r: Option<usize>)
    requires
        forall|i: int, j: int| 0 <= i < j < array.len() ==> array[i] <= array[j],
    ensures
        match r {
            Some(i) => i < array.len() && array[i as int] == target,
            None => forall|k: int| 0 <= k < array.len() ==> array[k] != target,
        },
{
    if array.len() == 0 {
        return None;
    }
    let mut left: usize = 0;
    let mut right: usize = array.len() - 1;
    while left <= right
        invariant
            right < array.len(),
            forall|k: int| 0 <= k < left ==> array[k] != target,
            forall|k: int| right < k < array.len() ==> array[k] != target,
        decreases right + 1 - left,
    {
        let mid = left + (right - left) / 2;
        if target < array[mid] {
            if mid == 0 {
                return None;
            }
            right = mid - 1;
        } else if target > array[mid] {
            left = mid + 1;
        } else {
            return Some(mid);
        }
    }
    None
}

} // verus!
