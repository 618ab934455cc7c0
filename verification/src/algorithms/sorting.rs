use vstd::prelude::*;
use vstd::pervasive::VecAdditionalExecFns;
use vstd::seq_lib::lemma_multiset_commutative;
use vstd::seq_lib::group_to_multiset_ensures;
use crate::data_structures::heap::Heap;
use crate::data_structures::heap::heap_le;
use crate::data_structures::heap::is_heap_upto;
use crate::data_structures::heap::in_subtree;
use crate::data_structures::heap::lemma_root_subtree;
use crate::data_structures::heap::lemma_heap_root_dominates;

verus! {

/// A sequence is sorted when its elements never decrease from left to right.
pub open spec fn sorted(s: Seq<i32>) -> bool {
    forall|i: int, j: int| 0 <= i < j < s.len() ==> s[i] <= s[j]
}

/// A sequence is reverse-sorted when its elements never increase from left
/// to right.
pub open spec fn sorted_desc(s: Seq<i32>) -> bool {
    forall|i: int, j: int| 0 <= i < j < s.len() ==> s[i] >= s[j]
}

/// Exchanges the elements at positions `i` and `j`.
fn swap_in(arr: &mut Vec<i32>, i: usize, j: usize)
    requires
        i < old(arr).len(),
        j < old(arr).len(),
    ensures
        final(arr)@ == old(arr)@.update(i as int, old(arr)@[j as int]).update(
            j as int,
            old(arr)@[i as int],
        ),
        final(arr)@.to_multiset() == old(arr)@.to_multiset(),
        final(arr).len() == old(arr).len(),
{
    proof {
        broadcast use vstd::seq_lib::to_multiset_update;
        broadcast use group_to_multiset_ensures;

    }
    let x = arr[i];
    let y = arr[j];
    arr.set(i, y);
    arr.set(j, x);
    proof {
        assert(arr@.to_multiset() =~= old(arr)@.to_multiset());
    }
}

/// Sorts the vector in place by repeatedly bubbling larger elements past
/// smaller neighbors. The result is the sorted rearrangement of the input.
pub fn bubble_sort(arr: &mut Vec<i32>)
    ensures
        sorted(final(arr)@),
        final(arr)@.to_multiset() == old(arr)@.to_multiset(),
        final(arr).len() == old(arr).len(),
{
    let n = arr.len();
    let mut i: usize = 0;
    while i < n
        invariant
            arr.len() == n,
            i <= n,
            arr@.to_multiset() == old(arr)@.to_multiset(),
            forall|a: int, b: int| n - i <= a < b < n ==> arr[a] <= arr[b],
            forall|a: int, b: int| 0 <= a < n - i && n - i <= b < n ==> arr[a] <= arr[b],
        decreases n - i,
    {
        let mut j: usize = 1;
        while j < n - i
            invariant
                arr.len() == n,
                i < n,
                1 <= j <= n - i,
                arr@.to_multiset() == old(arr)@.to_multiset(),
                forall|a: int, b: int| n - i <= a < b < n ==> arr[a] <= arr[b],
                forall|a: int, b: int| 0 <= a < n - i && n - i <= b < n ==> arr[a] <= arr[b],
                forall|k: int| 0 <= k < j ==> #[trigger] arr[k] <= arr[j - 1],
            decreases n - i - j,
        {
            if arr[j] < arr[j - 1] {
                swap_in(arr, j, j - 1);
            }
            j = j + 1;
        }
        i = i + 1;
    }
}

/// Sorts the vector in place by inserting each element into its place in
/// the sorted prefix. The result is the sorted rearrangement of the input.
pub fn insertion_sort(arr: &mut Vec<i32>)
    ensures
        sorted(final(arr)@),
        final(arr)@.to_multiset() == old(arr)@.to_multiset(),
        final(arr).len() == old(arr).len(),
{
    let n = arr.len();
    let mut i: usize = 1;
    while i < n
        invariant
            arr.len() == n,
            1 <= i <= n || n == 0,
            arr@.to_multiset() == old(arr)@.to_multiset(),
            forall|a: int, b: int| 0 <= a < b < i ==> arr[a] <= arr[b],
        decreases n - i,
    {
        let mut j: usize = i;
        while j > 0 && arr[j - 1] > arr[j]
            invariant
                arr.len() == n,
                0 <= j <= i < n,
                arr@.to_multiset() == old(arr)@.to_multiset(),
                forall|a: int, b: int| 0 <= a < b <= i && b != j ==> arr[a] <= arr[b],
                forall|b: int| j < b <= i ==> arr[j as int] <= arr[b],
            decreases j,
        {
            swap_in(arr, j - 1, j);
            j = j - 1;
        }
        i = i + 1;
    }
}

/// Sorts the vector in place by repeatedly selecting the least remaining
/// element. The result is the sorted rearrangement of the input.
pub fn selection_sort(arr: &mut Vec<i32>)
    ensures
        sorted(final(arr)@),
        final(arr)@.to_multiset() == old(arr)@.to_multiset(),
        final(arr).len() == old(arr).len(),
{
    let n = arr.len();
    let mut i: usize = 0;
    while i < n
        invariant
            arr.len() == n,
            i <= n,
            arr@.to_multiset() == old(arr)@.to_multiset(),
            forall|a: int, b: int| 0 <= a < b < i ==> arr[a] <= arr[b],
            forall|a: int, b: int| 0 <= a < i && i <= b < n ==> arr[a] <= arr[b],
        decreases n - i,
    {
        let mut min_index: usize = i;
        let mut j: usize = i + 1;
        while j < n
            invariant
                arr.len() == n,
                i <= min_index < j <= n,
                forall|k: int| i <= k < j ==> arr[min_index as int] <= arr[k],
            decreases n - j,
        {
            if arr[j] < arr[min_index] {
                min_index = j;
            }
            j = j + 1;
        }
        swap_in(arr, i, min_index);
        i = i + 1;
    }
}

/// Copies `v[from..to]` into a fresh vector.
fn copy_range(v: &Vec<i32>, from: usize, to: usize) -> (r: Vec<i32>)
    requires
        from <= to <= v.len(),
    ensures
        r@ == v@.subrange(from as int, to as int),
{
    let mut r: Vec<i32> = Vec::new();
    let mut k: usize = from;
    proof {
        assert(r@ =~= v@.subrange(from as int, from as int));
    }
    while k < to
        invariant
            from <= k <= to,
            r@ == v@.subrange(from as int, k as int),
        decreases to - k,
    {
        r.push(v[k]);
        proof {
            assert(r@ =~= v@.subrange(from as int, (k + 1) as int));
        }
        k = k + 1;
    }
    r
}

/// Pushing the same element onto a merged prefix or onto one of its two
/// sources leaves the combined multisets equal.
proof fn lemma_multiset_push_pieces(a: Seq<i32>, b: Seq<i32>, c: Seq<i32>, x: i32)
    requires
        c.to_multiset() == (a + b).to_multiset(),
    ensures
        c.push(x).to_multiset() == (a.push(x) + b).to_multiset(),
        c.push(x).to_multiset() == (a + b.push(x)).to_multiset(),
{
    broadcast use group_to_multiset_ensures;

    lemma_multiset_commutative(a, b);
    lemma_multiset_commutative(a.push(x), b);
    lemma_multiset_commutative(a, b.push(x));
    assert(c.push(x).to_multiset() =~= (a.push(x) + b).to_multiset());
    assert(c.push(x).to_multiset() =~= (a + b.push(x)).to_multiset());
}

/// Merges the two sorted halves `arr[..mid]` and `arr[mid..]` in place,
/// leaving the whole vector sorted with the same elements.
#[verifier::rlimit(60)]
fn merge(arr: &mut Vec<i32>, mid: usize)
    requires
        mid <= old(arr).len(),
        sorted(old(arr)@.subrange(0, mid as int)),
        sorted(old(arr)@.subrange(mid as int, old(arr).len() as int)),
    ensures
        sorted(final(arr)@),
        final(arr)@.to_multiset() == old(arr)@.to_multiset(),
        final(arr).len() == old(arr).len(),
{
    let n = arr.len();
    let left = copy_range(arr, 0, mid);
    let right = copy_range(arr, mid, n);
    proof {
        assert(left@ + right@ =~= old(arr)@);
        lemma_multiset_commutative(left@, right@);
        assert(left@.subrange(0, 0) + right@.subrange(0, 0) =~= Seq::<i32>::empty());
        assert(arr@.subrange(0, 0) =~= Seq::<i32>::empty());
        assert(Seq::<i32>::empty().to_multiset() =~= (left@.subrange(0, 0) + right@.subrange(
            0,
            0,
        )).to_multiset());
    }
    let mut i: usize = 0;
    let mut j: usize = 0;
    let mut k: usize = 0;
    while i < left.len() && j < right.len()
        invariant
            arr.len() == n,
            left.len() == mid,
            left.len() + right.len() == n,
            i <= left.len(),
            j <= right.len(),
            k == i + j,
            sorted(left@),
            sorted(right@),
            sorted(arr@.subrange(0, k as int)),
            arr@.subrange(0, k as int).to_multiset() == (left@.subrange(0, i as int)
                + right@.subrange(0, j as int)).to_multiset(),
            forall|t: int| 0 <= t < k && i < left.len() ==> arr[t] <= left[i as int],
            forall|t: int| 0 <= t < k && j < right.len() ==> arr[t] <= right[j as int],
        decreases n - k,
    {
        proof {
            lemma_multiset_push_pieces(
                left@.subrange(0, i as int),
                right@.subrange(0, j as int),
                arr@.subrange(0, k as int),
                if left[i as int] <= right[j as int] {
                    left[i as int]
                } else {
                    right[j as int]
                },
            );
        }
        if left[i] <= right[j] {
            let x = left[i];
            let ghost before = arr@;
            arr.set(k, x);
            proof {
                assert(arr@.subrange(0, (k + 1) as int) =~= before.subrange(0, k as int).push(x));
                assert(left@.subrange(0, (i + 1) as int) =~= left@.subrange(0, i as int).push(x));
            }
            i = i + 1;
        } else {
            let x = right[j];
            let ghost before = arr@;
            arr.set(k, x);
            proof {
                assert(arr@.subrange(0, (k + 1) as int) =~= before.subrange(0, k as int).push(x));
                assert(right@.subrange(0, (j + 1) as int) =~= right@.subrange(0, j as int).push(x));
            }
            j = j + 1;
        }
        k = k + 1;
    }
    while i < left.len()
        invariant
            arr.len() == n,
            left.len() == mid,
            left.len() + right.len() == n,
            i <= left.len(),
            j <= right.len(),
            i < left.len() ==> j == right.len(),
            k == i + j,
            sorted(left@),
            sorted(arr@.subrange(0, k as int)),
            arr@.subrange(0, k as int).to_multiset() == (left@.subrange(0, i as int)
                + right@.subrange(0, j as int)).to_multiset(),
            forall|t: int| 0 <= t < k && i < left.len() ==> arr[t] <= left[i as int],
            forall|t: int| 0 <= t < k && j < right.len() ==> arr[t] <= right[j as int],
        decreases n - k,
    {
        let x = left[i];
        proof {
            lemma_multiset_push_pieces(
                left@.subrange(0, i as int),
                right@.subrange(0, j as int),
                arr@.subrange(0, k as int),
                x,
            );
        }
        let ghost before = arr@;
        arr.set(k, x);
        proof {
            assert(arr@.subrange(0, (k + 1) as int) =~= before.subrange(0, k as int).push(x));
            assert(left@.subrange(0, (i + 1) as int) =~= left@.subrange(0, i as int).push(x));
        }
        i = i + 1;
        k = k + 1;
    }
    while j < right.len()
        invariant
            arr.len() == n,
            left.len() == mid,
            left.len() + right.len() == n,
            i == left.len(),
            j <= right.len(),
            k == i + j,
            sorted(right@),
            sorted(arr@.subrange(0, k as int)),
            arr@.subrange(0, k as int).to_multiset() == (left@.subrange(0, i as int)
                + right@.subrange(0, j as int)).to_multiset(),
            forall|t: int| 0 <= t < k && j < right.len() ==> arr[t] <= right[j as int],
        decreases n - k,
    {
        let x = right[j];
        proof {
            lemma_multiset_push_pieces(
                left@.subrange(0, i as int),
                right@.subrange(0, j as int),
                arr@.subrange(0, k as int),
                x,
            );
        }
        let ghost before = arr@;
        arr.set(k, x);
        proof {
            assert(arr@.subrange(0, (k + 1) as int) =~= before.subrange(0, k as int).push(x));
            assert(right@.subrange(0, (j + 1) as int) =~= right@.subrange(0, j as int).push(x));
        }
        j = j + 1;
        k = k + 1;
    }
    proof {
        assert(arr@.subrange(0, n as int) =~= arr@);
        assert(left@.subrange(0, left.len() as int) =~= left@);
        assert(right@.subrange(0, right.len() as int) =~= right@);
    }
}

/// Sorts the vector in place by sorting copies of its two halves and
/// merging them back. The result is the sorted rearrangement of the input.
pub fn merge_sort(arr: &mut Vec<i32>)
    ensures
        sorted(final(arr)@),
        final(arr)@.to_multiset() == old(arr)@.to_multiset(),
        final(arr).len() == old(arr).len(),
    decreases old(arr).len(),
{
    let n = arr.len();
    if n <= 1 {
        return ;
    }
    let mid = n / 2;
    let mut left = copy_range(arr, 0, mid);
    let mut right = copy_range(arr, mid, n);
    proof {
        assert(left@ + right@ =~= arr@);
        lemma_multiset_commutative(left@, right@);
    }
    let ghost pre = arr@;
    merge_sort(&mut left);
    merge_sort(&mut right);
    let mut k: usize = 0;
    while k < mid
        invariant
            arr.len() == n,
            left.len() == mid,
            k <= mid,
            arr@.subrange(0, k as int) == left@.subrange(0, k as int),
            arr@.subrange(mid as int, n as int) == pre.subrange(mid as int, n as int),
        decreases mid - k,
    {
        arr.set(k, left[k]);
        proof {
            assert(arr@.subrange(0, (k + 1) as int) =~= left@.subrange(0, (k + 1) as int));
            assert(arr@.subrange(mid as int, n as int) =~= pre.subrange(mid as int, n as int));
        }
        k = k + 1;
    }
    let mut k2: usize = 0;
    while k2 < n - mid
        invariant
            arr.len() == n,
            left.len() == mid,
            right.len() == n - mid,
            k2 <= n - mid,
            arr@.subrange(0, mid as int) == left@,
            arr@.subrange(mid as int, (mid + k2) as int) == right@.subrange(0, k2 as int),
        decreases n - mid - k2,
    {
        arr.set(mid + k2, right[k2]);
        proof {
            assert(arr@.subrange(0, mid as int) =~= left@);
            assert(arr@.subrange(mid as int, (mid + k2 + 1) as int) =~= right@.subrange(
                0,
                (k2 + 1) as int,
            ));
        }
        k2 = k2 + 1;
    }
    proof {
        assert(right@.subrange(0, (n - mid) as int) =~= right@);
        assert(arr@.subrange(mid as int, n as int) =~= right@);
        assert(arr@ =~= left@ + right@);
        lemma_multiset_commutative(left@, right@);
    }
    merge(arr, mid);
}

/// Every element of a rearrangement of `s1` is below `c` when every
/// element of `s1` is.
proof fn lemma_permutation_keeps_upper_bound(s1: Seq<i32>, s2: Seq<i32>, c: int)
    requires
        s1.to_multiset() == s2.to_multiset(),
        forall|k: int| 0 <= k < s1.len() ==> s1[k] < c,
    ensures
        forall|k: int| 0 <= k < s2.len() ==> s2[k] < c,
{
    broadcast use group_to_multiset_ensures;

    assert forall|k: int| 0 <= k < s2.len() implies s2[k] < c by {
        assert(s2.contains(s2[k]));
        assert(s1.to_multiset().count(s2[k]) > 0);
        assert(s1.contains(s2[k]));
        let m = choose|m: int| 0 <= m < s1.len() && s1[m] == s2[k];
    }
}

/// Every element of a rearrangement of `s1` is at least `c` when every
/// element of `s1` is.
proof fn lemma_permutation_keeps_lower_bound(s1: Seq<i32>, s2: Seq<i32>, c: int)
    requires
        s1.to_multiset() == s2.to_multiset(),
        forall|k: int| 0 <= k < s1.len() ==> s1[k] >= c,
    ensures
        forall|k: int| 0 <= k < s2.len() ==> s2[k] >= c,
{
    broadcast use group_to_multiset_ensures;

    assert forall|k: int| 0 <= k < s2.len() implies s2[k] >= c by {
        assert(s2.contains(s2[k]));
        assert(s1.to_multiset().count(s2[k]) > 0);
        assert(s1.contains(s2[k]));
        let m = choose|m: int| 0 <= m < s1.len() && s1[m] == s2[k];
    }
}

/// A swap of two positions inside `[lo, hi)` permutes that range and
/// leaves everything outside it unchanged.
proof fn lemma_swap_in_range(pre: Seq<i32>, post: Seq<i32>, i: int, j: int, lo: int, hi: int)
    requires
        0 <= lo <= i < hi <= pre.len(),
        lo <= j < hi,
        post == pre.update(i, pre[j]).update(j, pre[i]),
    ensures
        post.subrange(lo, hi).to_multiset() == pre.subrange(lo, hi).to_multiset(),
        post.subrange(0, lo) == pre.subrange(0, lo),
        post.subrange(hi, pre.len() as int) == pre.subrange(hi, pre.len() as int),
        post.len() == pre.len(),
{
    broadcast use vstd::seq_lib::to_multiset_update;
    broadcast use group_to_multiset_ensures;

    assert(post.subrange(0, lo) =~= pre.subrange(0, lo));
    assert(post.subrange(hi, pre.len() as int) =~= pre.subrange(hi, pre.len() as int));
    let a = pre.subrange(lo, hi);
    let b = post.subrange(lo, hi);
    assert(b =~= a.update(i - lo, a[j - lo]).update(j - lo, a[i - lo]));
    assert(b.to_multiset() =~= a.to_multiset());
}

/// Partitions `arr[lo..hi]` around its final element: afterwards
/// everything left of the returned pivot position is strictly smaller
/// than the pivot, and everything from the pivot rightwards is at least
/// the pivot.
fn partition(arr: &mut Vec<i32>, lo: usize, hi: usize) -> (p: usize)
    requires
        lo < hi <= old(arr).len(),
    ensures
        lo <= p < hi,
        final(arr).len() == old(arr).len(),
        final(arr)@.subrange(lo as int, hi as int).to_multiset() == old(arr)@.subrange(
            lo as int,
            hi as int,
        ).to_multiset(),
        final(arr)@.subrange(0, lo as int) == old(arr)@.subrange(0, lo as int),
        final(arr)@.subrange(hi as int, old(arr).len() as int) == old(arr)@.subrange(
            hi as int,
            old(arr).len() as int,
        ),
        final(arr)@[p as int] == old(arr)@[hi - 1],
        forall|k: int| lo <= k < p ==> final(arr)@[k] < final(arr)@[p as int],
        forall|k: int| p <= k < hi ==> final(arr)@[k] >= final(arr)@[p as int],
{
    let n = arr.len();
    let pivot = arr[hi - 1];
    let mut i: usize = lo;
    let mut j: usize = lo;
    while j < hi - 1
        invariant
            arr.len() == n,
            lo <= i <= j <= hi - 1,
            hi <= n,
            lo < hi,
            arr[hi - 1] == pivot,
            arr@.subrange(lo as int, hi as int).to_multiset() == old(arr)@.subrange(
                lo as int,
                hi as int,
            ).to_multiset(),
            arr@.subrange(0, lo as int) == old(arr)@.subrange(0, lo as int),
            arr@.subrange(hi as int, n as int) == old(arr)@.subrange(hi as int, n as int),
            forall|k: int| lo <= k < i ==> arr[k] < pivot,
            forall|k: int| i <= k < j ==> arr[k] >= pivot,
        decreases hi - 1 - j,
    {
        if arr[j] < pivot {
            let ghost pre = arr@;
            swap_in(arr, i, j);
            proof {
                lemma_swap_in_range(pre, arr@, i as int, j as int, lo as int, hi as int);
            }
            i = i + 1;
        }
        j = j + 1;
    }
    let ghost pre = arr@;
    swap_in(arr, i, hi - 1);
    proof {
        lemma_swap_in_range(pre, arr@, i as int, (hi - 1) as int, lo as int, hi as int);
    }
    i
}

/// Sorts `arr[lo..hi]` in place with quicksort, leaving the rest of the
/// vector untouched.
fn quick_sort_range(arr: &mut Vec<i32>, lo: usize, hi: usize)
    requires
        lo <= hi <= old(arr).len(),
    ensures
        final(arr).len() == old(arr).len(),
        sorted(final(arr)@.subrange(lo as int, hi as int)),
        final(arr)@.subrange(lo as int, hi as int).to_multiset() == old(arr)@.subrange(
            lo as int,
            hi as int,
        ).to_multiset(),
        final(arr)@.subrange(0, lo as int) == old(arr)@.subrange(0, lo as int),
        final(arr)@.subrange(hi as int, old(arr).len() as int) == old(arr)@.subrange(
            hi as int,
            old(arr).len() as int,
        ),
    decreases hi - lo,
{
    let n = arr.len();
    if hi - lo <= 1 {
        return ;
    }
    let p = partition(arr, lo, hi);
    let ghost after_part = arr@;
    let ghost pivot = arr@[p as int];
    quick_sort_range(arr, lo, p);
    let ghost after_first = arr@;
    quick_sort_range(arr, p + 1, hi);
    proof {
        let fin = arr@;
        let orig = old(arr)@;
        // positions from p on were untouched by the first recursive call,
        // and positions up to p by the second
        lemma_subrange_eq_pointwise(after_part, after_first, p as int, n as int);
        lemma_subrange_eq_pointwise(after_first, fin, 0, (p + 1) as int);
        assert(fin[p as int] == pivot);
        // the left part is still a rearrangement of values below the pivot
        assert(forall|t: int|
            0 <= t < p - lo ==> #[trigger] after_part.subrange(lo as int, p as int)[t] < pivot);
        lemma_permutation_keeps_upper_bound(
            after_part.subrange(lo as int, p as int),
            after_first.subrange(lo as int, p as int),
            pivot as int,
        );
        assert forall|t: int| lo <= t < p implies #[trigger] fin[t] < pivot by {
            assert(fin[t] == after_first[t]);
            assert(after_first.subrange(lo as int, p as int)[t - lo] == after_first[t]);
        }
        // the right part is still a rearrangement of values at least the pivot
        assert(forall|t: int|
            0 <= t < hi - (p + 1) ==> #[trigger] after_first.subrange((p + 1) as int, hi as int)[t]
                >= pivot);
        lemma_permutation_keeps_lower_bound(
            after_first.subrange((p + 1) as int, hi as int),
            fin.subrange((p + 1) as int, hi as int),
            pivot as int,
        );
        assert forall|t: int| p < t < hi implies #[trigger] fin[t] >= pivot by {
            assert(fin.subrange((p + 1) as int, hi as int)[t - (p + 1)] == fin[t]);
        }
        // the sorted left and right pieces, as they stand in the result
        assert(fin.subrange(lo as int, p as int) =~= after_first.subrange(lo as int, p as int));
        let leftpiece = fin.subrange(lo as int, p as int);
        let rightpiece = fin.subrange((p + 1) as int, hi as int);
        // stitch the three pieces together
        assert forall|a: int, b: int| lo <= a < b < hi implies fin[a] <= fin[b] by {
            if b < p {
                assert(fin[a] == leftpiece[a - lo] && fin[b] == leftpiece[b - lo]);
            } else if a < p && b == p {
                assert(fin[a] < pivot);
            } else if a < p {
                assert(fin[a] < pivot && fin[b] >= pivot);
            } else if a == p {
                assert(fin[b] >= pivot || b == p);
            } else {
                assert(fin[a] == rightpiece[a - (p + 1)] && fin[b] == rightpiece[b - (p + 1)]);
            }
        }
        assert(sorted(fin.subrange(lo as int, hi as int))) by {
            assert(forall|t: int|
                0 <= t < hi - lo ==> #[trigger] fin.subrange(lo as int, hi as int)[t] == fin[t
                    + lo]);
        }
        // multiset of the range is preserved across the three phases
        lemma_three_piece_multiset(after_part, after_first, lo as int, p as int, hi as int);
        lemma_three_piece_multiset_right(after_first, fin, lo as int, p as int, hi as int);
        // and the rest of the vector is untouched
        assert(fin.subrange(0, lo as int) =~= after_first.subrange(0, lo as int));
        assert(fin.subrange(hi as int, n as int) =~= after_first.subrange(hi as int, n as int))
            by {
            assert(forall|t: int|
                hi <= t < n ==> after_first[t] == #[trigger] after_first.subrange(
                    hi as int,
                    n as int,
                )[t - hi] && fin.subrange(hi as int, n as int)[t - hi] == fin[t]);
            lemma_subrange_eq_pointwise(after_first, fin, hi as int, n as int);
        }
        assert(after_first.subrange(0, lo as int) =~= after_part.subrange(0, lo as int));
        assert(after_first.subrange(hi as int, n as int) =~= after_part.subrange(hi as int, n as int))
            by {
            assert(forall|t: int|
                hi <= t < n ==> after_part[t] == #[trigger] after_part.subrange(
                    hi as int,
                    n as int,
                )[t - hi] && after_first.subrange(hi as int, n as int)[t - hi] == after_first[t]);
        }
    }
}

/// When two equally long sequences agree on a subrange, they agree at each
/// position of it.
proof fn lemma_subrange_eq_pointwise(s1: Seq<i32>, s2: Seq<i32>, lo: int, hi: int)
    requires
        0 <= lo <= hi <= s1.len(),
        s1.len() == s2.len(),
        s1.subrange(lo, hi) == s2.subrange(lo, hi),
    ensures
        forall|t: int| lo <= t < hi ==> s1[t] == s2[t],
{
    assert forall|t: int| lo <= t < hi implies s1[t] == s2[t] by {
        assert(s1.subrange(lo, hi)[t - lo] == s1[t]);
        assert(s2.subrange(lo, hi)[t - lo] == s2[t]);
        assert(s1.subrange(lo, hi)[t - lo] == s2.subrange(lo, hi)[t - lo]);
    }
}

/// Splitting `[lo, hi)` at a pivot position `p`: when the left piece is
/// permuted and everything from `p` on is unchanged, the whole range keeps
/// its multiset.
proof fn lemma_three_piece_multiset(pre: Seq<i32>, post: Seq<i32>, lo: int, p: int, hi: int)
    requires
        0 <= lo <= p < hi <= pre.len(),
        post.len() == pre.len(),
        post.subrange(lo, p).to_multiset() == pre.subrange(lo, p).to_multiset(),
        forall|t: int| p <= t < hi ==> post[t] == pre[t],
    ensures
        post.subrange(lo, hi).to_multiset() == pre.subrange(lo, hi).to_multiset(),
{
    assert(pre.subrange(lo, hi) =~= pre.subrange(lo, p) + pre.subrange(p, hi));
    assert(post.subrange(lo, hi) =~= post.subrange(lo, p) + post.subrange(p, hi));
    assert(post.subrange(p, hi) =~= pre.subrange(p, hi));
    lemma_multiset_commutative(pre.subrange(lo, p), pre.subrange(p, hi));
    lemma_multiset_commutative(post.subrange(lo, p), post.subrange(p, hi));
}

/// The mirror image: the right piece `(p, hi)` is permuted and everything
/// up to and including `p` is unchanged.
proof fn lemma_three_piece_multiset_right(pre: Seq<i32>, post: Seq<i32>, lo: int, p: int, hi: int)
    requires
        0 <= lo <= p < hi <= pre.len(),
        post.len() == pre.len(),
        post.subrange(p + 1, hi).to_multiset() == pre.subrange(p + 1, hi).to_multiset(),
        forall|t: int| lo <= t <= p ==> post[t] == pre[t],
    ensures
        post.subrange(lo, hi).to_multiset() == pre.subrange(lo, hi).to_multiset(),
{
    assert(pre.subrange(lo, hi) =~= pre.subrange(lo, p + 1) + pre.subrange(p + 1, hi));
    assert(post.subrange(lo, hi) =~= post.subrange(lo, p + 1) + post.subrange(p + 1, hi));
    assert(post.subrange(lo, p + 1) =~= pre.subrange(lo, p + 1));
    lemma_multiset_commutative(pre.subrange(lo, p + 1), pre.subrange(p + 1, hi));
    lemma_multiset_commutative(post.subrange(lo, p + 1), post.subrange(p + 1, hi));
}

/// Sorts the vector by counting how many times each value occurs and then
/// rebuilding the vector in increasing order. The elements must be
/// non-negative, since they index the counting table, and the vector
/// non-empty, since the table is sized by the maximum element.
pub fn counting_sort(arr: &mut Vec<i32>)
    requires
        old(arr).len() > 0,
        forall|k: int| 0 <= k < old(arr).len() ==> old(arr)[k] >= 0,
    ensures
        sorted(final(arr)@),
        final(arr)@.to_multiset() == old(arr)@.to_multiset(),
        final(arr).len() == old(arr).len(),
{
    broadcast use group_to_multiset_ensures;

    let n = arr.len();
    let mut max: i32 = arr[0];
    let mut t: usize = 1;
    while t < n
        invariant
            1 <= t <= n,
            max >= 0,
            forall|k: int| 0 <= k < t ==> arr[k] <= max,
        decreases n - t,
    {
        if arr[t] > max {
            max = arr[t];
        }
        t = t + 1;
    }
    let mut counts: Vec<usize> = vec![0; (max as usize) + 1];
    let mut idx: usize = 0;
    while idx < n
        invariant
            counts.len() == max + 1,
            idx <= n,
            forall|v: int|
                0 <= v <= max ==> #[trigger] counts[v] == arr@.subrange(0, idx as int).to_multiset()
                    .count(v as i32),
            forall|v: int| 0 <= v <= max ==> counts[v] <= idx,
        decreases n - idx,
    {
        let e = arr[idx] as usize;
        let c = counts[e];
        counts.set(e, c + 1);
        proof {
            assert(arr@.subrange(0, (idx + 1) as int) =~= arr@.subrange(0, idx as int).push(
                arr@[idx as int],
            ));
        }
        idx = idx + 1;
    }
    proof {
        assert(arr@.subrange(0, n as int) =~= arr@);
    }
    let mut out: Vec<i32> = Vec::new();
    let mut v: usize = 0;
    while v < counts.len()
        invariant
            counts.len() == max + 1,
            v <= counts.len(),
            sorted(out@),
            forall|k: int| 0 <= k < out.len() ==> 0 <= #[trigger] out[k] < v,
            forall|x: int|
                0 <= x < v ==> #[trigger] out@.to_multiset().count(x as i32) == counts[x],
            forall|x: int| 0 <= x <= max ==> counts[x] == arr@.to_multiset().count(x as i32),
        decreases counts.len() - v,
    {
        let c = counts[v];
        let mut r: usize = 0;
        while r < c
            invariant
                counts.len() == max + 1,
                v < counts.len(),
                r <= c,
                c == counts[v as int],
                sorted(out@),
                forall|k: int| 0 <= k < out.len() ==> 0 <= #[trigger] out[k] <= v,
                forall|x: int|
                    0 <= x < v ==> #[trigger] out@.to_multiset().count(x as i32) == counts[x],
                out@.to_multiset().count(v as i32) == r,
            decreases c - r,
        {
            out.push(v as i32);
            r = r + 1;
        }
        v = v + 1;
    }
    proof {
        assert(out@.to_multiset() =~= arr@.to_multiset()) by {
            assert forall|y: i32| out@.to_multiset().count(y) == arr@.to_multiset().count(y) by {
                if 0 <= y <= max {
                    assert(out@.to_multiset().count(y) == counts[y as int]);
                } else {
                    if out@.to_multiset().count(y) > 0 {
                        assert(out@.contains(y));
                    }
                    if arr@.to_multiset().count(y) > 0 {
                        assert(arr@.contains(y));
                    }
                }
            }
        }
        assert(out@.to_multiset().len() == arr@.to_multiset().len());
    }
    *arr = out;
}

/// Sorts the vector in place with quicksort. The result is the sorted
/// rearrangement of the input.
pub fn quick_sort(arr: &mut Vec<i32>)
    ensures
        sorted(final(arr)@),
        final(arr)@.to_multiset() == old(arr)@.to_multiset(),
        final(arr).len() == old(arr).len(),
{
    let n = arr.len();
    quick_sort_range(arr, 0, n);
    proof {
        assert(arr@.subrange(0, n as int) =~= arr@);
        assert(old(arr)@.subrange(0, n as int) =~= old(arr)@);
    }
}

/// The digit of `x` at the place `e`: ones for `e == 1`, tens for
/// `e == 10`, and so on.
pub open spec fn digit_of(x: i32, e: int) -> int {
    (x as int / e) % 10
}

/// Keeps the elements whose digit at place `e` is `d`.
pub open spec fn digit_is(d: int, e: int) -> spec_fn(i32) -> bool {
    |x: i32| digit_of(x, e) == d
}

/// Sorted when compared by remainder modulo `e`.
pub open spec fn sorted_by_rem(s: Seq<i32>, e: int) -> bool {
    forall|i: int, j: int| 0 <= i < j < s.len() ==> s[i] as int % e <= s[j] as int % e
}

/// The buckets of one radix pass, joined in digit order: the elements
/// with digit 0 first, then digit 1, and so on up to `upto`.
pub open spec fn gathered(s: Seq<i32>, e: int, upto: int) -> Seq<i32>
    decreases upto,
{
    if upto <= 0 {
        Seq::empty()
    } else {
        gathered(s, e, upto - 1) + s.filter(digit_is(upto - 1, e))
    }
}

/// Every element of a filtered sequence is an element of the original.
proof fn lemma_filter_keeps_members(s: Seq<i32>, p: spec_fn(i32) -> bool, i: int)
    requires
        0 <= i < s.filter(p).len(),
    ensures
        s.contains(s.filter(p)[i]),
        p(s.filter(p)[i]),
    decreases s.len(),
{
    reveal(Seq::filter);
    if s.len() > 0 {
        let d = s.drop_last();
        if p(s.last()) && i == s.filter(p).len() - 1 {
            assert(s.filter(p)[i] == s.last());
            assert(s[s.len() - 1] == s.last());
        } else {
            lemma_filter_keeps_members(d, p, i);
            let j = choose|j: int| 0 <= j < d.len() && d[j] == d.filter(p)[i];
            assert(s[j] == d.filter(p)[i]);
        }
    }
}

/// Filtering a sequence that is sorted by remainder keeps it sorted by
/// remainder.
proof fn lemma_filter_keeps_rem_order(s: Seq<i32>, p: spec_fn(i32) -> bool, e: int)
    requires
        sorted_by_rem(s, e),
    ensures
        sorted_by_rem(s.filter(p), e),
    decreases s.len(),
{
    reveal(Seq::filter);
    if s.len() > 0 {
        let d = s.drop_last();
        assert(sorted_by_rem(d, e)) by {
            assert(forall|k: int| 0 <= k < d.len() ==> #[trigger] d[k] == s[k]);
        }
        lemma_filter_keeps_rem_order(d, p, e);
        if p(s.last()) {
            assert forall|i: int, j: int|
                0 <= i < j < s.filter(p).len() implies s.filter(p)[i] as int % e <= s.filter(
                p,
            )[j] as int % e by {
                if j == s.filter(p).len() - 1 {
                    assert(s.filter(p)[j] == s.last());
                    lemma_filter_keeps_members(d, p, i);
                    let m = choose|m: int| 0 <= m < d.len() && d[m] == d.filter(p)[i];
                    assert(s[m] == s.filter(p)[i]);
                    assert(s[m] as int % e <= s.last() as int % e);
                } else {
                    assert(s.filter(p)[i] == d.filter(p)[i] && s.filter(p)[j] == d.filter(p)[j]);
                }
            }
        }
    }
}

/// Joining the buckets of one pass in digit order keeps the elements: the
/// digits partition the sequence.
proof fn lemma_digit_partition(s: Seq<i32>, e: int)
    requires
        e >= 1,
        forall|k: int| 0 <= k < s.len() ==> #[trigger] s[k] >= 0,
    ensures
        gathered(s, e, 10).to_multiset() == s.to_multiset(),
    decreases s.len(),
{
    broadcast use group_to_multiset_ensures;

    if s.len() == 0 {
        assert forall|u: int| 0 <= u <= 10 implies gathered(s, e, u) =~= Seq::<i32>::empty() by {
            lemma_gathered_empty(s, e, u);
        }
        assert(gathered(s, e, 10).to_multiset() =~= s.to_multiset());
    } else {
        let d = s.drop_last();
        let x = s.last();
        assert(forall|k: int| 0 <= k < d.len() ==> #[trigger] d[k] == s[k]);
        lemma_digit_partition(d, e);
        assert(0 <= digit_of(x, e) < 10) by (nonlinear_arith)
            requires
                e >= 1,
                x >= 0,
        ;
        lemma_gathered_step(s, d, e, 10);
        assert(s =~= d.push(x));
        assert(s.to_multiset() == d.to_multiset().insert(x));
    }
}

/// A gather of the empty sequence is empty.
proof fn lemma_gathered_empty(s: Seq<i32>, e: int, upto: int)
    requires
        s.len() == 0,
    ensures
        gathered(s, e, upto).len() == 0,
    decreases upto,
{
    reveal(Seq::filter);
    if upto > 0 {
        lemma_gathered_empty(s, e, upto - 1);
    }
}

/// Appending one element to the input adds it to exactly one bucket of
/// the gather: multisets grow by exactly that element once its digit is
/// below `upto`, and not at all before that.
proof fn lemma_gathered_step(s: Seq<i32>, d: Seq<i32>, e: int, upto: int)
    requires
        s.len() == d.len() + 1,
        d == s.drop_last(),
        0 <= upto <= 10,
    ensures
        digit_of(s.last(), e) < upto ==> gathered(s, e, upto).to_multiset() == gathered(
            d,
            e,
            upto,
        ).to_multiset().insert(s.last()),
        digit_of(s.last(), e) >= upto ==> gathered(s, e, upto).to_multiset() == gathered(
            d,
            e,
            upto,
        ).to_multiset(),
    decreases upto,
{
    broadcast use group_to_multiset_ensures;

    reveal(Seq::filter);
    if upto > 0 {
        lemma_gathered_step(s, d, e, upto - 1);
        let p = digit_is(upto - 1, e);
        assert(s.filter(p) == if p(s.last()) {
            d.filter(p).push(s.last())
        } else {
            d.filter(p)
        });
        lemma_multiset_commutative(gathered(s, e, upto - 1), s.filter(p));
        lemma_multiset_commutative(gathered(d, e, upto - 1), d.filter(p));
        if p(s.last()) {
            assert(s.filter(p).to_multiset() == d.filter(p).to_multiset().insert(s.last()));
            assert(gathered(s, e, upto).to_multiset() =~= gathered(d, e, upto).to_multiset().insert(
                s.last(),
            ));
        } else {
            if digit_of(s.last(), e) < upto - 1 {
                assert(gathered(s, e, upto).to_multiset() =~= gathered(
                    d,
                    e,
                    upto,
                ).to_multiset().insert(s.last()));
            } else {
                assert(gathered(s, e, upto).to_multiset() =~= gathered(d, e, upto).to_multiset());
            }
        }
    }
}

/// Every element of a gather up to `upto` lies in the input and has a
/// digit below `upto`.
proof fn lemma_gathered_members(s: Seq<i32>, e: int, upto: int, i: int)
    requires
        0 <= upto <= 10,
        0 <= i < gathered(s, e, upto).len(),
    ensures
        s.contains(gathered(s, e, upto)[i]),
        0 <= digit_of(gathered(s, e, upto)[i], e) < upto,
    decreases upto,
{
    if upto > 0 {
        let a = gathered(s, e, upto - 1);
        let b = s.filter(digit_is(upto - 1, e));
        if i < a.len() {
            lemma_gathered_members(s, e, upto - 1, i);
            assert(gathered(s, e, upto)[i] == a[i]);
        } else {
            lemma_filter_keeps_members(s, digit_is(upto - 1, e), i - a.len());
            assert(gathered(s, e, upto)[i] == b[i - a.len()]);
        }
    }
}

/// The gather of a pass is sorted by remainder modulo `e * 10`: the
/// buckets come out in digit order, and each bucket keeps the order by
/// remainder modulo `e` that the input already had.
proof fn lemma_gathered_sorted(s: Seq<i32>, e: int, upto: int)
    requires
        e >= 1,
        0 <= upto <= 10,
        sorted_by_rem(s, e),
        forall|k: int| 0 <= k < s.len() ==> #[trigger] s[k] >= 0,
    ensures
        sorted_by_rem(gathered(s, e, upto), e * 10),
    decreases upto,
{
    if upto > 0 {
        lemma_gathered_sorted(s, e, upto - 1);
        let a = gathered(s, e, upto - 1);
        let p = digit_is(upto - 1, e);
        let b = s.filter(p);
        lemma_filter_keeps_rem_order(s, p, e);
        assert forall|i: int, j: int|
            0 <= i < j < gathered(s, e, upto).len() implies gathered(s, e, upto)[i] as int % (e
            * 10) <= gathered(s, e, upto)[j] as int % (e * 10) by {
            let gi = gathered(s, e, upto)[i];
            let gj = gathered(s, e, upto)[j];
            lemma_gathered_members(s, e, upto, i);
            lemma_gathered_members(s, e, upto, j);
            let ii = choose|m: int| 0 <= m < s.len() && s[m] == gi;
            let jj = choose|m: int| 0 <= m < s.len() && s[m] == gj;
            assert(gi >= 0 && gj >= 0);
            vstd::arithmetic::div_mod::lemma_breakdown(gi as int, e, 10);
            vstd::arithmetic::div_mod::lemma_breakdown(gj as int, e, 10);
            if j < a.len() {
                assert(gathered(s, e, upto)[i] == a[i] && gathered(s, e, upto)[j] == a[j]);
            } else if i >= a.len() {
                assert(gi == b[i - a.len()] && gj == b[j - a.len()]);
                lemma_filter_keeps_members(s, p, i - a.len());
                lemma_filter_keeps_members(s, p, j - a.len());
                assert(gi as int % e <= gj as int % e);
                assert(digit_of(gi, e) == digit_of(gj, e));
            } else {
                assert(gi == a[i] && gj == b[j - a.len()]);
                lemma_gathered_members(s, e, upto - 1, i);
                lemma_filter_keeps_members(s, p, j - a.len());
                assert(digit_of(gi, e) < upto - 1 && digit_of(gj, e) == upto - 1);
                assert(0 <= gi as int % e < e && 0 <= gj as int % e < e);
                assert(e * digit_of(gi, e) + e <= e * digit_of(gj, e)) by (nonlinear_arith)
                    requires
                        e >= 1,
                        digit_of(gi, e) < digit_of(gj, e),
                ;
            }
        }
    }
}

/// Sorts the vector by scattering the elements into ten buckets by each
/// digit in turn, least significant first, and gathering the buckets back
/// in digit order; the stable passes leave the vector sorted. The
/// elements must be non-negative (digits are taken in base ten) and the
/// vector non-empty (the pass count comes from the maximum element).
#[verifier::rlimit(100)]
pub fn radix_sort(arr: &mut Vec<i32>)
    requires
        old(arr).len() > 0,
        forall|k: int| 0 <= k < old(arr).len() ==> old(arr)[k] >= 0,
    ensures
        sorted(final(arr)@),
        final(arr)@.to_multiset() == old(arr)@.to_multiset(),
        final(arr).len() == old(arr).len(),
{
    broadcast use group_to_multiset_ensures;

    let n = arr.len();
    let mut max: i32 = arr[0];
    let mut t: usize = 1;
    while t < n
        invariant
            1 <= t <= n,
            max >= 0,
            forall|k: int| 0 <= k < t ==> arr[k] <= max,
        decreases n - t,
    {
        if arr[t] > max {
            max = arr[t];
        }
        t = t + 1;
    }
    let mut exp: i64 = 1;
    proof {
        assert(sorted_by_rem(arr@, 1int)) by {
            assert forall|i: int, j: int|
                0 <= i < j < arr@.len() implies arr@[i] as int % 1int <= arr@[j] as int % 1int by {
                assert(arr@[i] as int % 1int == 0) by (nonlinear_arith)
                    requires
                        arr@[i] >= 0,
                ;
                assert(arr@[j] as int % 1int == 0) by (nonlinear_arith)
                    requires
                        arr@[j] >= 0,
                ;
            }
        }
    }
    while (max as i64) / exp > 0
        invariant
            arr.len() == n,
            n > 0,
            max >= 0,
            1 <= exp,
            exp <= (max as i64) * 10 || exp == 1,
            arr@.to_multiset() == old(arr)@.to_multiset(),
            forall|k: int| 0 <= k < n ==> #[trigger] arr@[k] >= 0,
            forall|k: int| 0 <= k < n ==> #[trigger] arr@[k] <= max,
            sorted_by_rem(arr@, exp as int),
        decreases (max as int) / (exp as int),
    {
        let ghost pre = arr@;
        let mut buckets: Vec<Vec<i32>> = Vec::new();
        let mut bi: usize = 0;
        while bi < 10
            invariant
                buckets@.len() == bi,
                bi <= 10,
                forall|d: int| 0 <= d < bi ==> (#[trigger] buckets@[d])@.len() == 0,
            decreases 10 - bi,
        {
            buckets.push(Vec::new());
            bi = bi + 1;
        }
        proof {
            reveal(Seq::filter);
            assert forall|d: int| 0 <= d < 10 implies (#[trigger] buckets@[d])@ =~= pre.take(
                0,
            ).filter(digit_is(d, exp as int)) by {
                assert(pre.take(0) =~= Seq::<i32>::empty());
            }
        }
        let mut i: usize = 0;
        while i < n
            invariant
                arr.len() == n,
                arr@ == pre,
                i <= n,
                1 <= exp,
                buckets@.len() == 10,
                forall|k: int| 0 <= k < n ==> #[trigger] arr@[k] >= 0,
                forall|d: int|
                    0 <= d < 10 ==> (#[trigger] buckets@[d])@ == pre.take(i as int).filter(
                        digit_is(d, exp as int),
                    ),
            decreases n - i,
        {
            let num = arr[i];
            let digit = ((num as i64) / exp) % 10;
            proof {
                assert(0 <= digit < 10 && digit == digit_of(num, exp as int)) by (nonlinear_arith)
                    requires
                        exp >= 1,
                        num >= 0,
                        digit == ((num as i64) / exp) % 10,
                ;
            }
            let ghost bviews = buckets@;
            let bucket = &mut buckets[digit as usize];
            bucket.push(num);
            proof {
                reveal(Seq::filter);
                assert(buckets@ =~= bviews.update(
                    digit as int,
                    buckets@[digit as int],
                ));
                assert forall|d: int| 0 <= d < 10 implies (#[trigger] buckets@[d])@ =~= pre.take(
                    i + 1,
                ).filter(digit_is(d, exp as int)) by {
                    assert(pre.take(i + 1).drop_last() =~= pre.take(i as int));
                    assert(pre.take(i + 1).last() == pre[i as int]);
                    if d == digit {
                        assert(buckets@[d]@ =~= bviews[d]@.push(num));
                    } else {
                        assert(buckets@[d]@ =~= bviews[d]@);
                    }
                }
            }
            i = i + 1;
        }
        proof {
            assert(pre.take(n as int) =~= pre);
        }
        let mut out: Vec<i32> = Vec::new();
        let mut d: usize = 0;
        while d < 10
            invariant
                d <= 10,
                1 <= exp,
                buckets@.len() == 10,
                forall|d2: int|
                    0 <= d2 < 10 ==> (#[trigger] buckets@[d2])@ == pre.filter(
                        digit_is(d2, exp as int),
                    ),
                out@ == gathered(pre, exp as int, d as int),
            decreases 10 - d,
        {
            let bucket = &buckets[d];
            let mut k: usize = 0;
            while k < bucket.len()
                invariant
                    k <= bucket@.len(),
                    buckets@.len() == 10,
                    d < 10,
                    bucket@ == buckets@[d as int]@,
                    bucket@ == pre.filter(digit_is(d as int, exp as int)),
                    out@ == gathered(pre, exp as int, d as int) + bucket@.take(k as int),
                decreases bucket@.len() - k,
            {
                out.push(bucket[k]);
                proof {
                    assert(out@ =~= gathered(pre, exp as int, d as int) + bucket@.take(k + 1));
                }
                k = k + 1;
            }
            proof {
                assert(bucket@.take(bucket@.len() as int) =~= bucket@);
                assert(out@ =~= gathered(pre, exp as int, d + 1));
            }
            d = d + 1;
        }
        proof {
            lemma_digit_partition(pre, exp as int);
            lemma_gathered_sorted(pre, exp as int, 10);
            assert(out@.to_multiset() == pre.to_multiset());
            assert(out@.to_multiset().len() == pre.to_multiset().len());
            lemma_permutation_keeps_lower_bound(pre, out@, 0);
            lemma_permutation_keeps_upper_bound(pre, out@, max as int + 1);
        }
        *arr = out;
        proof {
            assert((max as int) / ((exp * 10) as int) < (max as int) / (exp as int) && (max as int)
                / ((exp * 10) as int) >= 0) by (nonlinear_arith)
                requires
                    exp >= 1,
                    max >= 0,
                    (max as i64) / exp > 0,
            ;
            assert(exp * 10 <= (max as i64) * 10) by (nonlinear_arith)
                requires
                    exp >= 1,
                    max >= 0,
                    (max as i64) / exp > 0,
            ;
        }
        exp = exp * 10;
    }
    proof {
        assert forall|i: int, j: int| 0 <= i < j < arr@.len() implies arr@[i] <= arr@[j] by {
            assert(arr@[i] as int % (exp as int) <= arr@[j] as int % (exp as int));
            assert(arr@[i] as int % (exp as int) == arr@[i] && arr@[j] as int % (exp as int)
                == arr@[j]) by (nonlinear_arith)
                requires
                    exp >= 1,
                    arr@[i] >= 0,
                    arr@[j] >= 0,
                    arr@[i] <= max,
                    arr@[j] <= max,
                    (max as i64) / exp <= 0,
            ;
        }
    }
}

/// Sorts the values held by a heap: ascending for a max-heap, descending
/// for a min-heap. The values are kept, only rearranged, and the heap's
/// polarity flag is untouched.
#[verifier::rlimit(80)]
pub fn heap_sort(heap: &mut Heap)
    requires
        old(heap).values.len() >= 1,
        old(heap).values.len() < usize::MAX / 2,
    ensures
        final(heap).values.len() == old(heap).values.len(),
        final(heap).is_max_heap == old(heap).is_max_heap,
        final(heap).values@.to_multiset() == old(heap).values@.to_multiset(),
        old(heap).is_max_heap ==> sorted(final(heap).values@),
        !old(heap).is_max_heap ==> sorted_desc(final(heap).values@),
{
    heap.build_heap();
    let n = heap.values.len();
    let mut considered: usize = n;
    while considered > 1
        invariant
            heap.values.len() == n,
            1 <= considered <= n,
            heap.is_max_heap == old(heap).is_max_heap,
            heap.values@.to_multiset() == old(heap).values@.to_multiset(),
            is_heap_upto(heap.values@, heap.is_max_heap, considered as int),
            forall|a: int, b: int|
                considered <= a < b < n ==> heap_le(
                    heap.is_max_heap,
                    #[trigger] heap.values@[b],
                    #[trigger] heap.values@[a],
                ),
            forall|a: int, b: int|
                0 <= a < considered && considered <= b < n ==> heap_le(
                    heap.is_max_heap,
                    #[trigger] heap.values@[b],
                    #[trigger] heap.values@[a],
                ),
        decreases considered,
    {
        let ghost pre = heap.values@;
        let ghost is_max = heap.is_max_heap;
        let ghost bound = considered as int;
        proof {
            // the root dominates the whole heap region
            assert forall|k: int| 0 <= k < bound implies heap_le(is_max, pre[0], pre[k]) by {
                lemma_root_subtree(k);
                assert forall|c: int|
                    1 <= c < bound && in_subtree(0, c) && c != 0 implies heap_le(
                    is_max,
                    pre[(c - 1) / 2],
                    #[trigger] pre[c],
                ) by {}
                lemma_heap_root_dominates(pre, is_max, bound, 0, k);
            }
        }
        heap.swap_values(0, considered - 1);
        considered = considered - 1;
        let ghost mid = heap.values@;
        proof {
            // the swap moved the dominant value to the end of the region;
            // the remaining prefix is a heap everywhere except at its root
            assert forall|c: int|
                1 <= c < considered && in_subtree(0, (c - 1) / 2) && (c - 1) / 2 != 0 implies
                heap_le(is_max, mid[(c - 1) / 2], #[trigger] mid[c]) by {
                assert(mid[(c - 1) / 2] == pre[(c - 1) / 2] && mid[c] == pre[c]);
            }
        }
        heap.sift_down(0, considered);
        proof {
            let fin = heap.values@;
            let cons = considered as int;
            // the prefix is a heap again
            assert forall|c: int| 1 <= c < cons implies heap_le(
                is_max,
                fin[(c - 1) / 2],
                #[trigger] fin[c],
            ) by {
                lemma_root_subtree((c - 1) / 2);
            }
            // the suffix was out of the sift's reach
            assert forall|k: int| cons <= k < n implies #[trigger] fin[k] == mid[k] by {}
            // every prefix slot still holds a value from the old heap region
            assert forall|a: int, b: int|
                0 <= a < cons && cons <= b < n implies heap_le(
                is_max,
                #[trigger] fin[b],
                #[trigger] fin[a],
            ) by {
                lemma_root_subtree(a);
                assert(exists|m: int| 0 <= m < cons && in_subtree(0, m) && fin[a] == mid[m]);
                let m = choose|m: int| 0 <= m < cons && in_subtree(0, m) && fin[a] == mid[m];
                if m == 0 {
                    assert(fin[a] == pre[cons]);
                } else {
                    assert(fin[a] == pre[m]);
                }
                if b == cons {
                    assert(fin[b] == pre[0]);
                } else {
                    assert(fin[b] == pre[b]);
                    assert(heap_le(is_max, pre[b], pre[0]));
                }
            }
            assert forall|a: int, b: int|
                cons <= a < b < n implies heap_le(is_max, #[trigger] fin[b], #[trigger] fin[a]) by {
                if a == cons {
                    assert(fin[a] == mid[a] && mid[a] == pre[0]);
                    assert(fin[b] == pre[b]);
                    assert(heap_le(is_max, pre[b], pre[0]));
                } else {
                    assert(fin[a] == pre[a] && fin[b] == pre[b]);
                }
            }
        }
    }
    proof {
        let fin = heap.values@;
        assert forall|i: int, j: int| 0 <= i < j < n implies heap_le(
            heap.is_max_heap,
            #[trigger] fin[j],
            #[trigger] fin[i],
        ) by {
            if i >= 1 {
                assert(heap_le(heap.is_max_heap, fin[j], fin[i]));
            }
        }
    }
}

} // verus!
