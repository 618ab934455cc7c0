use vstd::prelude::*;
use vstd::pervasive::VecAdditionalExecFns;
use vstd::seq_lib::group_to_multiset_ensures;

verus! {

/// Parent-dominance: in a max-heap a parent must be at least its child,
/// in a min-heap at most.
pub open spec fn heap_le(is_max: bool, parent: i32, child: i32) -> bool {
    if is_max {
        parent >= child
    } else {
        parent <= child
    }
}

/// The heap shape on the first `len` slots: every parent dominates its
/// children.
pub open spec fn is_heap_upto(s: Seq<i32>, is_max: bool, len: int) -> bool {
    forall|c: int| 1 <= c < len ==> heap_le(is_max, s[(c - 1) / 2], #[trigger] s[c])
}

/// Position `i` lies in the subtree rooted at position `root` of the
/// implicit binary tree laid out in the array.
pub open spec fn in_subtree(root: int, i: int) -> bool
    decreases (if i >= root { i - root } else { 0 }),
{
    i == root || (i > root && root >= 0 && in_subtree(root, (i - 1) / 2))
}

/// Subtree membership is transitive.
pub proof fn lemma_subtree_trans(a: int, b: int, c: int)
    requires
        in_subtree(a, b),
        in_subtree(b, c),
    ensures
        in_subtree(a, c),
    decreases (if c >= b { c - b } else { 0 }),
{
    if c != b {
        lemma_subtree_trans(a, b, (c - 1) / 2);
    }
}

/// Every non-negative position is in the subtree rooted at 0.
pub proof fn lemma_root_subtree(i: int)
    requires
        i >= 0,
    ensures
        in_subtree(0, i),
    decreases i,
{
    if i > 0 {
        lemma_root_subtree((i - 1) / 2);
    }
}

/// In a region that satisfies the heap shape below `root`, the root
/// dominates every member of its subtree.
pub proof fn lemma_heap_root_dominates(s: Seq<i32>, is_max: bool, len: int, root: int, c: int)
    requires
        0 <= root < len <= s.len(),
        0 <= c < len,
        in_subtree(root, c),
        forall|k: int|
            1 <= k < len && in_subtree(root, k) && k != root ==> heap_le(
                is_max,
                s[(k - 1) / 2],
                #[trigger] s[k],
            ),
    ensures
        heap_le(is_max, s[root], s[c]),
    decreases (if c >= root { c - root } else { 0 }),
{
    if c != root {
        lemma_heap_root_dominates(s, is_max, len, root, (c - 1) / 2);
    }
}

/// Combines a sift-down step: after swapping the root of the subtree at
/// `idx` with its dominant child `target` (giving `mid`) and restoring the
/// heap shape in the subtree at `target` (giving `fin`), the whole subtree
/// at `idx` has the heap shape, holds only values that stood in it before,
/// and nothing outside it has moved.
#[verifier::rlimit(80)]
proof fn lemma_sift_down_combine(
    pre: Seq<i32>,
    mid: Seq<i32>,
    fin: Seq<i32>,
    is_max: bool,
    idx: int,
    target: int,
    len: int,
)
    requires
        0 <= idx < target < len <= pre.len(),
        (target - 1) / 2 == idx,
        mid == pre.update(idx, pre[target]).update(target, pre[idx]),
        fin.len() == mid.len(),
        forall|c: int|
            1 <= c < len && in_subtree(idx, (c - 1) / 2) && (c - 1) / 2 != idx ==> heap_le(
                is_max,
                pre[(c - 1) / 2],
                #[trigger] pre[c],
            ),
        heap_le(is_max, pre[target], pre[idx]),
        forall|c: int|
            1 <= c < len && (c - 1) / 2 == idx ==> heap_le(is_max, pre[target], #[trigger] pre[c]),
        forall|k: int|
            0 <= k < mid.len() && !(in_subtree(target, k) && k < len) ==> #[trigger] fin[k]
                == mid[k],
        forall|c: int|
            1 <= c < len && in_subtree(target, (c - 1) / 2) ==> heap_le(
                is_max,
                fin[(c - 1) / 2],
                #[trigger] fin[c],
            ),
        forall|k: int|
            0 <= k < len && in_subtree(target, k) ==> exists|m: int|
                0 <= m < len && in_subtree(target, m) && fin[k] == mid[m],
    ensures
        forall|k: int|
            0 <= k < pre.len() && !(in_subtree(idx, k) && k < len) ==> #[trigger] fin[k] == pre[k],
        forall|c: int|
            1 <= c < len && in_subtree(idx, (c - 1) / 2) ==> heap_le(
                is_max,
                fin[(c - 1) / 2],
                #[trigger] fin[c],
            ),
        forall|k: int|
            0 <= k < len && in_subtree(idx, k) ==> exists|m: int|
                0 <= m < len && in_subtree(idx, m) && fin[k] == pre[m],
{
    assert(in_subtree(idx, idx));
    assert(in_subtree(idx, target));
    assert(in_subtree(target, target));
    assert(!in_subtree(target, idx));
    assert(fin[idx] == mid[idx]);
    // the subtree at `target`, before the swap, had the full heap shape
    assert forall|k: int|
        1 <= k < len && in_subtree(target, k) && k != target implies heap_le(
        is_max,
        pre[(k - 1) / 2],
        #[trigger] pre[k],
    ) by {
        lemma_subtree_trans(idx, target, (k - 1) / 2);
    }
    // nothing outside the subtree at `idx` has moved
    assert forall|k: int|
        0 <= k < pre.len() && !(in_subtree(idx, k) && k < len) implies #[trigger] fin[k]
            == pre[k] by {
        if in_subtree(target, k) && k < len {
            lemma_subtree_trans(idx, target, k);
        }
        assert(fin[k] == mid[k]);
        assert(k != idx && k != target);
    }
    // dominance pairs: at the root and inside the child subtree
    assert forall|c: int|
        1 <= c < len && in_subtree(idx, (c - 1) / 2) implies heap_le(
        is_max,
        fin[(c - 1) / 2],
        #[trigger] fin[c],
    ) by {
        let p = (c - 1) / 2;
        if in_subtree(target, p) {
            // covered by the restored subtree
        } else if p == idx {
            if c == target {
                assert(exists|m: int| 0 <= m < len && in_subtree(target, m) && fin[c] == mid[m]);
                let m = choose|m: int| 0 <= m < len && in_subtree(target, m) && fin[c] == mid[m];
                if m == target {
                    assert(fin[c] == pre[idx]);
                } else {
                    lemma_heap_root_dominates(pre, is_max, len, target, m);
                    assert(mid[m] == pre[m]);
                }
            } else {
                assert(!in_subtree(target, c)) by {
                    if in_subtree(target, c) {
                        assert(c != target);
                        assert(in_subtree(target, idx));
                        assert(!in_subtree(target, idx));
                    }
                }
                assert(fin[c] == mid[c] && mid[c] == pre[c]);
            }
        } else {
            // a pair entirely outside the child subtree is untouched
            assert(in_subtree(idx, c)) by {
                assert(in_subtree(idx, p));
            }
            assert(!in_subtree(target, c)) by {
                if in_subtree(target, c) {
                    assert(c != target);
                }
            }
            assert(p != idx && p != target && c != idx && c != target);
            assert(fin[p] == pre[p] && fin[c] == pre[c]);
        }
    }
    // each subtree slot holds one of the old subtree values
    assert forall|k: int| 0 <= k < len && in_subtree(idx, k) implies exists|m: int|
        0 <= m < len && in_subtree(idx, m) && fin[k] == pre[m] by {
        if in_subtree(target, k) {
            let m = choose|m: int| 0 <= m < len && in_subtree(target, m) && fin[k] == mid[m];
            lemma_subtree_trans(idx, target, m);
            if m == target {
                assert(fin[k] == pre[idx]);
            } else {
                assert(fin[k] == pre[m]);
            }
        } else if k == idx {
            assert(fin[k] == pre[target]);
        } else {
            assert(fin[k] == mid[k] && mid[k] == pre[k]);
        }
    }
}

/// A binary heap over 32-bit integers, laid out in an array, either as a
/// max-heap or a min-heap.
pub struct Heap {
    /// The values stored in the heap.
    pub values: Vec<i32>,
    /// Whether this is a max-heap (`true`) or a min-heap (`false`).
    pub is_max_heap: bool,
}

impl Heap {
    /// Creates a new, empty heap of the requested polarity.
    pub fn new(is_max_heap: bool) -> (r: Self)
        ensures
            r.values@ == Seq::<i32>::empty(),
            r.is_max_heap == is_max_heap,
    {
        Heap { values: Vec::new(), is_max_heap }
    }

    /// Exchanges the values at positions `i` and `j`.
    pub(crate) fn swap_values(&mut self, i: usize, j: usize)
        requires
            i < old(self).values.len(),
            j < old(self).values.len(),
        ensures
            final(self).values@ == old(self).values@.update(i as int, old(self).values@[j as int])
                .update(j as int, old(self).values@[i as int]),
            final(self).values@.to_multiset() == old(self).values@.to_multiset(),
            final(self).values.len() == old(self).values.len(),
            final(self).is_max_heap == old(self).is_max_heap,
    {
        proof {
            broadcast use vstd::seq_lib::to_multiset_update;
            broadcast use group_to_multiset_ensures;

        }
        let x = self.values[i];
        let y = self.values[j];
        self.values.set(i, y);
        self.values.set(j, x);
        proof {
            assert(self.values@.to_multiset() =~= old(self).values@.to_multiset());
        }
    }

    /// Restores the heap shape in the subtree at `index`, assuming both of
    /// its child subtrees already have it: the value at `index` sinks until
    /// it dominates its children. Only the first `len` slots take part;
    /// positions outside the subtree, and at `len` and beyond, are
    /// untouched, and each value in the subtree afterwards is one of the
    /// values that stood in the subtree before.
    #[verifier::rlimit(80)]
    pub fn sift_down(&mut self, index: usize, len: usize)
        requires
            index <= old(self).values.len(),
            len <= old(self).values.len(),
            old(self).values.len() < usize::MAX / 2,
            forall|c: int|
                1 <= c < len && in_subtree(index as int, (c - 1) / 2) && (c - 1) / 2 != index
                    ==> heap_le(
                    old(self).is_max_heap,
                    old(self).values@[(c - 1) / 2],
                    #[trigger] old(self).values@[c],
                ),
        ensures
            final(self).values.len() == old(self).values.len(),
            final(self).is_max_heap == old(self).is_max_heap,
            final(self).values@.to_multiset() == old(self).values@.to_multiset(),
            forall|k: int|
                0 <= k < old(self).values.len() && !(in_subtree(index as int, k) && k < len)
                    ==> (#[trigger] final(self).values@[k]) == old(self).values@[k],
            forall|c: int|
                1 <= c < len && in_subtree(index as int, (c - 1) / 2) ==> heap_le(
                    final(self).is_max_heap,
                    final(self).values@[(c - 1) / 2],
                    #[trigger] final(self).values@[c],
                ),
            forall|k: int|
                0 <= k < len && in_subtree(index as int, k) ==> exists|m: int|
                    0 <= m < len && in_subtree(index as int, m) && final(self).values@[k] == old(
                        self,
                    ).values@[m],
        decreases len - index,
    {
        let left_child = 2 * index + 1;
        let right_child = 2 * index + 2;
        let mut largest_or_smallest = index;

        if left_child < len {
            let compare_result = if self.is_max_heap {
                self.values[left_child] > self.values[largest_or_smallest]
            } else {
                self.values[left_child] < self.values[largest_or_smallest]
            };
            if compare_result {
                largest_or_smallest = left_child;
            }
        }
        if right_child < len {
            let compare_result = if self.is_max_heap {
                self.values[right_child] > self.values[largest_or_smallest]
            } else {
                self.values[right_child] < self.values[largest_or_smallest]
            };
            if compare_result {
                largest_or_smallest = right_child;
            }
        }

        if largest_or_smallest != index {
            let ghost pre = self.values@;
            let ghost target = largest_or_smallest as int;
            let ghost idx = index as int;
            proof {
                assert(in_subtree(idx, idx));
                assert((target - 1) / 2 == idx);
                assert(in_subtree(idx, target));
            }
            self.swap_values(index, largest_or_smallest);
            let ghost mid = self.values@;
            proof {
                // after the swap, the subtree at the chosen child is a heap
                // except possibly at its own root
                assert forall|c: int|
                    1 <= c < len && in_subtree(target, (c - 1) / 2) && (c - 1) / 2
                        != target implies heap_le(
                    self.is_max_heap,
                    mid[(c - 1) / 2],
                    #[trigger] mid[c],
                ) by {
                    let p = (c - 1) / 2;
                    lemma_subtree_trans(idx, target, p);
                    assert(p != idx);
                    assert(c != idx && c != target);
                    assert(mid[p] == pre[p] && mid[c] == pre[c]);
                }
            }
            self.sift_down(largest_or_smallest, len);
            proof {
                lemma_sift_down_combine(
                    pre,
                    mid,
                    self.values@,
                    self.is_max_heap,
                    idx,
                    target,
                    len as int,
                );
            }
        }
    }

    /// Reorders the stored values so that the whole array has the heap
    /// shape, working upwards from the last parent. The values themselves
    /// are kept, only rearranged.
    pub fn build_heap(&mut self)
        requires
            old(self).values.len() >= 1,
            old(self).values.len() < usize::MAX / 2,
        ensures
            final(self).values.len() == old(self).values.len(),
            final(self).is_max_heap == old(self).is_max_heap,
            final(self).values@.to_multiset() == old(self).values@.to_multiset(),
            is_heap_upto(final(self).values@, final(self).is_max_heap, final(self).values.len() as int),
    {
        let len = self.values.len();
        let mut i: usize = len - 1;
        while i > 0
            invariant
                self.values.len() == len,
                i < len,
                self.is_max_heap == old(self).is_max_heap,
                self.values@.to_multiset() == old(self).values@.to_multiset(),
                forall|c: int|
                    1 <= c < len && (c - 1) / 2 >= i ==> heap_le(
                        self.is_max_heap,
                        self.values@[(c - 1) / 2],
                        #[trigger] self.values@[c],
                    ),
            decreases i,
        {
            i = i - 1;
            let ghost pre = self.values@;
            proof {
                assert forall|c: int|
                    1 <= c < len && in_subtree(i as int, (c - 1) / 2) && (c - 1) / 2
                        != i implies heap_le(self.is_max_heap, pre[(c - 1) / 2], #[trigger] pre[c])
                    by {
                    assert((c - 1) / 2 >= i);
                }
            }
            self.sift_down(i, len);
            proof {
                assert forall|c: int|
                    1 <= c < len && (c - 1) / 2 >= i implies heap_le(
                    self.is_max_heap,
                    self.values@[(c - 1) / 2],
                    #[trigger] self.values@[c],
                ) by {
                    let p = (c - 1) / 2;
                    if !in_subtree(i as int, p) {
                        if in_subtree(i as int, c) {
                            assert(c != i as int);
                            assert(in_subtree(i as int, p));
                        }
                        assert(self.values@[p] == pre[p] && self.values@[c] == pre[c]);
                    }
                }
            }
        }
    }

    /// Adds a value to the heap, keeping the heap shape.
    pub fn insert(&mut self, value: i32)
        requires
            is_heap_upto(old(self).values@, old(self).is_max_heap, old(self).values.len() as int),
            old(self).values.len() < usize::MAX / 2,
        ensures
            final(self).values.len() == old(self).values.len() + 1,
            final(self).is_max_heap == old(self).is_max_heap,
            final(self).values@.to_multiset() == old(self).values@.to_multiset().insert(value),
            is_heap_upto(final(self).values@, final(self).is_max_heap, final(self).values.len() as int),
    {
        proof {
            broadcast use group_to_multiset_ensures;

        }
        self.values.push(value);
        let last = self.values.len() - 1;
        self.sift_up(last);
    }

    /// Lets the value at `index` rise until its parent dominates it. On
    /// entry the array must have the heap shape everywhere except possibly
    /// at the pair (parent of `index`, `index`); in exchange, the parent of
    /// `index` must already dominate the children of `index`.
    fn sift_up(&mut self, index: usize)
        requires
            index < old(self).values.len(),
            forall|c: int|
                1 <= c < old(self).values.len() && c != index ==> heap_le(
                    old(self).is_max_heap,
                    old(self).values@[(c - 1) / 2],
                    #[trigger] old(self).values@[c],
                ),
            forall|c: int|
                1 <= c < old(self).values.len() && index >= 1 && (c - 1) / 2 == index ==> heap_le(
                    old(self).is_max_heap,
                    old(self).values@[(index - 1) as int / 2],
                    #[trigger] old(self).values@[c],
                ),
        ensures
            final(self).values.len() == old(self).values.len(),
            final(self).is_max_heap == old(self).is_max_heap,
            final(self).values@.to_multiset() == old(self).values@.to_multiset(),
            is_heap_upto(final(self).values@, final(self).is_max_heap, final(self).values.len() as int),
        decreases index,
    {
        if index == 0 {
            return ;
        }
        let parent = (index - 1) / 2;
        let compare_result = if self.is_max_heap {
            self.values[index] > self.values[parent]
        } else {
            self.values[index] < self.values[parent]
        };

        if compare_result {
            let ghost pre = self.values@;
            self.swap_values(index, parent);
            proof {
                let mid = self.values@;
                let n = self.values.len() as int;
                let idx = index as int;
                let par = parent as int;
                assert forall|c: int| 1 <= c < n && c != par implies heap_le(
                    self.is_max_heap,
                    mid[(c - 1) / 2],
                    #[trigger] mid[c],
                ) by {
                    let p = (c - 1) / 2;
                    if c == idx {
                        // the swapped pair itself is now in order
                    } else if p == idx {
                        // children of `index` are dominated by the value
                        // that came down, which is the old parent value
                    } else if p == par {
                        // the sibling of `index` is dominated by the value
                        // that moved up, through the old parent value
                        assert(heap_le(self.is_max_heap, pre[par], pre[c]));
                    } else {
                        assert(mid[p] == pre[p] && mid[c] == pre[c]);
                    }
                }
                assert forall|c: int|
                    1 <= c < n && par >= 1 && (c - 1) / 2 == par implies heap_le(
                    self.is_max_heap,
                    mid[(par - 1) / 2],
                    #[trigger] mid[c],
                ) by {
                    assert(mid[(par - 1) / 2] == pre[(par - 1) / 2]);
                    if c == idx {
                        assert(heap_le(self.is_max_heap, pre[(par - 1) / 2], pre[par]));
                    } else {
                        assert(mid[c] == pre[c]);
                        assert(heap_le(self.is_max_heap, pre[(par - 1) / 2], pre[c]));
                    }
                }
            }
            self.sift_up(parent);
        }
    }
}

} // verus!
