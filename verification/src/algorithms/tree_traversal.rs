use std::collections::VecDeque;
use vstd::prelude::*;
use crate::data_structures::tree::BinaryTree;
use crate::values::clone_respects_view;
use crate::values::clone_value;
use crate::values::views_of;

verus! {

/// The values of a tree in root-left-right order.
pub open spec fn pre_order_seq<T: View>(tree: Option<Box<BinaryTree<T>>>) -> Seq<T::V>
    decreases tree,
{
    match tree {
        None => Seq::empty(),
        Some(t) => seq![t.root.value@] + pre_order_seq(t.left) + pre_order_seq(t.right),
    }
}

/// The values of a tree in left-root-right order.
pub open spec fn in_order_seq<T: View>(tree: Option<Box<BinaryTree<T>>>) -> Seq<T::V>
    decreases tree,
{
    match tree {
        None => Seq::empty(),
        Some(t) => in_order_seq(t.left) + seq![t.root.value@] + in_order_seq(t.right),
    }
}

/// The values of a tree in left-right-root order.
pub open spec fn post_order_seq<T: View>(tree: Option<Box<BinaryTree<T>>>) -> Seq<T::V>
    decreases tree,
{
    match tree {
        None => Seq::empty(),
        Some(t) => post_order_seq(t.left) + post_order_seq(t.right) + seq![t.root.value@],
    }
}

/// The number of nodes in a tree.
pub open spec fn tree_size<T>(tree: Option<Box<BinaryTree<T>>>) -> nat
    decreases tree,
{
    match tree {
        None => 0,
        Some(t) => 1 + tree_size(t.left) + tree_size(t.right),
    }
}

/// The number of nodes in a row of trees.
pub open spec fn forest_size<T>(ts: Seq<BinaryTree<T>>) -> nat
    decreases ts.len(),
{
    if ts.len() == 0 {
        0
    } else {
        tree_size(ts[0].left) + tree_size(ts[0].right) + 1 + forest_size(ts.drop_first())
    }
}

/// The children of a tree, left first, dropping absent ones.
pub open spec fn children_of<T>(t: BinaryTree<T>) -> Seq<BinaryTree<T>> {
    (match t.left {
        Some(l) => seq![*l],
        None => Seq::empty(),
    }) + (match t.right {
        Some(r) => seq![*r],
        None => Seq::empty(),
    })
}

/// Forest sizes add over concatenation.
proof fn lemma_forest_size_add<T>(a: Seq<BinaryTree<T>>, c: Seq<BinaryTree<T>>)
    ensures
        forest_size(a + c) == forest_size(a) + forest_size(c),
    decreases a.len(),
{
    if a.len() == 0 {
        assert(a + c =~= c);
    } else {
        assert((a + c).drop_first() =~= a.drop_first() + c);
        lemma_forest_size_add(a.drop_first(), c);
        assert((a + c)[0] == a[0]);
    }
}

/// The values of a row of trees, row by row: the roots of the row come
/// out in order, each tree's children joining the end of the row.
pub open spec fn level_seq<T: View>(ts: Seq<BinaryTree<T>>) -> Seq<T::V>
    decreases forest_size(ts),
    via level_seq_decreases::<T>
{
    if ts.len() == 0 {
        Seq::empty()
    } else {
        seq![ts[0].root.value@] + level_seq(ts.drop_first() + children_of(ts[0]))
    }
}

/// A one-tree row holds the tree's node count.
proof fn lemma_forest_singleton<T>(t: BinaryTree<T>)
    ensures
        forest_size(seq![t]) == tree_size(t.left) + tree_size(t.right) + 1,
{
    assert(seq![t].drop_first() =~= Seq::<BinaryTree<T>>::empty());
    assert(forest_size(Seq::<BinaryTree<T>>::empty()) == 0);
    assert(seq![t][0] == t);
}

/// Replacing the head of a row by its children shrinks the row by one
/// node.
proof fn lemma_forest_step<T: View>(ts: Seq<BinaryTree<T>>)
    requires
        ts.len() > 0,
    ensures
        forest_size(ts.drop_first() + children_of(ts[0])) < forest_size(ts),
{
    lemma_forest_size_add(ts.drop_first(), children_of(ts[0]));
    let t = ts[0];
    assert(forest_size(children_of(t)) <= tree_size(t.left) + tree_size(t.right)) by {
        match t.left {
            Some(l) => {
                assert(tree_size(t.left) == 1 + tree_size(l.left) + tree_size(l.right));
                lemma_forest_singleton(*l);
                match t.right {
                    Some(r) => {
                        assert(tree_size(t.right) == 1 + tree_size(r.left) + tree_size(r.right));
                        lemma_forest_singleton(*r);
                        lemma_forest_size_add(seq![*l], seq![*r]);
                        assert(children_of(t) == seq![*l] + seq![*r]);
                    },
                    None => {
                        assert(tree_size(t.right) == 0);
                        assert(children_of(t) =~= seq![*l]);
                    },
                }
            },
            None => {
                assert(tree_size(t.left) == 0);
                match t.right {
                    Some(r) => {
                        assert(tree_size(t.right) == 1 + tree_size(r.left) + tree_size(r.right));
                        lemma_forest_singleton(*r);
                        assert(children_of(t) =~= seq![*r]);
                    },
                    None => {
                        assert(children_of(t) =~= Seq::<BinaryTree<T>>::empty());
                        assert(forest_size(Seq::<BinaryTree<T>>::empty()) == 0);
                    },
                }
            },
        }
    }
}

#[via_fn]
proof fn level_seq_decreases<T: View>(ts: Seq<BinaryTree<T>>) {
    if ts.len() > 0 {
        lemma_forest_step(ts);
    }
}

/// Visits a tree level by level, top to bottom and left to right within a
/// level, with a first-in-first-out row of pending subtrees.
pub fn level_order_traversal<T: View + Clone>(tree: &Option<Box<BinaryTree<T>>>) -> (r: Vec<T>)
    requires
        clone_respects_view::<T>(),
    ensures
        views_of(r@) == (match *tree {
            Some(t) => level_seq(seq![*t]),
            None => Seq::<T::V>::empty(),
        }),
{
    let mut visited: Vec<T> = Vec::new();
    let mut queue: VecDeque<&BinaryTree<T>> = VecDeque::new();
    match tree {
        Some(root) => {
            queue.push_back(&**root);
            proof {
                assert(queue@.map_values(|t: &BinaryTree<T>| *t) =~= seq![**root]);
                assert(views_of(visited@) + level_seq(
                    queue@.map_values(|t: &BinaryTree<T>| *t),
                ) =~= level_seq(seq![**root]));
            }
            while queue.len() > 0
                invariant
                    views_of(visited@) + level_seq(queue@.map_values(|t: &BinaryTree<T>| *t))
                        == level_seq(seq![**root]),
                decreases forest_size(queue@.map_values(|t: &BinaryTree<T>| *t)),
            {
                let ghost pre = queue@.map_values(|t: &BinaryTree<T>| *t);
                let current = queue.pop_front().unwrap();
                proof {
                    assert(pre[0] == *current);
                }
                visited.push(clone_value(&current.root.value));
                let ghost mid = queue@.map_values(|t: &BinaryTree<T>| *t);
                proof {
                    assert(mid =~= pre.drop_first());
                }
                match &current.left {
                    Some(left) => {
                        queue.push_back(&**left);
                    },
                    None => {},
                }
                match &current.right {
                    Some(right) => {
                        queue.push_back(&**right);
                    },
                    None => {},
                }
                proof {
                    let post = queue@.map_values(|t: &BinaryTree<T>| *t);
                    assert(post =~= pre.drop_first() + children_of(pre[0]));
                    assert(level_seq(pre) == seq![pre[0].root.value@] + level_seq(post));
                    assert(views_of(visited@) =~= views_of(visited@).drop_last().push(
                        current.root.value@,
                    ));
                    assert(views_of(visited@) + level_seq(post) =~= level_seq(seq![**root]));
                    lemma_forest_step(pre);
                }
            }
            proof {
                assert(level_seq(queue@.map_values(|t: &BinaryTree<T>| *t)) =~= Seq::<
                    T::V,
                >::empty());
                assert(views_of(visited@) =~= views_of(visited@) + Seq::<T::V>::empty());
            }
        },
        None => {
            proof {
                assert(views_of(visited@) =~= Seq::<T::V>::empty());
            }
        },
    }
    visited
}

/// Visits a tree root first, then its left subtree in full, then its
/// right subtree.
pub fn pre_order_traversal<T: View + Clone>(tree: &Option<Box<BinaryTree<T>>>) -> (r: Vec<T>)
    requires
        clone_respects_view::<T>(),
    ensures
        views_of(r@) == pre_order_seq(*tree),
    decreases *tree,
{
    let mut visited: Vec<T> = Vec::new();
    match tree {
        Some(boxed_tree) => {
            visited.push(clone_value(&boxed_tree.root.value));
            let mut left = pre_order_traversal(&boxed_tree.left);
            visited.append(&mut left);
            let mut right = pre_order_traversal(&boxed_tree.right);
            visited.append(&mut right);
            proof {
                assert(views_of(visited@) =~= pre_order_seq(*tree));
            }
        },
        None => {
            proof {
                assert(views_of(visited@) =~= pre_order_seq(*tree));
            }
        },
    }
    visited
}

/// Visits a tree's left subtree in full, then its root, then its right
/// subtree.
pub fn in_order_traversal<T: View + Clone>(tree: &Option<Box<BinaryTree<T>>>) -> (r: Vec<T>)
    requires
        clone_respects_view::<T>(),
    ensures
        views_of(r@) == in_order_seq(*tree),
    decreases *tree,
{
    let mut visited: Vec<T> = Vec::new();
    match tree {
        Some(boxed_tree) => {
            let mut left = in_order_traversal(&boxed_tree.left);
            visited.append(&mut left);
            visited.push(clone_value(&boxed_tree.root.value));
            let mut right = in_order_traversal(&boxed_tree.right);
            visited.append(&mut right);
            proof {
                assert(views_of(visited@) =~= in_order_seq(*tree));
            }
        },
        None => {
            proof {
                assert(views_of(visited@) =~= in_order_seq(*tree));
            }
        },
    }
    visited
}

/// Visits a tree's left subtree in full, then its right subtree, then its
/// root.
pub fn post_order_traversal<T: View + Clone>(tree: &Option<Box<BinaryTree<T>>>) -> (r: Vec<T>)
    requires
        clone_respects_view::<T>(),
    ensures
        views_of(r@) == post_order_seq(*tree),
    decreases *tree,
{
    let mut visited: Vec<T> = Vec::new();
    match tree {
        Some(boxed_tree) => {
            let mut left = post_order_traversal(&boxed_tree.left);
            visited.append(&mut left);
            let mut right = post_order_traversal(&boxed_tree.right);
            visited.append(&mut right);
            visited.push(clone_value(&boxed_tree.root.value));
            proof {
                assert(views_of(visited@) =~= post_order_seq(*tree));
            }
        },
        None => {
            proof {
                assert(views_of(visited@) =~= post_order_seq(*tree));
            }
        },
    }
    visited
}

} // verus!
