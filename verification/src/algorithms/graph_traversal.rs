use std::collections::VecDeque;
use vstd::prelude::*;
use crate::data_structures::graph::Graph;
use crate::data_structures::graph::GraphNode;
use crate::data_structures::graph::entries_view;
use crate::values::clone_respects_view;
use crate::values::eq_respects_view;
use crate::values::clone_value;
use crate::values::values_eq;
use crate::values::views_of;

verus! {

/// The graph records an edge from `u` to `v`, with any weight.
pub open spec fn has_edge<T: View>(g: Graph<T>, u: T::V, v: T::V) -> bool {
    exists|k: int| 0 <= k < g.adj_of(u).len() && (#[trigger] g.adj_of(u)[k]).0 == v
}

/// A chain of node views in which each one has an edge to the next.
pub open spec fn is_route<T: View>(g: Graph<T>, p: Seq<T::V>) -> bool {
    forall|k: int| 0 <= k < p.len() - 1 ==> has_edge(g, #[trigger] p[k], p[k + 1])
}

/// `v` can be reached from `s` along the graph's edges; every node
/// reaches itself.
pub open spec fn reachable<T: View>(g: Graph<T>, s: T::V, v: T::V) -> bool {
    exists|p: Seq<T::V>|
        is_route(g, p) && p.len() >= 1 && p[0] == s && p.last() == v
}

/// A node reaches itself by the one-node route.
pub proof fn lemma_reachable_self<T: View>(g: Graph<T>, s: T::V)
    ensures
        reachable(g, s, s),
{
    let p = seq![s];
    assert(is_route(g, p) && p.len() >= 1 && p[0] == s && p.last() == s);
}

/// Reachability extends along an edge.
pub proof fn lemma_reachable_step<T: View>(g: Graph<T>, s: T::V, u: T::V, v: T::V)
    requires
        reachable(g, s, u),
        has_edge(g, u, v),
    ensures
        reachable(g, s, v),
{
    let p = choose|p: Seq<T::V>|
        is_route(g, p) && p.len() >= 1 && p[0] == s && p.last() == u;
    let q = p.push(v);
    assert(is_route(g, q)) by {
        assert(forall|k: int|
            0 <= k < p.len() - 1 ==> #[trigger] q[k] == p[k] && q[k + 1] == p[k + 1]);
        assert(q[p.len() - 1] == u && q[p.len() as int] == v);
    }
    assert(q.len() >= 1 && q[0] == s && q.last() == v);
}

/// Any set of node views that holds `s` and is closed under the graph's
/// edges holds everything reachable from `s`.
proof fn lemma_route_stays_inside<T: View>(g: Graph<T>, s: T::V, inside: Seq<T::V>, p: Seq<T::V>)
    requires
        inside.contains(s),
        forall|u: T::V, k: int|
            inside.contains(u) && 0 <= k < g.adj_of(u).len() ==> inside.contains(
                (#[trigger] g.adj_of(u)[k]).0,
            ),
        is_route(g, p),
        p.len() >= 1,
        p[0] == s,
    ensures
        inside.contains(p.last()),
    decreases p.len(),
{
    if p.len() > 1 {
        let q = p.drop_last();
        assert(is_route(g, q)) by {
            assert(forall|k: int|
                0 <= k < q.len() - 1 ==> #[trigger] q[k] == p[k] && q[k + 1] == p[k + 1]);
        }
        lemma_route_stays_inside(g, s, inside, q);
        assert(has_edge(g, p[p.len() - 2], p.last()));
        let k = choose|k: int|
            0 <= k < g.adj_of(p[p.len() - 2]).len() && (#[trigger] g.adj_of(p[p.len() - 2])[k]).0
                == p.last();
        assert(inside.contains(g.adj_of(p[p.len() - 2])[k].0));
    }
}

/// A sequence of distinct views drawn from the graph's keys and one extra
/// view has at most one entry more than the graph has keys.
proof fn lemma_distinct_views_bounded<T: View>(g: Graph<T>, extra: T::V, s: Seq<T::V>)
    requires
        forall|i: int, j: int| 0 <= i < j < s.len() ==> s[i] != s[j],
        forall|k: int| 0 <= k < s.len() ==> #[trigger] s[k] == extra || g.contains_node_spec(s[k]),
    ensures
        s.len() <= g@.len() + 1,
{
    let allowed = g.keys().to_set().insert(extra);
    assert forall|k: int| 0 <= k < s.len() implies allowed.contains(#[trigger] s[k]) by {
        if s[k] != extra {
            let i = choose|i: int| 0 <= i < g@.len() && (#[trigger] g@[i]).0 == s[k];
            assert(g.keys()[i] == s[k]);
        }
    }
    assert(s.to_set().subset_of(allowed));
    s.unique_seq_to_set();
    g.keys().lemma_cardinality_of_set();
    vstd::set_lib::lemma_len_subset(s.to_set(), allowed);
    assert(allowed.len() <= g.keys().to_set().len() + 1);
    assert(g.keys().len() == g@.len());
}

/// The not-yet-seen targets of a row of adjacency entries, met in order:
/// an entry's target is kept when it is a node of the graph not seen
/// before, and a kept target immediately counts as seen for the entries
/// after it, so each target is kept at most once.
pub open spec fn fresh_targets<T: View>(
    g: Graph<T>,
    vis: Seq<T::V>,
    entries: Seq<(T::V, Option<i32>)>,
) -> Seq<T::V>
    decreases entries.len(),
{
    if entries.len() == 0 {
        Seq::empty()
    } else {
        let v = entries[0].0;
        if vis.contains(v) || !g.contains_node_spec(v) {
            fresh_targets(g, vis, entries.drop_first())
        } else {
            seq![v] + fresh_targets(g, vis.push(v), entries.drop_first())
        }
    }
}

/// The first kept target is a node of the graph that was not yet seen.
proof fn lemma_fresh_head<T: View>(g: Graph<T>, vis: Seq<T::V>, entries: Seq<(T::V, Option<i32>)>)
    requires
        fresh_targets(g, vis, entries).len() > 0,
    ensures
        !vis.contains(fresh_targets(g, vis, entries)[0]),
        g.contains_node_spec(fresh_targets(g, vis, entries)[0]),
    decreases entries.len(),
{
    if entries.len() > 0 {
        let v = entries[0].0;
        if vis.contains(v) || !g.contains_node_spec(v) {
            lemma_fresh_head(g, vis, entries.drop_first());
        }
    }
}

/// Seeing more, including a node of the graph that was new, shrinks the
/// count of unseen nodes.
proof fn lemma_unvisited_grows_strict<T: View>(
    g: Graph<T>,
    vis: Seq<T::V>,
    vis2: Seq<T::V>,
    w: T::V,
)
    requires
        forall|x: T::V| vis.contains(x) ==> vis2.contains(x),
        vis2.contains(w),
        !vis.contains(w),
        g.contains_node_spec(w),
    ensures
        unvisited_count(g, vis2) < unvisited_count(g, vis),
{
    broadcast use vstd::seq_lib::seq_to_set_is_finite;

    let keyset = g.keys().to_set();
    let d1 = keyset.difference(vis.to_set());
    let d2 = keyset.difference(vis2.to_set());
    assert(keyset.contains(w)) by {
        let i = choose|i: int| 0 <= i < g@.len() && (#[trigger] g@[i]).0 == w;
        assert(g.keys()[i] == w);
    }
    assert(d1.contains(w));
    vstd::set_lib::lemma_len_subset(d1, keyset);
    assert(d2.subset_of(d1.remove(w)));
    vstd::set_lib::lemma_len_subset(d2, d1.remove(w));
}

/// The order in which a breadth-first search works off its pending row:
/// the front of the row is visited, and its not-yet-seen neighbors join
/// the back, in adjacency order, so nearer nodes come out before farther
/// ones.
pub open spec fn breadth_first_from<T: View>(
    g: Graph<T>,
    vis: Seq<T::V>,
    pending: Seq<T::V>,
) -> Seq<T::V>
    decreases unvisited_count(g, vis), pending.len(),
    via breadth_first_from_decreases::<T>
{
    if pending.len() == 0 {
        Seq::empty()
    } else {
        let node = pending[0];
        let fresh = fresh_targets(g, vis, g.adj_of(node));
        seq![node] + breadth_first_from(g, vis + fresh, pending.drop_first() + fresh)
    }
}

#[via_fn]
proof fn breadth_first_from_decreases<T: View>(g: Graph<T>, vis: Seq<T::V>, pending: Seq<T::V>) {
    if pending.len() > 0 {
        let fresh = fresh_targets(g, vis, g.adj_of(pending[0]));
        if fresh.len() == 0 {
            assert(vis + fresh =~= vis);
        } else {
            lemma_fresh_head(g, vis, g.adj_of(pending[0]));
            assert forall|x: T::V| vis.contains(x) implies (vis + fresh).contains(x) by {
                let i = choose|i: int| 0 <= i < vis.len() && vis[i] == x;
                assert((vis + fresh)[i] == x);
            }
            assert((vis + fresh)[vis.len() as int] == fresh[0]);
            lemma_unvisited_grows_strict(g, vis, vis + fresh, fresh[0]);
        }
    }
}

/// Scanning a row of adjacency entries splits: first the targets kept
/// from the front part, then those kept from the back part against the
/// enlarged seen list.
proof fn lemma_fresh_split<T: View>(
    g: Graph<T>,
    vis: Seq<T::V>,
    a: Seq<(T::V, Option<i32>)>,
    b: Seq<(T::V, Option<i32>)>,
)
    ensures
        fresh_targets(g, vis, a + b) == fresh_targets(g, vis, a) + fresh_targets(
            g,
            vis + fresh_targets(g, vis, a),
            b,
        ),
    decreases a.len(),
{
    if a.len() == 0 {
        assert(a + b =~= b);
        assert(fresh_targets(g, vis, a) =~= Seq::<T::V>::empty());
        assert(vis + fresh_targets(g, vis, a) =~= vis);
    } else {
        let v = a[0].0;
        assert((a + b)[0] == a[0]);
        assert((a + b).drop_first() =~= a.drop_first() + b);
        if vis.contains(v) || !g.contains_node_spec(v) {
            lemma_fresh_split(g, vis, a.drop_first(), b);
        } else {
            lemma_fresh_split(g, vis.push(v), a.drop_first(), b);
            assert(vis + fresh_targets(g, vis, a) =~= vis.push(v) + fresh_targets(
                g,
                vis.push(v),
                a.drop_first(),
            ));
            assert(fresh_targets(g, vis, a + b) =~= fresh_targets(g, vis, a) + fresh_targets(
                g,
                vis + fresh_targets(g, vis, a),
                b,
            ));
        }
    }
}

/// Scanning one more entry whose target is new keeps exactly that target.
proof fn lemma_fresh_take_keep<T: View>(
    g: Graph<T>,
    vis: Seq<T::V>,
    adj: Seq<(T::V, Option<i32>)>,
    k: int,
)
    requires
        0 <= k < adj.len(),
        !(vis + fresh_targets(g, vis, adj.take(k))).contains(adj[k].0),
        g.contains_node_spec(adj[k].0),
    ensures
        fresh_targets(g, vis, adj.take(k + 1)) == fresh_targets(g, vis, adj.take(k)) + seq![
            adj[k].0,
        ],
{
    assert(adj.take(k + 1) =~= adj.take(k) + seq![adj[k]]);
    lemma_fresh_split(g, vis, adj.take(k), seq![adj[k]]);
    let viscur = vis + fresh_targets(g, vis, adj.take(k));
    assert(seq![adj[k]][0] == adj[k]);
    assert(seq![adj[k]].drop_first() =~= Seq::<(T::V, Option<i32>)>::empty());
    assert(fresh_targets(g, viscur.push(adj[k].0), Seq::<(T::V, Option<i32>)>::empty()) == Seq::<
        T::V,
    >::empty());
    assert(fresh_targets(g, viscur, seq![adj[k]]) == seq![adj[k].0] + Seq::<T::V>::empty());
    assert(seq![adj[k].0] + Seq::<T::V>::empty() =~= seq![adj[k].0]);
}

/// Scanning one more entry whose target was seen, or is no node of the
/// graph, keeps nothing new.
proof fn lemma_fresh_take_skip<T: View>(
    g: Graph<T>,
    vis: Seq<T::V>,
    adj: Seq<(T::V, Option<i32>)>,
    k: int,
)
    requires
        0 <= k < adj.len(),
        (vis + fresh_targets(g, vis, adj.take(k))).contains(adj[k].0) || !g.contains_node_spec(
            adj[k].0,
        ),
    ensures
        fresh_targets(g, vis, adj.take(k + 1)) == fresh_targets(g, vis, adj.take(k)),
{
    assert(adj.take(k + 1) =~= adj.take(k) + seq![adj[k]]);
    lemma_fresh_split(g, vis, adj.take(k), seq![adj[k]]);
    let viscur = vis + fresh_targets(g, vis, adj.take(k));
    assert(seq![adj[k]][0] == adj[k]);
    assert(seq![adj[k]].drop_first() =~= Seq::<(T::V, Option<i32>)>::empty());
    assert(fresh_targets(g, viscur, seq![adj[k]]) == fresh_targets(
        g,
        viscur,
        Seq::<(T::V, Option<i32>)>::empty(),
    ));
    assert(fresh_targets(g, viscur, Seq::<(T::V, Option<i32>)>::empty()) == Seq::<T::V>::empty());
    assert(fresh_targets(g, vis, adj.take(k)) + Seq::<T::V>::empty() =~= fresh_targets(
        g,
        vis,
        adj.take(k),
    ));
}

/// Visits every node reachable from `start`, nearest first: `start`, then
/// its neighbors in adjacency order, then theirs, each node once. The
/// result is exactly the sequence `breadth_first_from` describes — the
/// first-in-first-out order over the pending row, so no node comes out
/// after a strictly farther one — and it holds `start` first and then,
/// without repetition, exactly the values reachable from it; when `start`
/// is absent from the graph it is the one-element sequence of `start`
/// alone.
#[verifier::rlimit(100)]
#[verifier::loop_isolation(true)]
pub fn breadth_first_search<T: View + PartialEq + Clone>(
    graph: &Graph<T>,
    start: GraphNode<T>,
) -> (r: Vec<T>)
    requires
        eq_respects_view::<T>(),
        clone_respects_view::<T>(),
        graph.wf(),
    ensures
        views_of(r@).len() >= 1,
        views_of(r@)[0] == start@,
        forall|i: int, j: int| 0 <= i < j < r@.len() ==> views_of(r@)[i] != views_of(r@)[j],
        forall|v: T::V| views_of(r@).contains(v) <==> reachable(*graph, start@, v),
        views_of(r@) == breadth_first_from(*graph, seq![start@], seq![start@]),
{
    let ghost g = *graph;
    let mut visited: Vec<GraphNode<T>> = Vec::new();
    let mut queue: VecDeque<GraphNode<T>> = VecDeque::new();
    let mut result: Vec<T> = Vec::new();

    let start_copy = GraphNode { value: clone_value(&start.value) };
    queue.push_back(start_copy);
    visited.push(start);
    proof {
        lemma_reachable_self(g, views_of(visited@)[0]);
        assert(views_of(visited@) =~= views_of(result@) + views_of(queue@));
        assert(views_of(visited@) =~= seq![start@]);
        assert(views_of(queue@) =~= seq![start@]);
        assert(views_of(result@) + breadth_first_from(g, views_of(visited@), views_of(queue@))
            =~= breadth_first_from(g, seq![start@], seq![start@]));
    }

    while queue.len() > 0
        invariant
            eq_respects_view::<T>(),
            clone_respects_view::<T>(),
            graph.wf(),
            g == *graph,
            views_of(visited@) == views_of(result@) + views_of(queue@),
            views_of(visited@).len() >= 1,
            views_of(visited@)[0] == start@,
            forall|i: int, j: int|
                0 <= i < j < visited@.len() ==> views_of(visited@)[i] != views_of(visited@)[j],
            forall|k: int|
                0 <= k < visited@.len() ==> reachable(g, start@, #[trigger] views_of(visited@)[k]),
            forall|k: int|
                0 <= k < visited@.len() ==> #[trigger] views_of(visited@)[k] == start@
                    || g.contains_node_spec(views_of(visited@)[k]),
            forall|i: int, k: int|
                0 <= i < result@.len() && 0 <= k < g.adj_of(views_of(result@)[i]).len()
                    ==> views_of(visited@).contains(
                    (#[trigger] g.adj_of(#[trigger] views_of(result@)[i])[k]).0,
                ),
            views_of(result@) + breadth_first_from(g, views_of(visited@), views_of(queue@))
                == breadth_first_from(g, seq![start@], seq![start@]),
        decreases g@.len() + 1 - visited@.len(), queue@.len(),
    {
        proof {
            lemma_distinct_views_bounded(g, start@, views_of(visited@));
        }
        let ghost vis_s = visited@.len() as int;
        let ghost q_s = queue@.len() as int;
        let ghost vis_pop = views_of(visited@);
        let ghost q_pop = views_of(queue@);
        let node = queue.pop_front().unwrap();
        let ghost qv0 = node@;
        let ghost res_before = views_of(result@);
        proof {
            assert(views_of(visited@)[res_before.len() as int] == qv0);
            assert(reachable(g, start@, qv0));
        }
        result.push(clone_value(&node.value));
        proof {
            assert(views_of(result@) =~= res_before.push(qv0));
            assert(views_of(visited@) =~= views_of(result@) + views_of(queue@));
        }
        let ghost res_now = views_of(result@);
        match graph.neighbors(&node) {
            Some(list) => {
                let ghost adj = g.adj_of(qv0);
                let mut k: usize = 0;
                while k < list.len()
                    invariant
                        eq_respects_view::<T>(),
                        clone_respects_view::<T>(),
                        graph.wf(),
                        g == *graph,
                        reachable(g, start@, qv0),
                        visited@.len() >= vis_s,
                        k <= list.len(),
                        list@.len() == g.adj_of(qv0).len(),
                        adj == g.adj_of(qv0),
                        forall|m: int| 0 <= m < list@.len() ==> (#[trigger] list@[m]).0@ == adj[m].0,
                        views_of(visited@) == views_of(result@) + views_of(queue@),
                        views_of(visited@).len() >= 1,
                        views_of(visited@)[0] == start@,
                        views_of(result@) == res_now,
                        res_now.len() >= 1,
                        res_now.last() == qv0,
                        forall|i: int, j: int|
                            0 <= i < j < visited@.len() ==> views_of(visited@)[i] != views_of(
                                visited@,
                            )[j],
                        forall|m: int|
                            0 <= m < visited@.len() ==> reachable(
                                g,
                                start@,
                                #[trigger] views_of(visited@)[m],
                            ),
                        forall|m: int|
                            0 <= m < visited@.len() ==> #[trigger] views_of(visited@)[m] == start@
                                || g.contains_node_spec(views_of(visited@)[m]),
                        forall|i: int, m: int|
                            0 <= i < result@.len() - 1 && 0 <= m < g.adj_of(
                                views_of(result@)[i],
                            ).len() ==> views_of(visited@).contains(
                                (#[trigger] g.adj_of(#[trigger] views_of(result@)[i])[m]).0,
                            ),
                        forall|m: int|
                            0 <= m < k ==> views_of(visited@).contains((#[trigger] adj[m]).0),
                        views_of(visited@) == vis_pop + fresh_targets(
                            g,
                            vis_pop,
                            adj.take(k as int),
                        ),
                        views_of(queue@) == q_pop.drop_first() + fresh_targets(
                            g,
                            vis_pop,
                            adj.take(k as int),
                        ),
                    decreases list.len() - k,
                {
                    let e = &list[k];
                    let ghost freshk = fresh_targets(g, vis_pop, adj.take(k as int));
                    proof {
                        assert(e.0@ == adj[k as int].0);
                        assert(g.contains_node_spec(adj[k as int].0)) by {
                            let gi = g.key_index(qv0);
                            g.lemma_adj_at(gi);
                        }
                    }
                    if !contains_value(&visited, &e.0) {
                        let ghost vis0 = views_of(visited@);
                        let ghost q0 = views_of(queue@);
                        queue.push_back(GraphNode { value: clone_value(&e.0.value) });
                        visited.push(GraphNode { value: clone_value(&e.0.value) });
                        proof {
                            assert(views_of(visited@) =~= vis0.push(e.0@));
                            assert(views_of(queue@) =~= q0.push(e.0@));
                            assert forall|x: T::V| vis0.contains(x) implies views_of(
                                visited@,
                            ).contains(x) by {
                                let ix = choose|ix: int| 0 <= ix < vis0.len() && vis0[ix] == x;
                                assert(views_of(visited@)[ix] == x);
                            }
                            assert(views_of(visited@) =~= views_of(result@) + views_of(queue@));
                            lemma_reachable_step(g, start@, qv0, e.0@);
                            assert(reachable(g, start@, e.0@));
                            assert(g.contains_node_spec(adj[k as int].0)) by {
                                let gi = g.key_index(qv0);
                                g.lemma_adj_at(gi);
                            }
                            assert(views_of(visited@)[views_of(visited@).len() - 1] == e.0@);
                            assert(views_of(visited@).contains(adj[k as int].0));
                            // the scan keeps this target: it was not yet seen
                            assert(!(vis_pop + freshk).contains(e.0@));
                            lemma_fresh_take_keep(g, vis_pop, adj, k as int);
                            assert(views_of(visited@) =~= vis_pop + (freshk + seq![e.0@]));
                            assert(views_of(queue@) =~= q_pop.drop_first() + (freshk + seq![
                                e.0@,
                            ]));
                        }
                    } else {
                        proof {
                            assert(views_of(visited@).contains(adj[k as int].0));
                            // the scan drops this target: it was already seen
                            assert((vis_pop + freshk).contains(adj[k as int].0));
                            lemma_fresh_take_skip(g, vis_pop, adj, k as int);
                        }
                    }
                    k = k + 1;
                }
            },
            None => {
                proof {
                    assert(g.adj_of(qv0).len() == 0);
                }
            },
        }
        proof {
            // one spec step of the pending row was worked off exactly
            let fresh = fresh_targets(g, vis_pop, g.adj_of(qv0));
            assert(views_of(visited@) == vis_pop + fresh && views_of(queue@)
                == q_pop.drop_first() + fresh) by {
                if g.contains_node_spec(qv0) || g.adj_of(qv0).len() > 0 {
                    assert(g.adj_of(qv0).take(g.adj_of(qv0).len() as int) =~= g.adj_of(qv0));
                } else {
                    assert(g.adj_of(qv0) =~= Seq::<(T::V, Option<i32>)>::empty());
                    assert(fresh =~= Seq::<T::V>::empty());
                    assert(views_of(visited@) =~= vis_pop + fresh);
                    assert(views_of(queue@) =~= q_pop.drop_first() + fresh);
                }
            }
            assert(breadth_first_from(g, vis_pop, q_pop) == seq![qv0] + breadth_first_from(
                g,
                vis_pop + fresh,
                q_pop.drop_first() + fresh,
            )) by {
                assert(q_pop[0] == qv0);
            }
            assert(views_of(result@) + breadth_first_from(
                g,
                views_of(visited@),
                views_of(queue@),
            ) =~= breadth_first_from(g, seq![start@], seq![start@])) by {
                assert(res_before + breadth_first_from(g, vis_pop, q_pop) == breadth_first_from(
                    g,
                    seq![start@],
                    seq![start@],
                ));
                assert(views_of(result@) =~= res_before + seq![qv0]);
            }
            assert forall|i: int, m: int|
                0 <= i < result@.len() && 0 <= m < g.adj_of(views_of(result@)[i]).len() implies
                views_of(visited@).contains(
                (#[trigger] g.adj_of(#[trigger] views_of(result@)[i])[m]).0,
            ) by {
                if i == result@.len() - 1 {
                    assert(views_of(result@)[i] == qv0);
                }
            }
            lemma_distinct_views_bounded(g, start@, views_of(visited@));
            assert(visited@.len() > vis_s || queue@.len() < q_s) by {
                if visited@.len() == vis_s {
                    assert(views_of(visited@).len() == views_of(result@).len() + views_of(
                        queue@,
                    ).len());
                    assert(views_of(result@).len() == res_before.len() + 1);
                }
            }
        }
    }
    proof {
        assert(views_of(visited@) =~= views_of(result@));
        assert(breadth_first_from(g, views_of(visited@), views_of(queue@)) == Seq::<
            T::V,
        >::empty()) by {
            assert(views_of(queue@) =~= Seq::<T::V>::empty());
        }
        assert(views_of(result@) =~= views_of(result@) + Seq::<T::V>::empty());
        assert forall|v: T::V| views_of(result@).contains(v) implies reachable(g, start@, v) by {
            let m = choose|m: int|
                0 <= m < views_of(result@).len() && views_of(result@)[m] == v;
            assert(reachable(g, start@, views_of(visited@)[m]));
        }
        let res = views_of(result@);
        assert forall|u: T::V, k: int|
            res.contains(u) && 0 <= k < g.adj_of(u).len() implies res.contains(
            (#[trigger] g.adj_of(u)[k]).0,
        ) by {
            let i = choose|i: int| 0 <= i < res.len() && res[i] == u;
            assert(views_of(visited@).contains(g.adj_of(views_of(result@)[i])[k].0));
        }
        assert forall|v: T::V| reachable(g, start@, v) implies res.contains(v) by {
            let p = choose|p: Seq<T::V>|
                is_route(g, p) && p.len() >= 1 && p[0] == start@ && p.last() == v;
            assert(res.contains(start@)) by {
                assert(res[0] == start@);
            }
            lemma_route_stays_inside(g, start@, res, p);
        }
    }
    result
}

/// Reachability is transitive: routes concatenate.
pub proof fn lemma_reachable_trans<T: View>(g: Graph<T>, a: T::V, b: T::V, c: T::V)
    requires
        reachable(g, a, b),
        reachable(g, b, c),
    ensures
        reachable(g, a, c),
{
    let p = choose|p: Seq<T::V>|
        is_route(g, p) && p.len() >= 1 && p[0] == a && p.last() == b;
    let q = choose|q: Seq<T::V>|
        is_route(g, q) && q.len() >= 1 && q[0] == b && q.last() == c;
    let r = p + q.drop_first();
    assert(r.len() >= 1 && r[0] == a);
    assert(r.last() == c) by {
        if q.len() == 1 {
            assert(r =~= p);
        } else {
            assert(r.last() == q.drop_first().last());
        }
    }
    assert(is_route(g, r)) by {
        assert forall|k: int| 0 <= k < r.len() - 1 implies has_edge(g, #[trigger] r[k], r[k + 1])
            by {
            if k < p.len() - 1 {
                assert(r[k] == p[k] && r[k + 1] == p[k + 1]);
            } else if k == p.len() - 1 {
                if q.len() > 1 {
                    assert(r[k] == b && r[k + 1] == q[1]);
                    assert(has_edge(g, q[0], q[1]));
                }
            } else {
                let m = k - p.len() + 1;
                assert(r[k] == q[m] && r[k + 1] == q[m + 1]);
                assert(has_edge(g, q[m], q[m + 1]));
            }
        }
    }
}

/// The visited list stays small enough: its entries are distinct, and all
/// of them but possibly the first are nodes of the graph.
proof fn lemma_visited_bounded<T: View>(g: Graph<T>, s: Seq<T::V>)
    requires
        forall|i: int, j: int| 0 <= i < j < s.len() ==> s[i] != s[j],
        forall|m: int| 0 <= m < s.len() ==> g.contains_node_spec(#[trigger] s[m]) || m == 0,
    ensures
        s.len() <= g@.len() + 1,
{
    if s.len() > 0 {
        lemma_distinct_views_bounded(g, s[0], s);
    }
}

/// The targets of a row of adjacency entries, in order.
pub open spec fn targets_of<V>(entries: Seq<(V, Option<i32>)>) -> Seq<V> {
    entries.map_values(|e: (V, Option<i32>)| e.0)
}

/// How many nodes of the graph a visited list has not yet seen.
pub open spec fn unvisited_count<T: View>(g: Graph<T>, vis: Seq<T::V>) -> nat {
    g.keys().to_set().difference(vis.to_set()).len()
}

/// Seeing a node of the graph for the first time shrinks the count of
/// unseen nodes.
proof fn lemma_unvisited_strict<T: View>(g: Graph<T>, vis: Seq<T::V>, w: T::V)
    requires
        !vis.contains(w),
        g.contains_node_spec(w),
    ensures
        unvisited_count(g, vis.push(w)) < unvisited_count(g, vis),
{
    broadcast use vstd::seq_lib::seq_to_set_is_finite;

    let keyset = g.keys().to_set();
    let d1 = keyset.difference(vis.to_set());
    let d2 = keyset.difference(vis.push(w).to_set());
    assert(keyset.contains(w)) by {
        let i = choose|i: int| 0 <= i < g@.len() && (#[trigger] g@[i]).0 == w;
        assert(g.keys()[i] == w);
    }
    assert(d1.contains(w));
    vstd::set_lib::lemma_len_subset(d1, keyset);
    assert(d2.subset_of(d1.remove(w))) by {
        assert forall|x: T::V| d2.contains(x) implies d1.remove(w).contains(x) by {
            assert(!vis.push(w).contains(x));
            assert(!vis.contains(x)) by {
                if vis.contains(x) {
                    let i = choose|i: int| 0 <= i < vis.len() && vis[i] == x;
                    assert(vis.push(w)[i] == x);
                }
            }
            assert(vis.push(w)[vis.len() as int] == w);
            assert(x != w);
        }
    }
    vstd::set_lib::lemma_len_subset(d2, d1.remove(w));
}

/// Seeing a view that is no node of the graph leaves the count of unseen
/// nodes as it was.
proof fn lemma_unvisited_push_nonkey<T: View>(g: Graph<T>, vis: Seq<T::V>, w: T::V)
    requires
        !g.contains_node_spec(w),
    ensures
        unvisited_count(g, vis.push(w)) == unvisited_count(g, vis),
{
    let keyset = g.keys().to_set();
    assert(!keyset.contains(w)) by {
        if keyset.contains(w) {
            let i = choose|i: int| 0 <= i < g.keys().len() && g.keys()[i] == w;
            assert(g@[i].0 == w);
        }
    }
    assert(keyset.difference(vis.push(w).to_set()) =~= keyset.difference(vis.to_set())) by {
        assert forall|x: T::V| vis.contains(x) implies vis.push(w).contains(x) by {
            let i = choose|i: int| 0 <= i < vis.len() && vis[i] == x;
            assert(vis.push(w)[i] == x);
        }
        assert forall|x: T::V|
            vis.push(w).contains(x) && x != w implies vis.contains(x) by {
            let i = choose|i: int| 0 <= i < vis.push(w).len() && vis.push(w)[i] == x;
            assert(i < vis.len());
            assert(vis[i] == x);
        }
    }
}

/// The order in which a depth-first search works off pending nodes: the
/// head is visited when new, and then its neighbors are explored in full,
/// in adjacency order, before the remaining pending nodes. A pending view
/// that is no node of the graph is visited with nothing to explore, which
/// is how an absent start behaves.
pub open spec fn depth_first_from<T: View>(
    g: Graph<T>,
    vis: Seq<T::V>,
    pending: Seq<T::V>,
) -> Seq<T::V>
    decreases unvisited_count(g, vis), pending.len(),
    via depth_first_from_decreases::<T>
{
    if pending.len() == 0 {
        Seq::empty()
    } else {
        let node = pending[0];
        if vis.contains(node) {
            depth_first_from(g, vis, pending.drop_first())
        } else if !g.contains_node_spec(node) {
            seq![node] + depth_first_from(g, vis.push(node), pending.drop_first())
        } else {
            seq![node] + depth_first_from(
                g,
                vis.push(node),
                targets_of(g.adj_of(node)) + pending.drop_first(),
            )
        }
    }
}

#[via_fn]
proof fn depth_first_from_decreases<T: View>(g: Graph<T>, vis: Seq<T::V>, pending: Seq<T::V>) {
    if pending.len() > 0 {
        let node = pending[0];
        if vis.contains(node) {
        } else if !g.contains_node_spec(node) {
            lemma_unvisited_push_nonkey(g, vis, node);
        } else {
            lemma_unvisited_strict(g, vis, node);
        }
    }
}

/// Working off a pending list splits: first the nodes visited for the
/// front part, then the rest from the visited list the front part leaves
/// behind.
proof fn lemma_dff_split<T: View>(g: Graph<T>, vis: Seq<T::V>, a: Seq<T::V>, b: Seq<T::V>)
    ensures
        depth_first_from(g, vis, a + b) == depth_first_from(g, vis, a) + depth_first_from(
            g,
            vis + depth_first_from(g, vis, a),
            b,
        ),
    decreases unvisited_count(g, vis), a.len(),
{
    if a.len() == 0 {
        assert(a + b =~= b);
        assert(depth_first_from(g, vis, a) =~= Seq::<T::V>::empty());
        assert(vis + depth_first_from(g, vis, a) =~= vis);
    } else {
        let node = a[0];
        assert((a + b).drop_first() =~= a.drop_first() + b);
        assert((a + b)[0] == node);
        if vis.contains(node) {
            lemma_dff_split(g, vis, a.drop_first(), b);
        } else if !g.contains_node_spec(node) {
            lemma_unvisited_push_nonkey(g, vis, node);
            lemma_dff_split(g, vis.push(node), a.drop_first(), b);
            assert(vis + depth_first_from(g, vis, a) =~= vis.push(node) + depth_first_from(
                g,
                vis.push(node),
                a.drop_first(),
            ));
            assert(depth_first_from(g, vis, a + b) =~= depth_first_from(g, vis, a)
                + depth_first_from(g, vis + depth_first_from(g, vis, a), b));
        } else {
            lemma_unvisited_strict(g, vis, node);
            let t = targets_of(g.adj_of(node));
            assert(t + (a + b).drop_first() =~= (t + a.drop_first()) + b);
            lemma_dff_split(g, vis.push(node), t + a.drop_first(), b);
            assert(vis + depth_first_from(g, vis, a) =~= vis.push(node) + depth_first_from(
                g,
                vis.push(node),
                t + a.drop_first(),
            ));
            assert(depth_first_from(g, vis, a + b) =~= depth_first_from(g, vis, a)
                + depth_first_from(g, vis + depth_first_from(g, vis, a), b));
        }
    }
}

/// The recursive working half of `depth_first_search`: visits `node` if it
/// is new and then explores each neighbor in adjacency order in full
/// before the next; does nothing when `node` was already visited. The
/// earlier entries of `visited` are kept; each appended entry is reachable
/// from `node`, and by the time the call returns every appended node, and
/// `node` itself when it was new, has all its adjacency targets visited.
#[verifier::rlimit(100)]
#[verifier::loop_isolation(true)]
fn depth_first_search_helper<T: View + PartialEq + Clone>(
    graph: &Graph<T>,
    node: &GraphNode<T>,
    visited: &mut Vec<GraphNode<T>>,
    result: &mut Vec<T>,
)
    requires
        eq_respects_view::<T>(),
        clone_respects_view::<T>(),
        graph.wf(),
        views_of(old(visited)@) == views_of(old(result)@),
        forall|i: int, j: int|
            0 <= i < j < old(visited)@.len() ==> views_of(old(visited)@)[i] != views_of(
                old(visited)@,
            )[j],
        forall|m: int|
            0 <= m < old(visited)@.len() ==> graph.contains_node_spec(
                #[trigger] views_of(old(visited)@)[m],
            ) || m == 0,
        graph.contains_node_spec(node@) || old(visited)@.len() == 0,
    ensures
        views_of(final(visited)@) == views_of(final(result)@),
        final(visited)@.len() >= old(visited)@.len(),
        views_of(final(visited)@).subrange(0, old(visited)@.len() as int) == views_of(
            old(visited)@,
        ),
        forall|i: int, j: int|
            0 <= i < j < final(visited)@.len() ==> views_of(final(visited)@)[i] != views_of(
                final(visited)@,
            )[j],
        forall|m: int|
            0 <= m < final(visited)@.len() ==> graph.contains_node_spec(
                #[trigger] views_of(final(visited)@)[m],
            ) || m == 0,
        views_of(final(visited)@).contains(node@),
        views_of(old(visited)@).contains(node@) ==> final(visited)@ == old(visited)@
            && final(result)@ == old(result)@,
        !views_of(old(visited)@).contains(node@) ==> views_of(final(visited)@)[old(
            visited,
        )@.len() as int] == node@,
        forall|m: int|
            old(visited)@.len() <= m < final(visited)@.len() ==> reachable(
                *graph,
                node@,
                #[trigger] views_of(final(visited)@)[m],
            ),
        forall|m: int, t: int|
            old(visited)@.len() < m < final(visited)@.len() && 0 <= t < graph.adj_of(
                views_of(final(visited)@)[m],
            ).len() ==> views_of(final(visited)@).contains(
                (#[trigger] graph.adj_of(#[trigger] views_of(final(visited)@)[m])[t]).0,
            ),
        !views_of(old(visited)@).contains(node@) ==> forall|t: int|
            0 <= t < graph.adj_of(node@).len() ==> views_of(final(visited)@).contains(
                (#[trigger] graph.adj_of(node@)[t]).0,
            ),
        views_of(final(visited)@) == views_of(old(visited)@) + depth_first_from(
            *graph,
            views_of(old(visited)@),
            seq![node@],
        ),
    decreases graph@.len() + 1 - old(visited)@.len(),
{
    let ghost g = *graph;
    if contains_value(visited, node) {
        proof {
            assert(views_of(visited@).subrange(0, visited@.len() as int) =~= views_of(visited@));
            assert(seq![node@][0] == node@);
            assert(seq![node@].drop_first() =~= Seq::<T::V>::empty());
            assert(depth_first_from(g, views_of(visited@), seq![node@]) == depth_first_from(
                g,
                views_of(visited@),
                Seq::<T::V>::empty(),
            ));
            assert(depth_first_from(g, views_of(visited@), Seq::<T::V>::empty()) == Seq::<
                T::V,
            >::empty());
            assert(views_of(visited@) =~= views_of(visited@) + Seq::<T::V>::empty());
        }
        return ;
    }
    visited.push(GraphNode { value: clone_value(&node.value) });
    result.push(clone_value(&node.value));
    proof {
        assert(views_of(visited@) =~= views_of(old(visited)@).push(node@));
        assert(views_of(result@) =~= views_of(old(result)@).push(node@));
        assert(views_of(visited@).subrange(0, old(visited)@.len() as int) =~= views_of(
            old(visited)@,
        ));
        assert(views_of(visited@).contains(node@)) by {
            assert(views_of(visited@)[old(visited)@.len() as int] == node@);
        }
        lemma_reachable_self(g, node@);
    }
    match graph.neighbors(node) {
        Some(list) => {
            let ghost adj = g.adj_of(node@);
            proof {
                assert(seq![node@][0] == node@);
                assert(seq![node@].drop_first() =~= Seq::<T::V>::empty());
                assert(targets_of(adj) + Seq::<T::V>::empty() =~= targets_of(adj));
                assert(depth_first_from(g, views_of(old(visited)@), seq![node@]) == seq![node@]
                    + depth_first_from(
                    g,
                    views_of(old(visited)@).push(node@),
                    targets_of(adj),
                ));
                assert(views_of(visited@) =~= views_of(old(visited)@).push(node@));
                assert(views_of(old(visited)@) + seq![node@] =~= views_of(visited@));
                assert(targets_of(adj).skip(0) =~= targets_of(adj));
                assert(views_of(old(visited)@) + depth_first_from(
                    g,
                    views_of(old(visited)@),
                    seq![node@],
                ) =~= views_of(visited@) + depth_first_from(
                    g,
                    views_of(visited@),
                    targets_of(adj).skip(0),
                ));
            }
            let mut k: usize = 0;
            while k < list.len()
                invariant
                    eq_respects_view::<T>(),
                    clone_respects_view::<T>(),
                    graph.wf(),
                    g == *graph,
                    k <= list.len(),
                    list@.len() == g.adj_of(node@).len(),
                    adj == g.adj_of(node@),
                    forall|m: int| 0 <= m < list@.len() ==> (#[trigger] list@[m]).0@ == adj[m].0,
                    g.contains_node_spec(node@),
                    views_of(visited@) == views_of(result@),
                    visited@.len() > old(visited)@.len(),
                    views_of(visited@).subrange(0, old(visited)@.len() as int) == views_of(
                        old(visited)@,
                    ),
                    views_of(visited@)[old(visited)@.len() as int] == node@,
                    views_of(visited@).contains(node@),
                    forall|i: int, j: int|
                        0 <= i < j < visited@.len() ==> views_of(visited@)[i] != views_of(
                            visited@,
                        )[j],
                    forall|m: int|
                        old(visited)@.len() <= m < visited@.len() ==> reachable(
                            g,
                            node@,
                            #[trigger] views_of(visited@)[m],
                        ),
                    forall|m: int|
                        0 <= m < visited@.len() ==> g.contains_node_spec(
                            #[trigger] views_of(visited@)[m],
                        ) || m == 0,
                    forall|m: int, t: int|
                        old(visited)@.len() < m < visited@.len() && 0 <= t < g.adj_of(
                            views_of(visited@)[m],
                        ).len() ==> views_of(visited@).contains(
                            (#[trigger] g.adj_of(#[trigger] views_of(visited@)[m])[t]).0,
                        ),
                    forall|t: int|
                        0 <= t < k ==> views_of(visited@).contains((#[trigger] adj[t]).0),
                    views_of(old(visited)@) + depth_first_from(
                        g,
                        views_of(old(visited)@),
                        seq![node@],
                    ) == views_of(visited@) + depth_first_from(
                        g,
                        views_of(visited@),
                        targets_of(adj).skip(k as int),
                    ),
                decreases list.len() - k,
            {
                let e = &list[k];
                proof {
                    assert(e.0@ == adj[k as int].0);
                    lemma_visited_bounded(g, views_of(visited@));
                    assert(g.contains_node_spec(e.0@)) by {
                        let gi = g.key_index(node@);
                        g.lemma_adj_at(gi);
                    }
                }
                let ghost vis_c = views_of(visited@);
                depth_first_search_helper(graph, &e.0, visited, result);
                proof {
                    assert(views_of(visited@).subrange(0, vis_c.len() as int) == vis_c);
                    assert(forall|ix: int|
                        0 <= ix < vis_c.len() ==> #[trigger] views_of(visited@)[ix] == vis_c[ix]);
                    assert forall|x: T::V| vis_c.contains(x) implies views_of(visited@).contains(
                        x,
                    ) by {
                        let ix = choose|ix: int| 0 <= ix < vis_c.len() && vis_c[ix] == x;
                        assert(views_of(visited@)[ix] == x);
                    }
                    assert(views_of(visited@).subrange(0, old(visited)@.len() as int) =~= views_of(
                        old(visited)@,
                    ));
                    assert(has_edge(g, node@, e.0@)) by {
                        assert(g.adj_of(node@)[k as int].0 == e.0@);
                    }
                    assert forall|m: int|
                        old(visited)@.len() <= m < visited@.len() implies reachable(
                        g,
                        node@,
                        #[trigger] views_of(visited@)[m],
                    ) by {
                        if m < vis_c.len() {
                            assert(views_of(visited@)[m] == vis_c[m]);
                        } else {
                            lemma_reachable_self(g, node@);
                            lemma_reachable_step(g, node@, node@, e.0@);
                            lemma_reachable_trans(g, node@, e.0@, views_of(visited@)[m]);
                        }
                    }
                    assert forall|m: int, t: int|
                        old(visited)@.len() < m < visited@.len() && 0 <= t < g.adj_of(
                            views_of(visited@)[m],
                        ).len() implies views_of(visited@).contains(
                        (#[trigger] g.adj_of(#[trigger] views_of(visited@)[m])[t]).0,
                    ) by {
                        if m < vis_c.len() {
                            assert(views_of(visited@)[m] == vis_c[m]);
                            assert(vis_c.contains(g.adj_of(vis_c[m])[t].0));
                        } else if m == vis_c.len() {
                            assert(!vis_c.contains(e.0@));
                            assert(views_of(visited@)[m] == e.0@);
                        }
                    }
                    assert(views_of(visited@).contains(adj[k as int].0));
                    // the spec order splits at this neighbor: its own
                    // exploration first, then the remaining targets from
                    // the visited list it leaves behind
                    assert(targets_of(adj).skip(k as int) =~= seq![e.0@] + targets_of(adj).skip(
                        k + 1,
                    ));
                    lemma_dff_split(g, vis_c, seq![e.0@], targets_of(adj).skip(k + 1));
                    assert(views_of(visited@) == vis_c + depth_first_from(g, vis_c, seq![e.0@]));
                    assert(views_of(old(visited)@) + depth_first_from(
                        g,
                        views_of(old(visited)@),
                        seq![node@],
                    ) =~= views_of(visited@) + depth_first_from(
                        g,
                        views_of(visited@),
                        targets_of(adj).skip(k + 1),
                    ));
                }
                k = k + 1;
            }
            proof {
                assert(targets_of(adj).skip(list@.len() as int) =~= Seq::<T::V>::empty());
                assert(depth_first_from(g, views_of(visited@), Seq::<T::V>::empty()) == Seq::<
                    T::V,
                >::empty());
                assert(views_of(visited@) =~= views_of(old(visited)@) + depth_first_from(
                    g,
                    views_of(old(visited)@),
                    seq![node@],
                ));
            }
        },
        None => {
            proof {
                assert(g.adj_of(node@).len() == 0);
                assert(seq![node@][0] == node@);
                assert(seq![node@].drop_first() =~= Seq::<T::V>::empty());
                assert(depth_first_from(g, views_of(old(visited)@), seq![node@]) == seq![node@]
                    + depth_first_from(
                    g,
                    views_of(old(visited)@).push(node@),
                    Seq::<T::V>::empty(),
                ));
                assert(views_of(visited@) =~= views_of(old(visited)@) + depth_first_from(
                    g,
                    views_of(old(visited)@),
                    seq![node@],
                ));
            }
        },
    }
}

/// Visits every node reachable from `start`, exploring as deep as
/// possible along each branch before backtracking: a node is visited,
/// then each of its neighbors in adjacency order is explored in full
/// before the next. The result is exactly the sequence `depth_first_from`
/// describes — `start` first, then, without repetition, the reachable
/// values in depth-first adjacency order; when `start` is absent from the
/// graph it is the one-element sequence of `start` alone.
pub fn depth_first_search<T: View + PartialEq + Clone>(
    graph: &Graph<T>,
    start: GraphNode<T>,
) -> (r: Vec<T>)
    requires
        eq_respects_view::<T>(),
        clone_respects_view::<T>(),
        graph.wf(),
    ensures
        views_of(r@).len() >= 1,
        views_of(r@)[0] == start@,
        forall|i: int, j: int| 0 <= i < j < r@.len() ==> views_of(r@)[i] != views_of(r@)[j],
        forall|v: T::V| views_of(r@).contains(v) <==> reachable(*graph, start@, v),
        views_of(r@) == depth_first_from(*graph, Seq::<T::V>::empty(), seq![start@]),
{
    let ghost g = *graph;
    let mut visited: Vec<GraphNode<T>> = Vec::new();
    let mut result: Vec<T> = Vec::new();
    proof {
        assert(views_of(visited@) =~= views_of(result@));
        assert(views_of(visited@) =~= Seq::<T::V>::empty());
    }
    depth_first_search_helper(graph, &start, &mut visited, &mut result);
    proof {
        assert(views_of(result@) =~= Seq::<T::V>::empty() + depth_first_from(
            g,
            Seq::<T::V>::empty(),
            seq![start@],
        ));
        let res = views_of(result@);
        assert(res == views_of(visited@));
        assert(res[0] == start@);
        assert(res.contains(start@));
        assert forall|u: T::V, k: int|
            res.contains(u) && 0 <= k < g.adj_of(u).len() implies res.contains(
            (#[trigger] g.adj_of(u)[k]).0,
        ) by {
            let i = choose|i: int| 0 <= i < res.len() && res[i] == u;
            if i == 0 {
                assert(views_of(visited@).contains(g.adj_of(start@)[k].0));
            } else {
                assert(views_of(visited@).contains(g.adj_of(views_of(visited@)[i])[k].0));
            }
        }
        assert forall|v: T::V| reachable(g, start@, v) implies res.contains(v) by {
            let p = choose|p: Seq<T::V>|
                is_route(g, p) && p.len() >= 1 && p[0] == start@ && p.last() == v;
            lemma_route_stays_inside(g, start@, res, p);
        }
    }
    result
}

/// Breadth-first and depth-first search visit the same nodes: any two
/// sequences that each hold exactly the values reachable from `start`
/// cover the same set, whatever their order.
pub proof fn lemma_traversals_visit_same_set<T: View>(
    g: Graph<T>,
    start: T::V,
    r1: Seq<T::V>,
    r2: Seq<T::V>,
)
    requires
        forall|v: T::V| r1.contains(v) <==> reachable(g, start, v),
        forall|v: T::V| r2.contains(v) <==> reachable(g, start, v),
    ensures
        r1.to_set() == r2.to_set(),
{
    assert(r1.to_set() =~= r2.to_set());
}

/// The graph records an edge from `u` to `v` carrying exactly the weight
/// `w`; unweighted entries do not count.
pub open spec fn weighted_edge<T: View>(g: Graph<T>, u: T::V, v: T::V, w: i32) -> bool {
    exists|m: int| 0 <= m < g.adj_of(u).len() && #[trigger] g.adj_of(u)[m] == (v, Some(w))
}

/// A walk along weighted edges: `nodes` has one more entry than `ws`, and
/// each consecutive pair of nodes is joined by an edge carrying the
/// corresponding weight.
pub open spec fn is_weighted_walk<T: View>(g: Graph<T>, nodes: Seq<T::V>, ws: Seq<i32>) -> bool {
    &&& nodes.len() == ws.len() + 1
    &&& forall|k: int| 0 <= k < ws.len() ==> weighted_edge(g, nodes[k], nodes[k + 1], #[trigger] ws[k])
}

/// The total weight of a walk.
pub open spec fn walk_weight(ws: Seq<i32>) -> int
    decreases ws.len(),
{
    if ws.len() == 0 {
        0
    } else {
        walk_weight(ws.drop_last()) + ws.last()
    }
}

/// All weighted entries of the graph carry non-negative weights.
pub open spec fn nonnegative_weights<T: View>(g: Graph<T>) -> bool {
    forall|u: T::V, m: int|
        0 <= m < g.adj_of(u).len() && (#[trigger] g.adj_of(u)[m]).1 is Some ==> g.adj_of(
            u,
        )[m].1.unwrap() >= 0
}

/// `v` lies at the end of some weighted walk from `s`; every view reaches
/// itself by the walk with no edges.
pub open spec fn weighted_reachable<T: View>(g: Graph<T>, s: T::V, v: T::V) -> bool {
    exists|ns: Seq<T::V>, ws: Seq<i32>|
        is_weighted_walk(g, ns, ws) && ns[0] == s && ns.last() == v
}

/// Every weighted entry within weighted reach of `s` carries a
/// non-negative weight; entries out of reach may be anything.
pub open spec fn nonnegative_from<T: View>(g: Graph<T>, s: T::V) -> bool {
    forall|u: T::V, m: int|
        weighted_reachable(g, s, u) && 0 <= m < g.adj_of(u).len() && (#[trigger] g.adj_of(
            u,
        )[m]).1 is Some ==> g.adj_of(u)[m].1.unwrap() >= 0
}

/// A graph without negative weights anywhere has none within reach of any
/// start.
pub proof fn lemma_nonnegative_weights_from<T: View>(g: Graph<T>, s: T::V)
    requires
        nonnegative_weights(g),
    ensures
        nonnegative_from(g, s),
{
}

/// A finite map from graph nodes to distances, kept as an association list
/// with one entry per node. Its view pairs each node's view with its
/// distance, in insertion order.
#[derive(Debug)]
pub struct DistanceMap<T, W> {
    entries: Vec<(GraphNode<T>, W)>,
}

impl<T: View, W> View for DistanceMap<T, W> {
    type V = Seq<(T::V, W)>;

    closed spec fn view(&self) -> Seq<(T::V, W)> {
        self.entries@.map_values(|e: (GraphNode<T>, W)| (e.0@, e.1))
    }
}

impl<T: View, W> DistanceMap<T, W> {
    /// Whether a distance is recorded for the node with view `v`.
    pub open spec fn dist_contains(&self, v: T::V) -> bool {
        exists|i: int| 0 <= i < self@.len() && (#[trigger] self@[i]).0 == v
    }

    /// The position of the entry for `v`.
    pub open spec fn dist_index(&self, v: T::V) -> int {
        choose|i: int| 0 <= i < self@.len() && (#[trigger] self@[i]).0 == v
    }

    /// The recorded distance for `v`.
    pub open spec fn dist_of(&self, v: T::V) -> W {
        self@[self.dist_index(v)].1
    }

    /// Each node has at most one entry.
    pub open spec fn dwf(&self) -> bool {
        forall|i: int, j: int| 0 <= i < j < self@.len() ==> (#[trigger] self@[i]).0 != (
        #[trigger] self@[j]).0
    }

    /// The entry at position `i` is what `dist_of` reports for its node.
    pub proof fn lemma_dist_at(&self, i: int)
        requires
            self.dwf(),
            0 <= i < self@.len(),
        ensures
            self.dist_contains(self@[i].0),
            self.dist_index(self@[i].0) == i,
            self.dist_of(self@[i].0) == self@[i].1,
    {
        assert(self.dist_contains(self@[i].0));
        let j = self.dist_index(self@[i].0);
        if j != i {
            assert(self@[i].0 != self@[j].0);
        }
    }

    /// Creates an empty map.
    pub fn new() -> (r: Self)
        ensures
            r@ =~= Seq::<(T::V, W)>::empty(),
            r.dwf(),
    {
        DistanceMap { entries: Vec::new() }
    }

    /// The number of recorded nodes.
    pub fn len(&self) -> (r: usize)
        ensures
            r == self@.len(),
    {
        self.entries.len()
    }
}

impl<T: View + PartialEq, W: Copy> DistanceMap<T, W> {
    /// Looks up the position of a node's entry.
    fn entry_index(&self, node: &GraphNode<T>) -> (r: Option<usize>)
        requires
            eq_respects_view::<T>(),
        ensures
            match r {
                Some(i) => i < self@.len() && self@[i as int].0 == node@ && self.dist_contains(
                    node@,
                ),
                None => !self.dist_contains(node@),
            },
    {
        let mut i: usize = 0;
        while i < self.entries.len()
            invariant
                i <= self@.len(),
                forall|k: int| 0 <= k < i ==> (#[trigger] self@[k]).0 != node@,
            decreases self@.len() - i,
        {
            if values_eq(&self.entries[i].0.value, &node.value) {
                return Some(i);
            }
            i = i + 1;
        }
        None
    }

    /// The recorded distance for `node`, or `None` when there is none.
    pub fn get(&self, node: &GraphNode<T>) -> (r: Option<W>)
        requires
            eq_respects_view::<T>(),
            self.dwf(),
        ensures
            match r {
                Some(x) => self.dist_contains(node@) && x == self.dist_of(node@),
                None => !self.dist_contains(node@),
            },
    {
        match self.entry_index(node) {
            Some(i) => {
                proof {
                    self.lemma_dist_at(i as int);
                }
                Some(self.entries[i].1)
            },
            None => None,
        }
    }

    /// Records `d` for `node`, replacing any earlier entry.
    fn upsert(&mut self, node: GraphNode<T>, d: W)
        requires
            eq_respects_view::<T>(),
            old(self).dwf(),
        ensures
            final(self).dwf(),
            old(self).dist_contains(node@) ==> final(self)@ == old(self)@.update(
                old(self).dist_index(node@),
                (node@, d),
            ),
            !old(self).dist_contains(node@) ==> final(self)@ == old(self)@.push((node@, d)),
    {
        match self.entry_index(&node) {
            Some(i) => {
                proof {
                    self.lemma_dist_at(i as int);
                }
                self.entries.set(i, (node, d));
                proof {
                    assert(self@ =~= old(self)@.update(i as int, (node@, d)));
                    assert(forall|k: int|
                        0 <= k < self@.len() ==> (#[trigger] self@[k]).0 == old(self)@[k].0);
                }
            },
            None => {
                self.entries.push((node, d));
                proof {
                    assert(self@ =~= old(self)@.push((node@, d)));
                }
            },
        }
    }
}

/// Every weighted edge out of `v` has been relaxed: its target's recorded
/// distance is no worse than going through `v`, unless even that detour
/// would not fit a 32-bit distance.
pub open spec fn relaxed<T: View>(g: Graph<T>, dm: DistanceMap<T, u32>, v: T::V) -> bool {
    forall|t: int|
        0 <= t < g.adj_of(v).len() && (#[trigger] g.adj_of(v)[t]).1 is Some ==> dm.dist_of(v)
            + g.adj_of(v)[t].1.unwrap() >= u32::MAX || (dm.dist_contains(g.adj_of(v)[t].0)
            && dm.dist_of(g.adj_of(v)[t].0) <= dm.dist_of(v) + g.adj_of(v)[t].1.unwrap())
}

/// In a fully relaxed distance map that records 0 for `start`, no weighted
/// walk from `start` beats a recorded distance, and every walk light
/// enough to fit a 32-bit distance ends at a recorded node.
proof fn lemma_walk_lower_bound<T: View>(
    g: Graph<T>,
    dm: DistanceMap<T, u32>,
    start: T::V,
    ns: Seq<T::V>,
    ws: Seq<i32>,
)
    requires
        nonnegative_from(g, start),
        dm.dist_contains(start),
        dm.dist_of(start) == 0,
        forall|v: T::V| #[trigger] dm.dist_contains(v) ==> dm.dist_of(v) < u32::MAX,
        forall|v: T::V| #[trigger] dm.dist_contains(v) ==> relaxed(g, dm, v),
        is_weighted_walk(g, ns, ws),
        ns[0] == start,
    ensures
        walk_weight(ws) >= 0,
        walk_weight(ws) < u32::MAX ==> dm.dist_contains(ns.last()) && dm.dist_of(ns.last())
            <= walk_weight(ws),
        dm.dist_contains(ns.last()) ==> dm.dist_of(ns.last()) <= walk_weight(ws),
    decreases ws.len(),
{
    if ws.len() == 0 {
        assert(ns.last() == start);
    } else {
        let pn = ns.drop_last();
        let pw = ws.drop_last();
        assert(is_weighted_walk(g, pn, pw)) by {
            assert(forall|k: int|
                0 <= k < pw.len() ==> #[trigger] pw[k] == ws[k] && pn[k] == ns[k] && pn[k + 1]
                    == ns[k + 1]);
        }
        assert(pn[0] == start);
        let u = pn.last();
        let wl = ws.last();
        assert(weighted_edge(g, u, ns.last(), wl)) by {
            assert(ns[ws.len() - 1] == u && ns[ws.len() as int] == ns.last());
        }
        let m = choose|m: int|
            0 <= m < g.adj_of(u).len() && #[trigger] g.adj_of(u)[m] == (ns.last(), Some(wl));
        assert(wl >= 0) by {
            assert(weighted_reachable(g, start, u)) by {
                assert(is_weighted_walk(g, pn, pw) && pn[0] == start && pn.last() == u);
            }
            assert(g.adj_of(u)[m].1 is Some);
        }
        lemma_walk_lower_bound(g, dm, start, pn, pw);
        assert(walk_weight(ws) == walk_weight(pw) + wl);
        if walk_weight(ws) < u32::MAX {
            assert(dm.dist_contains(u) && dm.dist_of(u) <= walk_weight(pw));
            assert(relaxed(g, dm, u));
            assert(dm.dist_of(u) + g.adj_of(u)[m].1.unwrap() < u32::MAX);
            assert(dm.dist_contains(ns.last()) && dm.dist_of(ns.last()) <= dm.dist_of(u) + wl);
        }
        if dm.dist_contains(ns.last()) {
            if walk_weight(ws) >= u32::MAX {
                assert(dm.dist_of(ns.last()) < u32::MAX);
            }
        }
    }
}

/// The sum of the recorded distances; it shrinks whenever a relaxation
/// improves an entry, which is what bounds the search.
pub open spec fn dist_sum<V>(s: Seq<(V, u32)>) -> int
    decreases s.len(),
{
    if s.len() == 0 {
        0
    } else {
        dist_sum(s.drop_last()) + s.last().1
    }
}

/// A sum of unsigned values is non-negative.
proof fn lemma_dist_sum_nonnegative<V>(s: Seq<(V, u32)>)
    ensures
        dist_sum(s) >= 0,
    decreases s.len(),
{
    if s.len() > 0 {
        lemma_dist_sum_nonnegative(s.drop_last());
    }
}

/// Updating one entry moves the sum by the difference of the values.
proof fn lemma_dist_sum_update<V>(s: Seq<(V, u32)>, i: int, e: (V, u32))
    requires
        0 <= i < s.len(),
    ensures
        dist_sum(s.update(i, e)) == dist_sum(s) - s[i].1 + e.1,
    decreases s.len(),
{
    let t = s.update(i, e);
    if i == s.len() - 1 {
        assert(t.drop_last() =~= s.drop_last());
        assert(t.last() == e);
    } else {
        assert(t.drop_last() =~= s.drop_last().update(i, e));
        lemma_dist_sum_update(s.drop_last(), i, e);
        assert(t.last() == s.last());
    }
}

/// Appending an entry adds its value to the sum.
proof fn lemma_dist_sum_push<V>(s: Seq<(V, u32)>, e: (V, u32))
    ensures
        dist_sum(s.push(e)) == dist_sum(s) + e.1,
{
    assert(s.push(e).drop_last() =~= s);
    assert(s.push(e).last() == e);
}

/// Replacing the value of the entry at `i` changes `dist_of` for that node
/// alone and keeps membership as it was.
proof fn lemma_dm_update_effect<T: View, W>(
    pre: DistanceMap<T, W>,
    post: DistanceMap<T, W>,
    i: int,
    d: W,
)
    requires
        pre.dwf(),
        0 <= i < pre@.len(),
        post@ == pre@.update(i, (pre@[i].0, d)),
    ensures
        post.dwf(),
        forall|v: T::V| post.dist_contains(v) <==> pre.dist_contains(v),
        post.dist_contains(pre@[i].0),
        post.dist_of(pre@[i].0) == d,
        forall|v: T::V|
            v != pre@[i].0 && pre.dist_contains(v) ==> post.dist_of(v) == pre.dist_of(v),
        post@.len() == pre@.len(),
{
    assert(forall|k: int| 0 <= k < post@.len() ==> (#[trigger] post@[k]).0 == pre@[k].0);
    assert forall|v: T::V| post.dist_contains(v) <==> pre.dist_contains(v) by {
        if post.dist_contains(v) {
            let k = choose|k: int| 0 <= k < post@.len() && (#[trigger] post@[k]).0 == v;
            assert(pre@[k].0 == v);
        }
        if pre.dist_contains(v) {
            let k = choose|k: int| 0 <= k < pre@.len() && (#[trigger] pre@[k]).0 == v;
            assert(post@[k].0 == v);
        }
    }
    pre.lemma_dist_at(i);
    post.lemma_dist_at(i);
    assert forall|v: T::V| v != pre@[i].0 && pre.dist_contains(v) implies post.dist_of(v)
        == pre.dist_of(v) by {
        let k = pre.dist_index(v);
        pre.lemma_dist_at(k);
        post.lemma_dist_at(k);
        assert(k != i);
    }
}

/// Appending an entry for a new node records its distance and keeps every
/// other node's entry as it was.
proof fn lemma_dm_push_effect<T: View, W>(
    pre: DistanceMap<T, W>,
    post: DistanceMap<T, W>,
    n: T::V,
    d: W,
)
    requires
        pre.dwf(),
        !pre.dist_contains(n),
        post@ == pre@.push((n, d)),
    ensures
        post.dwf(),
        forall|v: T::V| post.dist_contains(v) <==> (pre.dist_contains(v) || v == n),
        post.dist_contains(n),
        post.dist_of(n) == d,
        forall|v: T::V| v != n && pre.dist_contains(v) ==> post.dist_of(v) == pre.dist_of(v),
        post@.len() == pre@.len() + 1,
{
    assert(forall|k: int| 0 <= k < pre@.len() ==> (#[trigger] post@[k]) == pre@[k]);
    assert(post@[pre@.len() as int] == (n, d));
    assert forall|v: T::V| post.dist_contains(v) implies (pre.dist_contains(v) || v == n) by {
        let k = choose|k: int| 0 <= k < post@.len() && (#[trigger] post@[k]).0 == v;
        if k < pre@.len() {
            assert(pre@[k].0 == v);
        }
    }
    assert forall|v: T::V| pre.dist_contains(v) implies post.dist_contains(v) by {
        let k = choose|k: int| 0 <= k < pre@.len() && (#[trigger] pre@[k]).0 == v;
        assert(post@[k].0 == v);
    }
    assert(post.dwf());
    post.lemma_dist_at(pre@.len() as int);
    assert forall|v: T::V| v != n && pre.dist_contains(v) implies post.dist_of(v)
        == pre.dist_of(v) by {
        let k = pre.dist_index(v);
        pre.lemma_dist_at(k);
        post.lemma_dist_at(k);
    }
}

/// The views of the pending queue's entries.
pub open spec fn queue_views<T: View>(s: Seq<(u32, GraphNode<T>)>) -> Seq<(u32, T::V)> {
    s.map_values(|e: (u32, GraphNode<T>)| (e.0, e.1@))
}

/// Computes the shortest weighted distance from `start` to every node a
/// weighted path can reach, for non-negative weights, with a lazily
/// purged pending queue: the queue may hold stale entries, which are
/// recognized and dropped when their recorded distance has already been
/// beaten. Unweighted edges are never relaxed. The result records `start`
/// at distance 0 and, for each node reachable over weighted edges by a
/// walk lighter than the largest 32-bit distance, exactly the least walk
/// weight; no other node is recorded.
#[verifier::rlimit(100)]
#[verifier::loop_isolation(true)]
pub fn dijkstra<T: View + PartialEq + Clone>(graph: &Graph<T>, start: GraphNode<T>) -> (r:
    DistanceMap<T, u32>)
    requires
        eq_respects_view::<T>(),
        clone_respects_view::<T>(),
        graph.wf(),
        nonnegative_from(*graph, start@),
    ensures
        r.dwf(),
        r.dist_contains(start@),
        r.dist_of(start@) == 0,
        forall|v: T::V| #[trigger] r.dist_contains(v) ==> r.dist_of(v) < u32::MAX,
        forall|v: T::V| #[trigger] r.dist_contains(v) ==> exists|ns: Seq<T::V>, ws: Seq<i32>|
            is_weighted_walk(*graph, ns, ws) && ns[0] == start@ && ns.last() == v && walk_weight(
                ws,
            ) == r.dist_of(v),
        forall|ns: Seq<T::V>, ws: Seq<i32>|
            #[trigger] is_weighted_walk(*graph, ns, ws) && ns[0] == start@ && r.dist_contains(
                ns.last(),
            ) ==> r.dist_of(ns.last()) <= walk_weight(ws),
        forall|ns: Seq<T::V>, ws: Seq<i32>|
            #[trigger] is_weighted_walk(*graph, ns, ws) && ns[0] == start@ && walk_weight(ws)
                < u32::MAX ==> r.dist_contains(ns.last()),
{
    let ghost g = *graph;
    let mut distances: DistanceMap<T, u32> = DistanceMap::new();
    let mut pending: Vec<(u32, GraphNode<T>)> = Vec::new();

    let ghost dm_empty = distances;
    let start_copy = GraphNode { value: clone_value(&start.value) };
    distances.upsert(start, 0);
    pending.push((0, start_copy));
    proof {
        lemma_dm_push_effect(dm_empty, distances, start_copy@, 0);
        assert(queue_views(pending@)[0] == (0u32, start_copy@));
        assert(distances@[0].0 == start_copy@);
        assert(exists|ns: Seq<T::V>, ws: Seq<i32>|
            is_weighted_walk(g, ns, ws) && ns[0] == start_copy@ && ns.last() == start_copy@
                && walk_weight(ws) == 0) by {
            let ns = seq![start_copy@];
            let ws = Seq::<i32>::empty();
            assert(is_weighted_walk(g, ns, ws) && ns[0] == start_copy@ && ns.last() == start_copy@
                && walk_weight(ws) == 0);
        }
    }

    while pending.len() > 0
        invariant
            eq_respects_view::<T>(),
            clone_respects_view::<T>(),
            graph.wf(),
            nonnegative_from(g, start@),
            g == *graph,
            distances.dwf(),
            distances.dist_contains(start@),
            distances.dist_of(start@) == 0,
            forall|i: int|
                0 <= i < distances@.len() ==> (#[trigger] distances@[i]).1 < u32::MAX,
            forall|i: int|
                0 <= i < distances@.len() ==> (#[trigger] distances@[i]).0 == start@
                    || g.contains_node_spec(distances@[i].0),
            forall|i: int|
                0 <= i < distances@.len() ==> exists|ns: Seq<T::V>, ws: Seq<i32>|
                    is_weighted_walk(g, ns, ws) && ns[0] == start@ && ns.last() == (
                    #[trigger] distances@[i]).0 && walk_weight(ws) == distances@[i].1,
            forall|j: int|
                0 <= j < pending@.len() ==> distances.dist_contains(
                    (#[trigger] queue_views(pending@)[j]).1,
                ) && distances.dist_of(queue_views(pending@)[j].1) <= queue_views(pending@)[j].0,
            forall|i: int|
                0 <= i < distances@.len() ==> (exists|j: int|
                    0 <= j < pending@.len() && #[trigger] queue_views(pending@)[j] == (
                    distances@[i].1,
                    distances@[i].0,
                )) || relaxed(g, distances, (#[trigger] distances@[i]).0),
        decreases
                g@.len() + 1 - distances@.len(),
                dist_sum(distances@),
                pending@.len(),
    {
        proof {
            distances.lemma_dist_at(0);
            let dkeys = distances@.map_values(|e: (T::V, u32)| e.0);
            assert(forall|i: int| 0 <= i < dkeys.len() ==> #[trigger] dkeys[i] == distances@[i].0);
            lemma_distinct_views_bounded(g, start@, dkeys);
            lemma_dist_sum_nonnegative(distances@);
        }
        let ghost dm_s = distances;
        let ghost pq_s = pending@;
        // pop the entry with the least recorded distance
        let mut best: usize = 0;
        let mut j: usize = 1;
        while j < pending.len()
            invariant
                pending@.len() > 0,
                best < j <= pending@.len(),
                forall|m: int|
                    0 <= m < j ==> (#[trigger] pending@[m]).0 >= pending@[best as int].0,
            decreases pending@.len() - j,
        {
            if pending[j].0 < pending[best].0 {
                best = j;
            }
            j = j + 1;
        }
        let (current_distance, current_node) = pending.remove(best);
        let ghost cv = current_node@;
        proof {
            assert(queue_views(pq_s)[best as int] == (current_distance, cv));
            assert(distances.dist_contains(cv));
            assert(queue_views(pending@) =~= queue_views(pq_s).remove(best as int));
            // every witness entry other than the removed one survives
            assert forall|i: int|
                0 <= i < distances@.len() && !(distances@[i].1 == current_distance
                    && distances@[i].0 == cv) implies (exists|j2: int|
                0 <= j2 < pending@.len() && #[trigger] queue_views(pending@)[j2] == (
                distances@[i].1,
                distances@[i].0,
            )) || relaxed(g, distances, (#[trigger] distances@[i]).0) by {
                if exists|j2: int|
                    0 <= j2 < pq_s.len() && #[trigger] queue_views(pq_s)[j2] == (
                    distances@[i].1,
                    distances@[i].0,
                ) {
                    let j2 = choose|j2: int|
                        0 <= j2 < pq_s.len() && #[trigger] queue_views(pq_s)[j2] == (
                        distances@[i].1,
                        distances@[i].0,
                    );
                    if j2 != best {
                        let j3: int = if j2 < best {
                            j2
                        } else {
                            j2 - 1
                        };
                        assert(queue_views(pending@)[j3] == queue_views(pq_s)[j2]);
                    }
                }
            }
        }
        let current_best = distances.get(&current_node).unwrap();
        if current_distance > current_best {
            // a stale entry: a better distance has been recorded since
            continue ;
        }
        match graph.neighbors(&current_node) {
            Some(list) => {
                let ghost adj = g.adj_of(cv);
                let mut k: usize = 0;
                while k < list.len()
                    invariant
                        eq_respects_view::<T>(),
                        clone_respects_view::<T>(),
                        graph.wf(),
                        nonnegative_from(g, start@),
                        g == *graph,
                        k <= list.len(),
                        list@.len() == g.adj_of(cv).len(),
                        adj == g.adj_of(cv),
                        forall|m: int|
                            0 <= m < list@.len() ==> (#[trigger] list@[m]).0@ == adj[m].0
                                && list@[m].1 == adj[m].1,
                        g.contains_node_spec(cv),
                        distances.dwf(),
                        distances.dist_contains(start@),
                        distances.dist_of(start@) == 0,
                        distances.dist_contains(cv),
                        distances.dist_of(cv) == current_distance,
                        forall|i: int|
                            0 <= i < distances@.len() ==> (#[trigger] distances@[i]).1 < u32::MAX,
                        forall|i: int|
                            0 <= i < distances@.len() ==> (#[trigger] distances@[i]).0 == start@
                                || g.contains_node_spec(distances@[i].0),
                        forall|i: int|
                            0 <= i < distances@.len() ==> exists|ns: Seq<T::V>, ws: Seq<i32>|
                                is_weighted_walk(g, ns, ws) && ns[0] == start@ && ns.last() == (
                                #[trigger] distances@[i]).0 && walk_weight(ws) == distances@[i].1,
                        forall|j2: int|
                            0 <= j2 < pending@.len() ==> distances.dist_contains(
                                (#[trigger] queue_views(pending@)[j2]).1,
                            ) && distances.dist_of(queue_views(pending@)[j2].1) <= queue_views(
                                pending@,
                            )[j2].0,
                        forall|i: int|
                            0 <= i < distances@.len() && distances@[i].0 != cv ==> (exists|j2: int|
                                0 <= j2 < pending@.len() && #[trigger] queue_views(pending@)[j2]
                                    == (distances@[i].1, distances@[i].0)) || relaxed(
                                g,
                                distances,
                                (#[trigger] distances@[i]).0,
                            ),
                        forall|t: int|
                            0 <= t < k && (#[trigger] adj[t]).1 is Some ==> current_distance
                                + adj[t].1.unwrap() >= u32::MAX || (distances.dist_contains(
                                adj[t].0,
                            ) && distances.dist_of(adj[t].0) <= current_distance
                                + adj[t].1.unwrap()),
                        distances@.len() >= dm_s@.len(),
                        distances@.len() == dm_s@.len() ==> dist_sum(distances@) <= dist_sum(
                            dm_s@,
                        ),
                        distances@.len() == dm_s@.len() && dist_sum(distances@) == dist_sum(dm_s@)
                            ==> pending@.len() == pq_s.len() - 1,
                    decreases list.len() - k,
                {
                    let e = &list[k];
                    let ghost pq0 = pending@;
                    proof {
                        assert(e.0@ == adj[k as int].0);
                        assert(g.contains_node_spec(adj[k as int].0)) by {
                            let gi = g.key_index(cv);
                            g.lemma_adj_at(gi);
                        }
                    }
                    match e.1 {
                        Some(w) => {
                            proof {
                                assert(adj[k as int].1 == Some(w));
                                assert(w >= 0) by {
                                    let di = distances.dist_index(cv);
                                    distances.lemma_dist_at(di);
                                    let (nsr, wsr) = choose|ns: Seq<T::V>, ws: Seq<i32>|
                                        is_weighted_walk(g, ns, ws) && ns[0] == start@ && ns.last()
                                            == distances@[di].0 && walk_weight(ws) == distances@[di].1;
                                    assert(weighted_reachable(g, start@, cv));
                                    assert(g.adj_of(cv)[k as int].1 is Some);
                                }
                            }
                            let candidate: u64 = current_distance as u64 + w as u64;
                            let existing_opt = distances.get(&e.0);
                            let existing: u64 = match existing_opt {
                                Some(x) => x as u64,
                                None => u32::MAX as u64,
                            };
                            if candidate < existing {
                                let ghost dm0 = distances;
                                let new_distance = candidate as u32;
                                distances.upsert(
                                    GraphNode { value: clone_value(&e.0.value) },
                                    new_distance,
                                );
                                pending.push(
                                    (new_distance, GraphNode { value: clone_value(&e.0.value) }),
                                );
                                proof {
                                    let dm1 = distances;
                                    let tv = adj[k as int].0;
                                    if dm0.dist_contains(tv) {
                                        let ti = dm0.dist_index(tv);
                                        dm0.lemma_dist_at(ti);
                                        lemma_dm_update_effect(dm0, dm1, ti, new_distance);
                                        lemma_dist_sum_update(
                                            dm0@,
                                            ti,
                                            (tv, new_distance),
                                        );
                                        assert(dm1@ == dm0@.update(ti, (tv, new_distance)));
                                    } else {
                                        lemma_dm_push_effect(dm0, dm1, tv, new_distance);
                                        lemma_dist_sum_push(dm0@, (tv, new_distance));
                                    }
                                    assert(pending@.drop_last() =~= pq0);
                                    assert(queue_views(pending@) =~= queue_views(pq0).push(
                                        (new_distance, tv),
                                    ));
                                    // pending entries still point at recorded
                                    // distances at most their tag
                                    assert forall|j2: int|
                                        0 <= j2 < pending@.len() implies dm1.dist_contains(
                                        (#[trigger] queue_views(pending@)[j2]).1,
                                    ) && dm1.dist_of(queue_views(pending@)[j2].1) <= queue_views(
                                        pending@,
                                    )[j2].0 by {
                                        if j2 < pending@.len() - 1 {
                                            assert(queue_views(pending@)[j2] == queue_views(
                                                pq0,
                                            )[j2]);
                                            let nodev = queue_views(pq0)[j2].1;
                                            assert(dm0.dist_contains(nodev));
                                            if nodev == tv {
                                                assert(dm1.dist_of(tv) == new_distance);
                                                assert(new_distance <= dm0.dist_of(tv));
                                            } else {
                                                assert(dm1.dist_of(nodev) == dm0.dist_of(nodev));
                                            }
                                        } else {
                                            assert(queue_views(pending@)[j2] == (
                                            new_distance,
                                            tv,
                                            ));
                                        }
                                    }
                                    // the fresh queue entry is the witness for the
                                    // updated node; everybody else keeps theirs
                                    assert forall|i: int|
                                        0 <= i < dm1@.len() && dm1@[i].0 != cv implies (exists|
                                        j2: int,
                                    |
                                        0 <= j2 < pending@.len() && #[trigger] queue_views(
                                            pending@,
                                        )[j2] == (dm1@[i].1, dm1@[i].0)) || relaxed(
                                        g,
                                        dm1,
                                        (#[trigger] dm1@[i]).0,
                                    ) by {
                                        dm1.lemma_dist_at(i);
                                        if dm1@[i].0 == tv {
                                            assert(queue_views(pending@)[pending@.len() - 1] == (
                                            new_distance,
                                            tv,
                                            ));
                                            assert(dm1.dist_of(tv) == new_distance);
                                            assert(dm1@[i].1 == new_distance);
                                        } else {
                                            if i < dm0@.len() && dm0@[i] == dm1@[i] {
                                                dm0.lemma_dist_at(i);
                                                if exists|j2: int|
                                                    0 <= j2 < pq0.len() && #[trigger] queue_views(
                                                        pq0,
                                                    )[j2] == (dm0@[i].1, dm0@[i].0) {
                                                    let j2 = choose|j2: int|
                                                        0 <= j2 < pq0.len()
                                                            && #[trigger] queue_views(pq0)[j2] == (
                                                        dm0@[i].1,
                                                        dm0@[i].0,
                                                        );
                                                    assert(queue_views(pending@)[j2] == (
                                                    dm1@[i].1,
                                                    dm1@[i].0,
                                                    ));
                                                } else {
                                                    assert(relaxed(g, dm0, dm0@[i].0));
                                                    assert forall|t: int|
                                                        0 <= t < g.adj_of(dm1@[i].0).len() && (
                                                        #[trigger] g.adj_of(dm1@[i].0)[t]).1
                                                            is Some implies dm1.dist_of(dm1@[i].0)
                                                            + g.adj_of(dm1@[i].0)[t].1.unwrap()
                                                            >= u32::MAX || (dm1.dist_contains(
                                                            g.adj_of(dm1@[i].0)[t].0,
                                                        ) && dm1.dist_of(g.adj_of(dm1@[i].0)[t].0)
                                                            <= dm1.dist_of(dm1@[i].0) + g.adj_of(
                                                            dm1@[i].0,
                                                        )[t].1.unwrap()) by {
                                                        let tgt = g.adj_of(dm1@[i].0)[t].0;
                                                        if !(dm0.dist_of(dm1@[i].0) + g.adj_of(
                                                            dm1@[i].0,
                                                        )[t].1.unwrap() >= u32::MAX) {
                                                            if tgt == tv {
                                                                assert(dm1.dist_of(tv)
                                                                    <= dm0.dist_of(tv));
                                                            } else {
                                                                assert(dm1.dist_of(tgt)
                                                                    == dm0.dist_of(tgt));
                                                            }
                                                        }
                                                    }
                                                    assert(relaxed(g, dm1, dm1@[i].0));
                                                }
                                            }
                                        }
                                    }
                                    // the achieving walk for the new distance goes
                                    // through the current node
                                    assert(exists|ns: Seq<T::V>, ws: Seq<i32>|
                                        is_weighted_walk(g, ns, ws) && ns[0] == start@ && ns.last()
                                            == tv && walk_weight(ws) == new_distance) by {
                                        let (ns0, ws0) = choose|ns: Seq<T::V>, ws: Seq<i32>|
                                            is_weighted_walk(g, ns, ws) && ns[0] == start@
                                                && ns.last() == cv && walk_weight(ws)
                                                == current_distance;
                                        let ns1 = ns0.push(tv);
                                        let ws1 = ws0.push(w);
                                        assert(is_weighted_walk(g, ns1, ws1)) by {
                                            assert(forall|m: int|
                                                0 <= m < ws0.len() ==> #[trigger] ws1[m] == ws0[m]
                                                    && ns1[m] == ns0[m] && ns1[m + 1] == ns0[m
                                                    + 1]);
                                            assert(ns1[ws0.len() as int] == cv && ns1[ws1.len() as int]
                                                == tv && ws1[ws0.len() as int] == w);
                                            assert(weighted_edge(g, cv, tv, w)) by {
                                                assert(g.adj_of(cv)[k as int] == (tv, Some(w)));
                                            }
                                        }
                                        assert(ws1.drop_last() =~= ws0);
                                        assert(walk_weight(ws1) == current_distance + w);
                                    }
                                }
                            }
                        },
                        None => {},
                    }
                    k = k + 1;
                }
                proof {
                    assert(relaxed(g, distances, cv)) by {
                        assert(forall|t: int|
                            0 <= t < g.adj_of(cv).len() && (#[trigger] g.adj_of(cv)[t]).1 is Some
                                ==> distances.dist_of(cv) + g.adj_of(cv)[t].1.unwrap() >= u32::MAX
                                || (distances.dist_contains(g.adj_of(cv)[t].0)
                                && distances.dist_of(g.adj_of(cv)[t].0) <= distances.dist_of(cv)
                                + g.adj_of(cv)[t].1.unwrap()));
                    }
                    assert forall|i: int|
                        0 <= i < distances@.len() implies (exists|j2: int|
                        0 <= j2 < pending@.len() && #[trigger] queue_views(pending@)[j2] == (
                        distances@[i].1,
                        distances@[i].0,
                    )) || relaxed(g, distances, (#[trigger] distances@[i]).0) by {
                        if distances@[i].0 == cv {
                            distances.lemma_dist_at(i);
                        }
                    }
                }
            },
            None => {
                proof {
                    assert(g.adj_of(cv).len() == 0);
                    assert(relaxed(g, distances, cv));
                    assert forall|i: int|
                        0 <= i < distances@.len() implies (exists|j2: int|
                        0 <= j2 < pending@.len() && #[trigger] queue_views(pending@)[j2] == (
                        distances@[i].1,
                        distances@[i].0,
                    )) || relaxed(g, distances, (#[trigger] distances@[i]).0) by {
                        if distances@[i].0 == cv {
                            distances.lemma_dist_at(i);
                        }
                    }
                }
            },
        }
        proof {
            lemma_dist_sum_nonnegative(distances@);
            let dkeys = distances@.map_values(|e: (T::V, u32)| e.0);
            assert(forall|i: int| 0 <= i < dkeys.len() ==> #[trigger] dkeys[i] == distances@[i].0);
            lemma_distinct_views_bounded(g, start@, dkeys);
        }
    }
    proof {
        // with the queue empty, every recorded node is fully relaxed
        assert forall|v: T::V| #[trigger] distances.dist_contains(v) implies relaxed(
            g,
            distances,
            v,
        ) by {
            let i = distances.dist_index(v);
            distances.lemma_dist_at(i);
        }
        assert forall|v: T::V| #[trigger] distances.dist_contains(v) implies distances.dist_of(v)
            < u32::MAX by {
            let i = distances.dist_index(v);
            distances.lemma_dist_at(i);
        }
        assert forall|v: T::V| #[trigger] distances.dist_contains(v) implies exists|
            ns: Seq<T::V>,
            ws: Seq<i32>,
        |
            is_weighted_walk(g, ns, ws) && ns[0] == start@ && ns.last() == v && walk_weight(ws)
                == distances.dist_of(v) by {
            let i = distances.dist_index(v);
            distances.lemma_dist_at(i);
        }
        assert forall|ns: Seq<T::V>, ws: Seq<i32>|
            #[trigger] is_weighted_walk(g, ns, ws) && ns[0] == start@ implies (walk_weight(ws)
            < u32::MAX ==> distances.dist_contains(ns.last())) && (distances.dist_contains(
            ns.last(),
        ) ==> distances.dist_of(ns.last()) <= walk_weight(ws)) by {
            lemma_walk_lower_bound(g, distances, start@, ns, ws);
        }
    }
    distances
}

/// The graph holds at least one adjacency entry without a weight.
pub open spec fn has_unweighted_edge<T: View>(g: Graph<T>) -> bool {
    exists|i: int, k: int|
        0 <= i < g@.len() && 0 <= k < g@[i].1.len() && ((#[trigger] g@[i].1[k]).1) is None
}

/// Every weight in the graph lies within `[-b, b]`.
pub open spec fn weight_bound<T: View>(g: Graph<T>, b: int) -> bool {
    forall|u: T::V, m: int|
        0 <= m < g.adj_of(u).len() && (#[trigger] g.adj_of(u)[m]).1 is Some ==> -b <= g.adj_of(
            u,
        )[m].1.unwrap() <= b
}

/// The number of relaxation passes Bellman-Ford makes: one fewer than
/// there are nodes.
pub open spec fn bounded_passes<T: View>(g: Graph<T>) -> int {
    if g@.len() == 0 {
        0
    } else {
        g@.len() - 1
    }
}

/// `d` is the least weight of any weighted walk from `start` to `v` with
/// at most `bounded_passes` edges.
pub open spec fn min_bounded_dist<T: View>(g: Graph<T>, start: T::V, v: T::V, d: int) -> bool {
    &&& exists|ns: Seq<T::V>, ws: Seq<i32>|
        is_weighted_walk(g, ns, ws) && ns[0] == start && ns.last() == v && ws.len()
            <= bounded_passes(g) && walk_weight(ws) == d
    &&& forall|ns: Seq<T::V>, ws: Seq<i32>|
        #[trigger] is_weighted_walk(g, ns, ws) && ns[0] == start && ns.last() == v && ws.len()
            <= bounded_passes(g) ==> walk_weight(ws) >= d
}

/// Some edge still shortens a bounded least distance: the mark of a
/// negative cycle reachable from `start`.
pub open spec fn admits_improvement<T: View>(g: Graph<T>, start: T::V) -> bool {
    exists|u: T::V, v: T::V, w: i32, du: int, dv: int|
        #[trigger] weighted_edge(g, u, v, w) && #[trigger] min_bounded_dist(g, start, u, du)
            && #[trigger] min_bounded_dist(g, start, v, dv) && du + w < dv
}

/// How a Bellman-Ford run can fail.
#[derive(Clone, Copy, PartialEq, Eq, Debug)]
pub enum BellmanFordError {
    /// An adjacency entry carries no weight; every edge the algorithm
    /// relaxes must have one.
    MissingWeight,
    /// The graph holds a negative-weight cycle reachable from the start,
    /// so no least distance exists.
    NegativeCycle,
}

impl BellmanFordError {
    /// A human-readable description of the failure.
    pub fn message(&self) -> &'static str {
        match self {
            BellmanFordError::MissingWeight => "Bellman-Ford requires a weight on every edge",
            BellmanFordError::NegativeCycle => "Graph contains a negative weight cycle! Bellman-Ford will not be accurate for this graph",
        }
    }
}

/// A walk's weight is bounded by its length times the weight bound.
proof fn lemma_walk_weight_bounded<T: View>(g: Graph<T>, b: int, ns: Seq<T::V>, ws: Seq<i32>)
    requires
        b >= 0,
        weight_bound(g, b),
        is_weighted_walk(g, ns, ws),
    ensures
        -(ws.len() as int) * b <= walk_weight(ws) <= (ws.len() as int) * b,
    decreases ws.len(),
{
    if ws.len() == 0 {
    } else {
        let pn = ns.drop_last();
        let pw = ws.drop_last();
        assert(is_weighted_walk(g, pn, pw)) by {
            assert(forall|k: int|
                0 <= k < pw.len() ==> #[trigger] pw[k] == ws[k] && pn[k] == ns[k] && pn[k + 1]
                    == ns[k + 1]);
        }
        lemma_walk_weight_bounded(g, b, pn, pw);
        let u = pn.last();
        let wl = ws.last();
        assert(weighted_edge(g, u, ns.last(), wl)) by {
            assert(ns[ws.len() - 1] == u && ns[ws.len() as int] == ns.last());
        }
        let m = choose|m: int|
            0 <= m < g.adj_of(u).len() && #[trigger] g.adj_of(u)[m] == (ns.last(), Some(wl));
        assert(-b <= wl <= b) by {
            assert(g.adj_of(u)[m].1 is Some);
        }
        assert(-(ws.len() as int) * b <= walk_weight(pw) + wl <= (ws.len() as int) * b)
            by (nonlinear_arith)
            requires
                -(pw.len() as int) * b <= walk_weight(pw) <= (pw.len() as int) * b,
                -b <= wl <= b,
                pw.len() + 1 == ws.len(),
                b >= 0,
        ;
    }
}

/// The node-and-distance pairs of a working list, as views.
pub open spec fn entry_pairs_view<T: View, W>(s: Seq<(GraphNode<T>, W)>) -> Seq<(T::V, W)> {
    s.map_values(|e: (GraphNode<T>, W)| (e.0@, e.1))
}

/// The state Bellman-Ford maintains after `p` relaxation passes: the map
/// records exactly the nodes a weighted walk of at most `p` edges can
/// reach from `start`, each with the least such walk weight.
pub open spec fn bf_reaches<T: View>(
    g: Graph<T>,
    start: T::V,
    dm: DistanceMap<T, i32>,
    p: int,
) -> bool {
    &&& dm.dwf()
    &&& dm.dist_contains(start)
    &&& forall|i: int|
        0 <= i < dm@.len() ==> exists|ns: Seq<T::V>, ws: Seq<i32>|
            is_weighted_walk(g, ns, ws) && ns[0] == start && ns.last() == (#[trigger] dm@[i]).0
                && ws.len() <= p && walk_weight(ws) == dm@[i].1
    &&& forall|ns: Seq<T::V>, ws: Seq<i32>|
        #[trigger] is_weighted_walk(g, ns, ws) && ns[0] == start && ws.len() <= p
            ==> dm.dist_contains(ns.last()) && dm.dist_of(ns.last()) <= walk_weight(ws)
}

/// One snapshot-and-apply pass turns the `p - 1` state into the `p` state:
/// `dm` keeps every earlier node with a distance no worse than before,
/// records every update target at no more than the update's distance, and
/// every one of its values is achieved by a walk of at most `p` edges; the
/// update list covers each edge out of each earlier node.
proof fn lemma_bf_pass<T: View>(
    g: Graph<T>,
    start: T::V,
    dmp: DistanceMap<T, i32>,
    dm: DistanceMap<T, i32>,
    uv: Seq<(T::V, i32)>,
    p: int,
)
    requires
        p >= 1,
        g.wf(),
        bf_reaches(g, start, dmp, p - 1),
        dm.dwf(),
        forall|v: T::V|
            #[trigger] dmp.dist_contains(v) ==> dm.dist_contains(v) && dm.dist_of(v)
                <= dmp.dist_of(v),
        forall|m: int|
            0 <= m < uv.len() ==> dm.dist_contains((#[trigger] uv[m]).0) && dm.dist_of(uv[m].0)
                <= uv[m].1,
        updates_cover(g, dmp, uv, g@.len() as int),
        forall|i: int|
            0 <= i < dm@.len() ==> exists|ns: Seq<T::V>, ws: Seq<i32>|
                is_weighted_walk(g, ns, ws) && ns[0] == start && ns.last() == (#[trigger] dm@[i]).0
                    && ws.len() <= p && walk_weight(ws) == dm@[i].1,
        dm.dist_contains(start),
    ensures
        bf_reaches(g, start, dm, p),
{
    assert forall|ns: Seq<T::V>, ws: Seq<i32>|
        #[trigger] is_weighted_walk(g, ns, ws) && ns[0] == start && ws.len() <= p implies
        dm.dist_contains(ns.last()) && dm.dist_of(ns.last()) <= walk_weight(ws) by {
        if ws.len() <= p - 1 {
            assert(dmp.dist_contains(ns.last()) && dmp.dist_of(ns.last()) <= walk_weight(ws));
        } else {
            // the walk has exactly p edges: split off its last step
            let pn = ns.drop_last();
            let pw = ws.drop_last();
            assert(is_weighted_walk(g, pn, pw)) by {
                assert(forall|k: int|
                    0 <= k < pw.len() ==> #[trigger] pw[k] == ws[k] && pn[k] == ns[k] && pn[k + 1]
                        == ns[k + 1]);
            }
            assert(pn[0] == start);
            let u = pn.last();
            let wl = ws.last();
            assert(weighted_edge(g, u, ns.last(), wl)) by {
                assert(ns[ws.len() - 1] == u && ns[ws.len() as int] == ns.last());
            }
            assert(dmp.dist_contains(u) && dmp.dist_of(u) <= walk_weight(pw));
            let m = choose|m: int|
                0 <= m < g.adj_of(u).len() && #[trigger] g.adj_of(u)[m] == (ns.last(), Some(wl));
            assert(g.contains_node_spec(u));
            let i2 = g.key_index(u);
            g.lemma_adj_at(i2);
            assert(g@[i2].0 == u && g@[i2].1 == g.adj_of(u));
            assert(g@[i2].1[m].1 is Some && g@[i2].1[m].0 == ns.last() && g@[i2].1[m].1.unwrap()
                == wl);
            assert(updates_cover_row(g, dmp, uv, i2, g@[i2].1.len() as int));
            let mu = choose|mu: int|
                0 <= mu < uv.len() && (#[trigger] uv[mu]).0 == g@[i2].1[m].0 && uv[mu].1
                    == dmp.dist_of(g@[i2].0) + g@[i2].1[m].1.unwrap();
            assert(dm.dist_contains(ns.last()));
            assert(dm.dist_of(ns.last()) <= dmp.dist_of(u) + wl);
            assert(walk_weight(ws) == walk_weight(pw) + wl);
        }
    }
}

/// A pending update extends some recorded distance along one weighted
/// edge.
pub open spec fn update_entry_ok<T: View>(
    g: Graph<T>,
    dmp: DistanceMap<T, i32>,
    x: (T::V, i32),
) -> bool {
    exists|u: T::V, w: i32|
        dmp.dist_contains(u) && weighted_edge(g, u, x.0, w) && x.1 == dmp.dist_of(u) + w
}

/// Every pending update extends a recorded distance along one weighted
/// edge.
pub open spec fn updates_from<T: View>(
    g: Graph<T>,
    dmp: DistanceMap<T, i32>,
    uv: Seq<(T::V, i32)>,
) -> bool {
    forall|m: int| 0 <= m < uv.len() ==> update_entry_ok(g, dmp, #[trigger] uv[m])
}

/// The update list records the relaxation of the `k`-th edge out of the
/// node at position `i2`.
pub open spec fn update_recorded<T: View>(
    g: Graph<T>,
    dmp: DistanceMap<T, i32>,
    uv: Seq<(T::V, i32)>,
    i2: int,
    k: int,
) -> bool {
    exists|m: int|
        0 <= m < uv.len() && (#[trigger] uv[m]).0 == g@[i2].1[k].0 && uv[m].1 == dmp.dist_of(
            g@[i2].0,
        ) + g@[i2].1[k].1.unwrap()
}

/// The update list holds an entry for each of the first `upto` edges out
/// of the node at position `i2`.
pub open spec fn updates_cover_row<T: View>(
    g: Graph<T>,
    dmp: DistanceMap<T, i32>,
    uv: Seq<(T::V, i32)>,
    i2: int,
    upto: int,
) -> bool {
    forall|k: int|
        0 <= k < upto && (#[trigger] g@[i2].1[k]).1 is Some ==> update_recorded(g, dmp, uv, i2, k)
}

/// The update list covers every edge out of each of the first `upto_row`
/// recorded nodes.
pub open spec fn updates_cover<T: View>(
    g: Graph<T>,
    dmp: DistanceMap<T, i32>,
    uv: Seq<(T::V, i32)>,
    upto_row: int,
) -> bool {
    forall|i3: int|
        0 <= i3 < upto_row && dmp.dist_contains((#[trigger] g@[i3]).0) ==> updates_cover_row(
            g,
            dmp,
            uv,
            i3,
            g@[i3].1.len() as int,
        )
}

/// Appending one well-derived update keeps the provenance and coverage of
/// the list.
proof fn lemma_updates_grow<T: View>(
    g: Graph<T>,
    dmp: DistanceMap<T, i32>,
    up0: Seq<(T::V, i32)>,
    up1: Seq<(T::V, i32)>,
    u0: T::V,
    w0: i32,
    x: (T::V, i32),
)
    requires
        up1 == up0.push(x),
        updates_from(g, dmp, up0),
        dmp.dist_contains(u0),
        weighted_edge(g, u0, x.0, w0),
        x.1 == dmp.dist_of(u0) + w0,
    ensures
        updates_from(g, dmp, up1),
        forall|i3: int, upto: int|
            #[trigger] updates_cover_row(g, dmp, up0, i3, upto) ==> updates_cover_row(
                g,
                dmp,
                up1,
                i3,
                upto,
            ),
{
    assert(forall|m: int| 0 <= m < up0.len() ==> #[trigger] up1[m] == up0[m]);
    assert(up1[up0.len() as int] == x);
    assert forall|m: int| 0 <= m < up1.len() implies update_entry_ok(g, dmp, #[trigger] up1[m])
        by {
        if m == up0.len() {
            assert(dmp.dist_contains(u0) && weighted_edge(g, u0, up1[m].0, w0) && up1[m].1
                == dmp.dist_of(u0) + w0);
        } else {
            assert(up1[m] == up0[m]);
            assert(update_entry_ok(g, dmp, up0[m]));
        }
    }
    assert forall|i3: int, upto: int|
        #[trigger] updates_cover_row(g, dmp, up0, i3, upto) implies updates_cover_row(
        g,
        dmp,
        up1,
        i3,
        upto,
    ) by {
        assert forall|k: int|
            0 <= k < upto && (#[trigger] g@[i3].1[k]).1 is Some implies update_recorded(
            g,
            dmp,
            up1,
            i3,
            k,
        ) by {
            assert(update_recorded(g, dmp, up0, i3, k));
            let m = choose|m: int|
                0 <= m < up0.len() && (#[trigger] up0[m]).0 == g@[i3].1[k].0 && up0[m].1
                    == dmp.dist_of(g@[i3].0) + g@[i3].1[k].1.unwrap();
            assert(up1[m] == up0[m]);
        }
    }
}

/// Computes the least weighted distance from `start` to every node within
/// reach, tolerating negative weights: after one relaxation pass per node
/// beyond the first, computed from a snapshot of the previous pass, a
/// final scan reports a negative cycle if any edge still shortens a
/// distance. A graph with an unweighted edge is rejected up front. On
/// success the result records exactly the nodes reachable by a weighted
/// walk of at most one edge per further node, each at the least such walk
/// weight; nodes out of reach are absent.
#[verifier::rlimit(100)]
#[verifier::loop_isolation(true)]
pub fn bellman_ford<T: View + PartialEq + Clone>(graph: &Graph<T>, start: GraphNode<T>) -> (r:
    Result<DistanceMap<T, i32>, BellmanFordError>)
    requires
        eq_respects_view::<T>(),
        clone_respects_view::<T>(),
        graph.wf(),
        exists|b: int| 0 <= b && #[trigger] weight_bound(*graph, b) && graph@.len() * b <= i32::MAX,
    ensures
        (r == Err::<DistanceMap<T, i32>, BellmanFordError>(BellmanFordError::MissingWeight))
            <==> has_unweighted_edge(*graph),
        !has_unweighted_edge(*graph) ==> ((r == Err::<DistanceMap<T, i32>, BellmanFordError>(
            BellmanFordError::NegativeCycle,
        )) <==> admits_improvement(*graph, start@)),
        match r {
            Ok(m) => bf_reaches(*graph, start@, m, bounded_passes(*graph)),
            Err(_) => true,
        },
{
    let ghost g = *graph;
    let n = graph.node_count();

    // reject a graph with unweighted edges up front
    let mut i: usize = 0;
    while i < n
        invariant
            g == *graph,
            n == g@.len(),
            i <= n,
            forall|i2: int, k: int|
                0 <= i2 < i && 0 <= k < g@[i2].1.len() ==> ((#[trigger] g@[i2].1[k]).1) is Some,
        decreases n - i,
    {
        let e = graph.entry(i);
        let mut k: usize = 0;
        while k < e.1.len()
            invariant
                g == *graph,
                n == g@.len(),
                i < n,
                k <= e.1@.len(),
                entries_view(e.1@) == g@[i as int].1,
                forall|k2: int|
                    0 <= k2 < k ==> ((#[trigger] g@[i as int].1[k2]).1) is Some,
            decreases e.1@.len() - k,
        {
            if e.1[k].1.is_none() {
                proof {
                    assert(g@[i as int].1[k as int].1 is None);
                }
                return Err(BellmanFordError::MissingWeight);
            }
            k = k + 1;
        }
        i = i + 1;
    }
    proof {
        assert(!has_unweighted_edge(g));
    }

    let ghost b = choose|b: int|
        0 <= b && #[trigger] weight_bound(g, b) && g@.len() * b <= i32::MAX;
    let mut distances: DistanceMap<T, i32> = DistanceMap::new();
    let ghost dm_e = distances;
    distances.upsert(start, 0);
    proof {
        lemma_dm_push_effect(dm_e, distances, start@, 0);
        assert(distances@[0].0 == start@ && distances@[0].1 == 0);
        assert(bf_reaches(g, start@, distances, 0)) by {
            assert forall|i3: int| 0 <= i3 < distances@.len() implies exists|
                ns: Seq<T::V>,
                ws: Seq<i32>,
            |
                is_weighted_walk(g, ns, ws) && ns[0] == start@ && ns.last() == (
                #[trigger] distances@[i3]).0 && ws.len() <= 0 && walk_weight(ws) == distances@[i3].1 by {
                let ns = seq![start@];
                let ws = Seq::<i32>::empty();
                assert(is_weighted_walk(g, ns, ws) && ns[0] == start@ && ns.last() == start@
                    && ws.len() <= 0 && walk_weight(ws) == 0);
            }
            assert forall|ns: Seq<T::V>, ws: Seq<i32>|
                #[trigger] is_weighted_walk(g, ns, ws) && ns[0] == start@ && ws.len()
                    <= 0 implies distances.dist_contains(ns.last()) && distances.dist_of(ns.last())
                <= walk_weight(ws) by {
                assert(ns.last() == start@);
                distances.lemma_dist_at(0);
            }
        }
    }

    let mut pass: usize = 1;
    while pass < n
        invariant
            eq_respects_view::<T>(),
            clone_respects_view::<T>(),
            graph.wf(),
            g == *graph,
            n == g@.len(),
            1 <= pass,
            n >= 1 ==> pass <= n,
            n <= 1 ==> pass == 1,
            !has_unweighted_edge(g),
            0 <= b && weight_bound(g, b) && g@.len() * b <= i32::MAX,
            bf_reaches(g, start@, distances, pass - 1),
        decreases n - pass,
    {
        let ghost dmp = distances;
        let mut updates: Vec<(GraphNode<T>, i32)> = Vec::new();
        let mut i2: usize = 0;
        while i2 < n
            invariant
                eq_respects_view::<T>(),
                clone_respects_view::<T>(),
                graph.wf(),
                g == *graph,
                n == g@.len(),
                1 <= pass < n,
                i2 <= n,
                !has_unweighted_edge(g),
                0 <= b && weight_bound(g, b) && g@.len() * b <= i32::MAX,
                bf_reaches(g, start@, distances, pass - 1),
                dmp == distances,
                updates_from(g, dmp, entry_pairs_view(updates@)),
                updates_cover(g, dmp, entry_pairs_view(updates@), i2 as int),
            decreases n - i2,
        {
            let e = graph.entry(i2);
            let du_opt = distances.get(&e.0);
            match du_opt {
                Some(current_distance) => {
                    proof {
                        assert(distances.dist_contains(g@[i2 as int].0));
                        // the recorded distance is small enough that adding
                        // one more weight stays within range
                        let di = dmp.dist_index(g@[i2 as int].0);
                        dmp.lemma_dist_at(di);
                        let (nsx, wsx) = choose|ns: Seq<T::V>, ws: Seq<i32>|
                            is_weighted_walk(g, ns, ws) && ns[0] == start@ && ns.last() == dmp@[di].0 && ws.len() <= pass - 1 && walk_weight(ws) == dmp@[di].1;
                        lemma_walk_weight_bounded(g, b, nsx, wsx);
                        assert(-(n - 1) * b <= current_distance <= (n - 1) * b)
                            by (nonlinear_arith)
                            requires
                                -(wsx.len() as int) * b <= current_distance <= (wsx.len() as int)
                                    * b,
                                wsx.len() <= n - 1,
                                b >= 0,
                        ;
                    }
                    let mut k: usize = 0;
                    while k < e.1.len()
                        invariant
                            eq_respects_view::<T>(),
                            clone_respects_view::<T>(),
                            graph.wf(),
                            g == *graph,
                            n == g@.len(),
                            i2 < n,
                            k <= e.1@.len(),
                            !has_unweighted_edge(g),
                            0 <= b && weight_bound(g, b) && g@.len() * b <= i32::MAX,
                            dmp == distances,
                            entries_view(e.1@) == g@[i2 as int].1,
                            e.0@ == g@[i2 as int].0,
                            dmp.dist_contains(g@[i2 as int].0),
                            current_distance == dmp.dist_of(g@[i2 as int].0),
                            -(n - 1) * b <= current_distance <= (n - 1) * b,
                            updates_from(g, dmp, entry_pairs_view(updates@)),
                            updates_cover(g, dmp, entry_pairs_view(updates@), i2 as int),
                            updates_cover_row(
                                g,
                                dmp,
                                entry_pairs_view(updates@),
                                i2 as int,
                                k as int,
                            ),
                        decreases e.1@.len() - k,
                    {
                        let entry = &e.1[k];
                        match entry.1 {
                            Some(w) => {
                                proof {
                                    assert(g@[i2 as int].1[k as int] == (entry.0@, Some(w)));
                                    assert(weighted_edge(g, g@[i2 as int].0, entry.0@, w)) by {
                                        g.lemma_adj_at(i2 as int);
                                    }
                                    assert(-b <= w <= b) by {
                                        g.lemma_adj_at(i2 as int);
                                        assert(g.adj_of(g@[i2 as int].0)[k as int].1 == Some(w));
                                    }
                                    assert(i32::MIN <= current_distance + w <= i32::MAX)
                                        by (nonlinear_arith)
                                        requires
                                            -(n - 1) * b <= current_distance <= (n - 1) * b,
                                            -b <= w <= b,
                                            b >= 0,
                                            n >= 1,
                                            (n as int) * b <= i32::MAX,
                                    ;
                                }
                                let new_distance = current_distance + w;
                                let ghost up0 = entry_pairs_view(updates@);
                                updates.push(
                                    (GraphNode { value: clone_value(&entry.0.value) }, new_distance),
                                );
                                proof {
                                    let up1 = entry_pairs_view(updates@);
                                    assert(up1 =~= up0.push((entry.0@, new_distance)));
                                    lemma_updates_grow(
                                        g,
                                        dmp,
                                        up0,
                                        up1,
                                        g@[i2 as int].0,
                                        w,
                                        (entry.0@, new_distance),
                                    );
                                    assert(updates_cover_row(g, dmp, up1, i2 as int, k + 1)) by {
                                        assert(updates_cover_row(g, dmp, up1, i2 as int, k as int));
                                        assert(up1[up0.len() as int].0 == g@[i2 as int].1[k as int].0
                                            && up1[up0.len() as int].1 == dmp.dist_of(
                                            g@[i2 as int].0,
                                        ) + g@[i2 as int].1[k as int].1.unwrap());
                                        assert forall|k2: int|
                                            0 <= k2 < k + 1 && (#[trigger] g@[i2 as int].1[k2]).1
                                                is Some implies update_recorded(
                                            g,
                                            dmp,
                                            up1,
                                            i2 as int,
                                            k2,
                                        ) by {
                                            if k2 == k {
                                                assert(update_recorded(g, dmp, up1, i2 as int, k2));
                                            }
                                        }
                                    }
                                    assert forall|i3: int|
                                        0 <= i3 < i2 && dmp.dist_contains(
                                            (#[trigger] g@[i3]).0,
                                        ) implies updates_cover_row(
                                        g,
                                        dmp,
                                        up1,
                                        i3,
                                        g@[i3].1.len() as int,
                                    ) by {
                                        assert(updates_cover_row(
                                            g,
                                            dmp,
                                            up0,
                                            i3,
                                            g@[i3].1.len() as int,
                                        ));
                                    }
                                }
                            },
                            None => {
                                proof {
                                    assert(g@[i2 as int].1[k as int].1 is None);
                                    assert(false);
                                }
                            },
                        }
                        k = k + 1;
                    }
                    proof {
                        assert forall|i3: int|
                            0 <= i3 < i2 + 1 && dmp.dist_contains(
                                (#[trigger] g@[i3]).0,
                            ) implies updates_cover_row(
                            g,
                            dmp,
                            entry_pairs_view(updates@),
                            i3,
                            g@[i3].1.len() as int,
                        ) by {
                            if i3 == i2 {
                                assert(updates_cover_row(
                                    g,
                                    dmp,
                                    entry_pairs_view(updates@),
                                    i3,
                                    k as int,
                                ));
                            }
                        }
                    }
                },
                None => {
                    proof {
                        assert(!dmp.dist_contains(g@[i2 as int].0));
                        assert forall|i3: int|
                            0 <= i3 < i2 + 1 && dmp.dist_contains(
                                (#[trigger] g@[i3]).0,
                            ) implies updates_cover_row(
                            g,
                            dmp,
                            entry_pairs_view(updates@),
                            i3,
                            g@[i3].1.len() as int,
                        ) by {}
                    }
                },
            }
            i2 = i2 + 1;
        }
        // apply the collected updates to the snapshot
        let ghost uv = entry_pairs_view(updates@);
        let mut m: usize = 0;
        while m < updates.len()
            invariant
                eq_respects_view::<T>(),
                clone_respects_view::<T>(),
                graph.wf(),
                g == *graph,
                n == g@.len(),
                1 <= pass < n,
                m <= updates@.len(),
                uv == entry_pairs_view(updates@),
                0 <= b && weight_bound(g, b) && g@.len() * b <= i32::MAX,
                bf_reaches(g, start@, dmp, pass - 1),
                distances.dwf(),
                distances.dist_contains(start@),
                forall|v: T::V|
                    #[trigger] dmp.dist_contains(v) ==> distances.dist_contains(v)
                        && distances.dist_of(v) <= dmp.dist_of(v),
                forall|m2: int|
                    0 <= m2 < m ==> distances.dist_contains((#[trigger] uv[m2]).0)
                        && distances.dist_of(uv[m2].0) <= uv[m2].1,
                updates_from(g, dmp, uv),
                forall|i3: int|
                    0 <= i3 < distances@.len() ==> exists|ns: Seq<T::V>, ws: Seq<i32>|
                        is_weighted_walk(g, ns, ws) && ns[0] == start@ && ns.last() == (
                        #[trigger] distances@[i3]).0 && ws.len() <= pass && walk_weight(ws)
                            == distances@[i3].1,
            decreases updates@.len() - m,
        {
            let e = &updates[m];
            let ghost dm0 = distances;
            let existing = distances.get(&e.0);
            let replace = match existing {
                Some(x) => e.1 < x,
                None => true,
            };
            if replace {
                distances.upsert(GraphNode { value: clone_value(&e.0.value) }, e.1);
                proof {
                    let tv = uv[m as int].0;
                    assert(e.0@ == tv && e.1 == uv[m as int].1);
                    if dm0.dist_contains(tv) {
                        let ti = dm0.dist_index(tv);
                        dm0.lemma_dist_at(ti);
                        lemma_dm_update_effect(dm0, distances, ti, e.1);
                    } else {
                        lemma_dm_push_effect(dm0, distances, tv, e.1);
                    }
                }
            }
            proof {
                let tv = uv[m as int].0;
                assert(distances.dist_contains(tv) && distances.dist_of(tv) <= uv[m as int].1);
                // the achieving walk of a stored update value goes through
                // the node the update came from
                assert forall|i3: int| 0 <= i3 < distances@.len() implies exists|
                    ns: Seq<T::V>,
                    ws: Seq<i32>,
                |
                    is_weighted_walk(g, ns, ws) && ns[0] == start@ && ns.last() == (
                    #[trigger] distances@[i3]).0 && ws.len() <= pass && walk_weight(ws)
                        == distances@[i3].1 by {
                    if i3 < dm0@.len() && distances@[i3] == dm0@[i3] {
                    } else {
                        let (u, w) = choose|u: T::V, w: i32|
                            dmp.dist_contains(u) && weighted_edge(g, u, (#[trigger] uv[m as int]).0, w)
                                && uv[m as int].1 == dmp.dist_of(u) + w;
                        let di = dmp.dist_index(u);
                        dmp.lemma_dist_at(di);
                        let (nsx, wsx) = choose|ns: Seq<T::V>, ws: Seq<i32>|
                            is_weighted_walk(g, ns, ws) && ns[0] == start@ && ns.last() == dmp@[di].0 && ws.len() <= pass - 1 && walk_weight(ws) == dmp@[di].1;
                        let ns1 = nsx.push(tv);
                        let ws1 = wsx.push(w);
                        assert(is_weighted_walk(g, ns1, ws1)) by {
                            assert(forall|k2: int|
                                0 <= k2 < wsx.len() ==> #[trigger] ws1[k2] == wsx[k2] && ns1[k2]
                                    == nsx[k2] && ns1[k2 + 1] == nsx[k2 + 1]);
                            assert(ns1[wsx.len() as int] == u && ns1[ws1.len() as int] == tv
                                && ws1[wsx.len() as int] == w);
                        }
                        assert(ws1.drop_last() =~= wsx);
                        assert(walk_weight(ws1) == dmp.dist_of(u) + w);
                        assert(distances@[i3].0 == tv && distances@[i3].1 == uv[m as int].1);
                    }
                }
            }
            m = m + 1;
        }
        proof {
            lemma_bf_pass(g, start@, dmp, distances, uv, pass as int);
        }
        pass = pass + 1;
    }

    // the final scan: any edge that still shortens a distance betrays a
    // negative cycle
    proof {
        assert(bf_reaches(g, start@, distances, bounded_passes(g)));
    }
    let mut i4: usize = 0;
    while i4 < n
        invariant
            eq_respects_view::<T>(),
            clone_respects_view::<T>(),
            graph.wf(),
            g == *graph,
            n == g@.len(),
            i4 <= n,
            !has_unweighted_edge(g),
            0 <= b && weight_bound(g, b) && g@.len() * b <= i32::MAX,
            bf_reaches(g, start@, distances, bounded_passes(g)),
            forall|i3: int, k: int|
                0 <= i3 < i4 && 0 <= k < g@[i3].1.len() && distances.dist_contains(g@[i3].0)
                    && distances.dist_contains((#[trigger] g@[i3].1[k]).0) ==> distances.dist_of(
                    g@[i3].0,
                ) + g@[i3].1[k].1.unwrap() >= distances.dist_of(g@[i3].1[k].0),
        decreases n - i4,
    {
        let e = graph.entry(i4);
        let du_opt = distances.get(&e.0);
        match du_opt {
            Some(current_distance) => {
                let mut k: usize = 0;
                while k < e.1.len()
                    invariant
                        eq_respects_view::<T>(),
                        graph.wf(),
                        g == *graph,
                        n == g@.len(),
                        i4 < n,
                        k <= e.1@.len(),
                        !has_unweighted_edge(g),
                        0 <= b && weight_bound(g, b) && g@.len() * b <= i32::MAX,
                        bf_reaches(g, start@, distances, bounded_passes(g)),
                        entries_view(e.1@) == g@[i4 as int].1,
                        e.0@ == g@[i4 as int].0,
                        distances.dist_contains(g@[i4 as int].0),
                        current_distance == distances.dist_of(g@[i4 as int].0),
                        forall|i3: int, k2: int|
                            0 <= i3 < i4 && 0 <= k2 < g@[i3].1.len() && distances.dist_contains(
                                g@[i3].0,
                            ) && distances.dist_contains((#[trigger] g@[i3].1[k2]).0)
                                ==> distances.dist_of(g@[i3].0) + g@[i3].1[k2].1.unwrap()
                                >= distances.dist_of(g@[i3].1[k2].0),
                        forall|k2: int|
                            0 <= k2 < k && distances.dist_contains((#[trigger] g@[i4 as int].1[k2]).0)
                                ==> distances.dist_of(g@[i4 as int].0) + g@[i4 as int].1[k2].1.unwrap() >= distances.dist_of(g@[i4 as int].1[k2].0),
                    decreases e.1@.len() - k,
                {
                    let entry = &e.1[k];
                    match entry.1 {
                        Some(w) => {
                            proof {
                                assert(g@[i4 as int].1[k as int] == (entry.0@, Some(w)));
                                let di = distances.dist_index(g@[i4 as int].0);
                                distances.lemma_dist_at(di);
                                let (nsx, wsx) = choose|ns: Seq<T::V>, ws: Seq<i32>|
                                    is_weighted_walk(g, ns, ws) && ns[0] == start@ && ns.last()
                                        == distances@[di].0 && ws.len() <= bounded_passes(g)
                                        && walk_weight(ws) == distances@[di].1;
                                lemma_walk_weight_bounded(g, b, nsx, wsx);
                                assert(weighted_edge(g, g@[i4 as int].0, entry.0@, w)) by {
                                    g.lemma_adj_at(i4 as int);
                                }
                                assert(-b <= w <= b) by {
                                    g.lemma_adj_at(i4 as int);
                                    assert(g.adj_of(g@[i4 as int].0)[k as int].1 == Some(w));
                                }
                                assert(i32::MIN <= current_distance + w <= i32::MAX)
                                    by (nonlinear_arith)
                                    requires
                                        -(wsx.len() as int) * b <= current_distance <= (
                                        wsx.len() as int) * b,
                                        wsx.len() <= n - 1,
                                        -b <= w <= b,
                                        b >= 0,
                                        n >= 1,
                                        (n as int) * b <= i32::MAX,
                                ;
                            }
                            let cand = current_distance + w;
                            let dv_opt = distances.get(&entry.0);
                            match dv_opt {
                                Some(dv) => {
                                    if cand < dv {
                                        proof {
                                            // both endpoints carry their bounded
                                            // least distances, and this edge
                                            // improves one: a negative cycle
                                            let u = g@[i4 as int].0;
                                            let v = entry.0@;
                                            assert(min_bounded_dist(
                                                g,
                                                start@,
                                                u,
                                                current_distance as int,
                                            )) by {
                                                let di = distances.dist_index(u);
                                                distances.lemma_dist_at(di);
                                            }
                                            assert(min_bounded_dist(g, start@, v, dv as int)) by {
                                                let di = distances.dist_index(v);
                                                distances.lemma_dist_at(di);
                                            }
                                            assert(admits_improvement(g, start@));
                                        }
                                        return Err(BellmanFordError::NegativeCycle);
                                    }
                                },
                                None => {},
                            }
                        },
                        None => {
                            proof {
                                assert(g@[i4 as int].1[k as int].1 is None);
                                assert(false);
                            }
                        },
                    }
                    k = k + 1;
                }
            },
            None => {},
        }
        i4 = i4 + 1;
    }
    proof {
        // the scan found nothing to improve, so no edge admits one
        assert(!admits_improvement(g, start@)) by {
            if admits_improvement(g, start@) {
                let (u, v, w, du, dv) = choose|u: T::V, v: T::V, w: i32, du: int, dv: int|
                    #[trigger] weighted_edge(g, u, v, w) && #[trigger] min_bounded_dist(
                        g,
                        start@,
                        u,
                        du,
                    ) && #[trigger] min_bounded_dist(g, start@, v, dv) && du + w < dv;
                let (nsu, wsu) = choose|ns: Seq<T::V>, ws: Seq<i32>|
                    is_weighted_walk(g, ns, ws) && ns[0] == start@ && ns.last() == u && ws.len()
                        <= bounded_passes(g) && walk_weight(ws) == du;
                let (nsv, wsv) = choose|ns: Seq<T::V>, ws: Seq<i32>|
                    is_weighted_walk(g, ns, ws) && ns[0] == start@ && ns.last() == v && ws.len()
                        <= bounded_passes(g) && walk_weight(ws) == dv;
                assert(distances.dist_contains(u) && distances.dist_of(u) <= du);
                assert(distances.dist_contains(v) && distances.dist_of(v) <= dv);
                // the recorded distances are exactly the bounded least ones
                let iu = distances.dist_index(u);
                distances.lemma_dist_at(iu);
                let (nsu2, wsu2) = choose|ns: Seq<T::V>, ws: Seq<i32>|
                    is_weighted_walk(g, ns, ws) && ns[0] == start@ && ns.last() == distances@[iu].0 && ws.len() <= bounded_passes(g) && walk_weight(ws) == distances@[iu].1;
                assert(du <= distances.dist_of(u));
                let iv = distances.dist_index(v);
                distances.lemma_dist_at(iv);
                let (nsv2, wsv2) = choose|ns: Seq<T::V>, ws: Seq<i32>|
                    is_weighted_walk(g, ns, ws) && ns[0] == start@ && ns.last() == distances@[iv].0 && ws.len() <= bounded_passes(g) && walk_weight(ws) == distances@[iv].1;
                assert(dv <= distances.dist_of(v));
                // `u` is a node of the graph, since an edge leaves it
                let me = choose|me: int|
                    0 <= me < g.adj_of(u).len() && #[trigger] g.adj_of(u)[me] == (v, Some(w));
                assert(g.contains_node_spec(u));
                let gi = g.key_index(u);
                g.lemma_adj_at(gi);
                assert(g@[gi].1[me].1 is Some);
                assert(distances.dist_of(g@[gi].0) + g@[gi].1[me].1.unwrap() >= distances.dist_of(
                    g@[gi].1[me].0,
                ));
            }
        }
    }
    Ok(distances)
}

/// Walk weights add over concatenation.
proof fn lemma_walk_weight_concat(a: Seq<i32>, b: Seq<i32>)
    ensures
        walk_weight(a + b) == walk_weight(a) + walk_weight(b),
    decreases b.len(),
{
    if b.len() == 0 {
        assert(a + b =~= a);
    } else {
        assert((a + b).drop_last() =~= a + b.drop_last());
        lemma_walk_weight_concat(a, b.drop_last());
        assert((a + b).last() == b.last());
    }
}

/// Every node on a weighted walk with at least one edge is a node of the
/// graph.
proof fn lemma_walk_nodes_in_keys<T: View>(g: Graph<T>, ns: Seq<T::V>, ws: Seq<i32>)
    requires
        g.wf(),
        is_weighted_walk(g, ns, ws),
        ws.len() >= 1,
    ensures
        forall|i: int| 0 <= i < ns.len() ==> g.contains_node_spec(#[trigger] ns[i]),
{
    assert forall|i: int| 0 <= i < ns.len() implies g.contains_node_spec(#[trigger] ns[i]) by {
        if i < ns.len() - 1 {
            assert(weighted_edge(g, ns[i], ns[i + 1], ws[i]));
            let m = choose|m: int|
                0 <= m < g.adj_of(ns[i]).len() && #[trigger] g.adj_of(ns[i])[m] == (
                    ns[i + 1],
                    Some(ws[i]),
                );
            assert(g.adj_of(ns[i]).len() > 0);
        } else {
            let k = ws.len() - 1;
            assert(weighted_edge(g, ns[k], ns[k + 1], ws[k]));
            let m = choose|m: int|
                0 <= m < g.adj_of(ns[k]).len() && #[trigger] g.adj_of(ns[k])[m] == (
                    ns[k + 1],
                    Some(ws[k]),
                );
            assert(g.adj_of(ns[k]).len() > 0);
            assert(g.contains_node_spec(ns[k]));
            let gi = g.key_index(ns[k]);
            g.lemma_adj_at(gi);
            assert(g.contains_node_spec(g@[gi].1[m].0));
        }
    }
}

/// A sequence of distinct node views drawn from the graph's keys is no
/// longer than the key sequence.
proof fn lemma_distinct_keys_bounded<T: View>(g: Graph<T>, s: Seq<T::V>)
    requires
        forall|i: int, j: int| 0 <= i < j < s.len() ==> s[i] != s[j],
        forall|k: int| 0 <= k < s.len() ==> g.contains_node_spec(#[trigger] s[k]),
    ensures
        s.len() <= g@.len(),
{
    let allowed = g.keys().to_set();
    assert forall|k: int| 0 <= k < s.len() implies allowed.contains(#[trigger] s[k]) by {
        let i = choose|i: int| 0 <= i < g@.len() && (#[trigger] g@[i]).0 == s[k];
        assert(g.keys()[i] == s[k]);
    }
    assert(s.to_set().subset_of(allowed));
    s.unique_seq_to_set();
    g.keys().lemma_cardinality_of_set();
    vstd::set_lib::lemma_len_subset(s.to_set(), allowed);
    assert(g.keys().len() == g@.len());
}

/// Any weighted walk can be shortened to one of at most `bounded_passes`
/// edges with the same endpoints by cutting out repeated nodes; where the
/// weights are non-negative the shortened walk is no heavier.
proof fn lemma_walk_shorten<T: View>(g: Graph<T>, ns: Seq<T::V>, ws: Seq<i32>)
    requires
        g.wf(),
        is_weighted_walk(g, ns, ws),
    ensures
        exists|ns2: Seq<T::V>, ws2: Seq<i32>|
            is_weighted_walk(g, ns2, ws2) && ns2[0] == ns[0] && ns2.last() == ns.last()
                && ws2.len() <= bounded_passes(g) && (!nonnegative_weights(g) || walk_weight(ws2)
                <= walk_weight(ws)),
    decreases ws.len(),
{
    if ws.len() <= bounded_passes(g) {
        assert(is_weighted_walk(g, ns, ws) && ns[0] == ns[0] && ns.last() == ns.last() && ws.len()
            <= bounded_passes(g) && (!nonnegative_weights(g) || walk_weight(ws) <= walk_weight(
            ws,
        )));
    } else {
        // the walk is longer than the number of nodes, so some node repeats
        lemma_walk_nodes_in_keys(g, ns, ws);
        assert(exists|i: int, j: int| 0 <= i < j < ns.len() && ns[i] == ns[j]) by {
            if forall|i: int, j: int| 0 <= i < j < ns.len() ==> ns[i] != ns[j] {
                lemma_distinct_keys_bounded(g, ns);
            }
        }
        let (i, j) = choose|i: int, j: int| 0 <= i < j < ns.len() && ns[i] == ns[j];
        let ns2 = ns.take(i + 1) + ns.skip(j + 1);
        let ws2 = ws.take(i) + ws.skip(j);
        assert(ns2.len() == ws2.len() + 1);
        assert(is_weighted_walk(g, ns2, ws2)) by {
            assert forall|k: int| 0 <= k < ws2.len() implies weighted_edge(
                g,
                ns2[k],
                ns2[k + 1],
                #[trigger] ws2[k],
            ) by {
                if k < i {
                    assert(ns2[k] == ns[k] && ns2[k + 1] == ns[k + 1] && ws2[k] == ws[k]);
                } else if k == i {
                    assert(ns2[k] == ns[i] && ns2[k + 1] == ns[j + 1] && ws2[k] == ws[j]);
                    assert(weighted_edge(g, ns[j], ns[j + 1], ws[j]));
                } else {
                    assert(ns2[k] == ns[k - i + j] && ns2[k + 1] == ns[k - i + j + 1] && ws2[k]
                        == ws[k - i + j]);
                    assert(weighted_edge(g, ns[k - i + j], ns[k - i + j + 1], ws[k - i + j]));
                }
            }
        }
        assert(ns2[0] == ns[0] && ns2.last() == ns.last());
        assert(walk_weight(ws2) == walk_weight(ws) - walk_weight(ws.subrange(i, j))) by {
            lemma_walk_weight_concat(ws.take(i), ws.skip(j));
            lemma_walk_weight_concat(ws.take(i), ws.subrange(i, j));
            lemma_walk_weight_concat(ws.take(i) + ws.subrange(i, j), ws.skip(j));
            assert(ws.take(i) + ws.subrange(i, j) =~= ws.take(j));
            assert(ws.take(j) + ws.skip(j) =~= ws);
        }
        if nonnegative_weights(g) {
            // the removed loop weighs at least nothing
            assert(walk_weight(ws.subrange(i, j)) >= 0) by {
                lemma_segment_nonnegative(g, ns, ws, i, j);
            }
        }
        lemma_walk_shorten(g, ns2, ws2);
        let (ns3, ws3) = choose|ns3: Seq<T::V>, ws3: Seq<i32>|
            is_weighted_walk(g, ns3, ws3) && ns3[0] == ns2[0] && ns3.last() == ns2.last()
                && ws3.len() <= bounded_passes(g) && (!nonnegative_weights(g) || walk_weight(ws3)
                <= walk_weight(ws2));
        assert(is_weighted_walk(g, ns3, ws3) && ns3[0] == ns[0] && ns3.last() == ns.last()
            && ws3.len() <= bounded_passes(g) && (!nonnegative_weights(g) || walk_weight(ws3)
            <= walk_weight(ws)));
    }
}

/// A stretch of a walk over non-negative weights weighs at least nothing.
proof fn lemma_segment_nonnegative<T: View>(
    g: Graph<T>,
    ns: Seq<T::V>,
    ws: Seq<i32>,
    i: int,
    j: int,
)
    requires
        nonnegative_weights(g),
        is_weighted_walk(g, ns, ws),
        0 <= i <= j <= ws.len(),
    ensures
        walk_weight(ws.subrange(i, j)) >= 0,
    decreases j - i,
{
    if i < j {
        lemma_segment_nonnegative(g, ns, ws, i, j - 1);
        assert(ws.subrange(i, j).drop_last() =~= ws.subrange(i, j - 1));
        assert(ws.subrange(i, j).last() == ws[j - 1]);
        assert(weighted_edge(g, ns[j - 1], ns[j], ws[j - 1]));
        let m = choose|m: int|
            0 <= m < g.adj_of(ns[j - 1]).len() && #[trigger] g.adj_of(ns[j - 1])[m] == (
                ns[j],
                Some(ws[j - 1]),
            );
        assert(g.adj_of(ns[j - 1])[m].1 is Some);
    }
}

/// The distances Bellman-Ford is left with are the bounded least ones:
/// each recorded node carries `min_bounded_dist`.
proof fn lemma_bf_reaches_gives_min<T: View>(
    g: Graph<T>,
    start: T::V,
    dm: DistanceMap<T, i32>,
    v: T::V,
)
    requires
        bf_reaches(g, start, dm, bounded_passes(g)),
        dm.dist_contains(v),
    ensures
        min_bounded_dist(g, start, v, dm.dist_of(v) as int),
{
    let i = dm.dist_index(v);
    dm.lemma_dist_at(i);
}

/// A graph whose bounded least distances no edge can improve carries no
/// negative cycle within reach of `start`: around any cycle a weighted
/// walk from `start` can enter, the weights sum to at least nothing. With
/// the contract of `bellman_ford`, a run that returns distances instead of
/// the cycle error certifies every reachable cycle non-negative.
pub proof fn lemma_no_improvement_no_negative_cycle<T: View>(
    g: Graph<T>,
    start: T::V,
    dm: DistanceMap<T, i32>,
    pns: Seq<T::V>,
    pws: Seq<i32>,
    cns: Seq<T::V>,
    cws: Seq<i32>,
)
    requires
        g.wf(),
        bf_reaches(g, start, dm, bounded_passes(g)),
        !admits_improvement(g, start),
        is_weighted_walk(g, pns, pws),
        pns[0] == start,
        is_weighted_walk(g, cns, cws),
        cns[0] == pns.last(),
        cns.last() == cns[0],
        cws.len() >= 1,
    ensures
        walk_weight(cws) >= 0,
{
    // every node of the cycle is within bounded reach of `start`, so it
    // carries its bounded least distance
    assert forall|k: int| 0 <= k < cns.len() implies dm.dist_contains(#[trigger] cns[k]) by {
        let access_ns = pns + cns.take(k + 1).skip(1);
        let access_ws = pws + cws.take(k);
        assert(is_weighted_walk(g, access_ns, access_ws)) by {
            assert forall|m: int| 0 <= m < access_ws.len() implies weighted_edge(
                g,
                access_ns[m],
                access_ns[m + 1],
                #[trigger] access_ws[m],
            ) by {
                if m < pws.len() {
                    assert(access_ns[m] == pns[m] && access_ns[m + 1] == (if m + 1 < pns.len() {
                        pns[m + 1]
                    } else {
                        cns[1]
                    }) && access_ws[m] == pws[m]);
                    if m + 1 == pns.len() {
                        assert(weighted_edge(g, pns[m], pns[m + 1], pws[m]));
                    }
                } else {
                    let c = m - pws.len();
                    assert(access_ws[m] == cws[c]);
                    assert(access_ns[m] == cns[c] && access_ns[m + 1] == cns[c + 1]) by {
                        if c == 0 {
                            assert(access_ns[m] == pns.last());
                        }
                    }
                    assert(weighted_edge(g, cns[c], cns[c + 1], cws[c]));
                }
            }
        }
        assert(access_ns[0] == start);
        assert(access_ns.last() == cns[k]) by {
            if k == 0 {
                assert(access_ns.len() == pns.len());
                assert(access_ns.last() == pns.last());
            }
        }
        lemma_walk_shorten(g, access_ns, access_ws);
        let (sn, sw) = choose|sn: Seq<T::V>, sw: Seq<i32>|
            is_weighted_walk(g, sn, sw) && sn[0] == access_ns[0] && sn.last() == access_ns.last()
                && sw.len() <= bounded_passes(g) && (!nonnegative_weights(g) || walk_weight(sw)
                <= walk_weight(access_ws));
        assert(dm.dist_contains(sn.last()));
    }
    // chaining the non-improvement of each cycle edge around the cycle
    // bounds the start of the cycle by itself plus the cycle's weight
    assert forall|k: int| 0 <= k < cns.len() implies dm.dist_of(#[trigger] cns[k]) as int
        <= dm.dist_of(cns[0]) + walk_weight(cws.take(k)) by {
        lemma_cycle_chain(g, start, dm, cns, cws, k);
    }
    assert(dm.dist_of(cns.last()) <= dm.dist_of(cns[0]) + walk_weight(cws.take(cws.len() as int)));
    assert(cws.take(cws.len() as int) =~= cws);
    assert(dm.dist_of(cns[0]) <= dm.dist_of(cns[0]) + walk_weight(cws));
}

/// Along a walk whose nodes all carry their bounded least distances, no
/// edge of which admits an improvement, the distances grow at most by the
/// weights.
proof fn lemma_cycle_chain<T: View>(
    g: Graph<T>,
    start: T::V,
    dm: DistanceMap<T, i32>,
    cns: Seq<T::V>,
    cws: Seq<i32>,
    k: int,
)
    requires
        g.wf(),
        bf_reaches(g, start, dm, bounded_passes(g)),
        !admits_improvement(g, start),
        is_weighted_walk(g, cns, cws),
        0 <= k < cns.len(),
        forall|m: int| 0 <= m < cns.len() ==> dm.dist_contains(#[trigger] cns[m]),
    ensures
        dm.dist_of(cns[k]) as int <= dm.dist_of(cns[0]) + walk_weight(cws.take(k)),
    decreases k,
{
    if k == 0 {
        assert(cws.take(0) =~= Seq::<i32>::empty());
    } else {
        lemma_cycle_chain(g, start, dm, cns, cws, k - 1);
        let u = cns[k - 1];
        let v = cns[k];
        let w = cws[k - 1];
        assert(weighted_edge(g, u, v, w));
        lemma_bf_reaches_gives_min(g, start, dm, u);
        lemma_bf_reaches_gives_min(g, start, dm, v);
        // were the edge an improvement, `admits_improvement` would hold
        assert(dm.dist_of(u) + w >= dm.dist_of(v)) by {
            if dm.dist_of(u) + w < dm.dist_of(v) {
                assert(weighted_edge(g, u, v, w) && min_bounded_dist(
                    g,
                    start,
                    u,
                    dm.dist_of(u) as int,
                ) && min_bounded_dist(g, start, v, dm.dist_of(v) as int) && dm.dist_of(u) as int + w
                    < dm.dist_of(v) as int);
                assert(admits_improvement(g, start));
            }
        }
        assert(cws.take(k).drop_last() =~= cws.take(k - 1));
        assert(cws.take(k).last() == cws[k - 1]);
    }
}

/// With only non-negative weights, no edge can improve a bounded least
/// distance: extending the least walk to one endpoint by the edge gives a
/// walk to the other that shortens to a bounded one no heavier. Together
/// with the contract of `bellman_ford`, a run on such a graph never
/// reports the negative-cycle error.
pub proof fn lemma_nonnegative_weights_no_improvement<T: View>(g: Graph<T>, start: T::V)
    requires
        g.wf(),
        nonnegative_weights(g),
    ensures
        !admits_improvement(g, start),
{
    if admits_improvement(g, start) {
        let (u, v, w, du, dv) = choose|u: T::V, v: T::V, w: i32, du: int, dv: int|
            #[trigger] weighted_edge(g, u, v, w) && #[trigger] min_bounded_dist(g, start, u, du)
                && #[trigger] min_bounded_dist(g, start, v, dv) && du + w < dv;
        let (ns, ws) = choose|ns: Seq<T::V>, ws: Seq<i32>|
            is_weighted_walk(g, ns, ws) && ns[0] == start && ns.last() == u && ws.len()
                <= bounded_passes(g) && walk_weight(ws) == du;
        let ns1 = ns.push(v);
        let ws1 = ws.push(w);
        assert(is_weighted_walk(g, ns1, ws1)) by {
            assert(forall|k: int|
                0 <= k < ws.len() ==> #[trigger] ws1[k] == ws[k] && ns1[k] == ns[k] && ns1[k + 1]
                    == ns[k + 1]);
            assert(ns1[ws.len() as int] == u && ns1[ws1.len() as int] == v && ws1[ws.len() as int]
                == w);
        }
        assert(ws1.drop_last() =~= ws);
        assert(walk_weight(ws1) == du + w);
        lemma_walk_shorten(g, ns1, ws1);
        let (sn, sw) = choose|sn: Seq<T::V>, sw: Seq<i32>|
            is_weighted_walk(g, sn, sw) && sn[0] == ns1[0] && sn.last() == ns1.last() && sw.len()
                <= bounded_passes(g) && (!nonnegative_weights(g) || walk_weight(sw) <= walk_weight(
                ws1,
            ));
        assert(walk_weight(sw) >= dv);
    }
}

/// On a graph with only non-negative weights, a distance map with the
/// contract of `dijkstra` and one with the successful contract of
/// `bellman_ford` record the same nodes at the same distances: the least
/// walk weight over all walks is also the least over the bounded ones.
pub proof fn lemma_shortest_path_searches_agree<T: View>(
    g: Graph<T>,
    start: T::V,
    dj: DistanceMap<T, u32>,
    bf: DistanceMap<T, i32>,
    b: int,
)
    requires
        g.wf(),
        nonnegative_weights(g),
        0 <= b,
        weight_bound(g, b),
        g@.len() * b <= i32::MAX,
        dj.dist_contains(start),
        dj.dist_of(start) == 0,
        forall|v: T::V| #[trigger] dj.dist_contains(v) ==> dj.dist_of(v) < u32::MAX,
        forall|v: T::V| #[trigger] dj.dist_contains(v) ==> exists|ns: Seq<T::V>, ws: Seq<i32>|
            is_weighted_walk(g, ns, ws) && ns[0] == start && ns.last() == v && walk_weight(ws)
                == dj.dist_of(v),
        forall|ns: Seq<T::V>, ws: Seq<i32>|
            #[trigger] is_weighted_walk(g, ns, ws) && ns[0] == start && dj.dist_contains(ns.last())
                ==> dj.dist_of(ns.last()) <= walk_weight(ws),
        forall|ns: Seq<T::V>, ws: Seq<i32>|
            #[trigger] is_weighted_walk(g, ns, ws) && ns[0] == start && walk_weight(ws) < u32::MAX
                ==> dj.dist_contains(ns.last()),
        bf_reaches(g, start, bf, bounded_passes(g)),
    ensures
        forall|v: T::V| dj.dist_contains(v) <==> bf.dist_contains(v),
        forall|v: T::V|
            #[trigger] bf.dist_contains(v) ==> dj.dist_of(v) as int == bf.dist_of(v) as int,
{
    assert forall|v: T::V| #[trigger] bf.dist_contains(v) implies dj.dist_contains(v) by {
        lemma_bf_reaches_gives_min(g, start, bf, v);
        let (ns, ws) = choose|ns: Seq<T::V>, ws: Seq<i32>|
            is_weighted_walk(g, ns, ws) && ns[0] == start && ns.last() == v && ws.len()
                <= bounded_passes(g) && walk_weight(ws) == bf.dist_of(v);
        lemma_walk_weight_bounded(g, b, ns, ws);
        assert(walk_weight(ws) <= (ws.len() as int) * b);
        assert((ws.len() as int) * b < u32::MAX) by (nonlinear_arith)
            requires
                0 <= b,
                ws.len() <= bounded_passes(g),
                bounded_passes(g) <= g@.len(),
                g@.len() * b <= i32::MAX,
                i32::MAX < u32::MAX,
        ;
    }
    assert forall|v: T::V| #[trigger] dj.dist_contains(v) implies bf.dist_contains(v) by {
        let (ns, ws) = choose|ns: Seq<T::V>, ws: Seq<i32>|
            is_weighted_walk(g, ns, ws) && ns[0] == start && ns.last() == v && walk_weight(ws)
                == dj.dist_of(v);
        lemma_walk_shorten(g, ns, ws);
        let (sn, sw) = choose|sn: Seq<T::V>, sw: Seq<i32>|
            is_weighted_walk(g, sn, sw) && sn[0] == ns[0] && sn.last() == ns.last() && sw.len()
                <= bounded_passes(g) && (!nonnegative_weights(g) || walk_weight(sw) <= walk_weight(
                ws,
            ));
        assert(bf.dist_contains(sn.last()));
    }
    assert forall|v: T::V| #[trigger] bf.dist_contains(v) implies dj.dist_of(v) as int
        == bf.dist_of(v) as int by {
        assert(dj.dist_contains(v));
        // the bounded least distance is a walk weight, so it is at least
        // the unbounded least one
        let (ns, ws) = choose|ns: Seq<T::V>, ws: Seq<i32>|
            is_weighted_walk(g, ns, ws) && ns[0] == start && ns.last() == v && ws.len()
                <= bounded_passes(g) && walk_weight(ws) == bf.dist_of(v);
        assert(dj.dist_of(v) <= walk_weight(ws));
        // and the unbounded least one shortens to a bounded walk no heavier
        let (ans, aws) = choose|ans: Seq<T::V>, aws: Seq<i32>|
            is_weighted_walk(g, ans, aws) && ans[0] == start && ans.last() == v && walk_weight(aws)
                == dj.dist_of(v);
        lemma_walk_shorten(g, ans, aws);
        let (sn, sw) = choose|sn: Seq<T::V>, sw: Seq<i32>|
            is_weighted_walk(g, sn, sw) && sn[0] == ans[0] && sn.last() == ans.last() && sw.len()
                <= bounded_passes(g) && (!nonnegative_weights(g) || walk_weight(sw) <= walk_weight(
                aws,
            ));
        assert(bf.dist_of(v) <= walk_weight(sw));
    }
}

/// Whether some node in `list` has the same view as `v`.
fn contains_value<T: View + PartialEq>(list: &Vec<GraphNode<T>>, v: &GraphNode<T>) -> (r: bool)
    requires
        eq_respects_view::<T>(),
    ensures
        r == views_of(list@).contains(v@),
{
    let mut i: usize = 0;
    while i < list.len()
        invariant
            i <= list@.len(),
            forall|k: int| 0 <= k < i ==> views_of(list@)[k] != v@,
        decreases list@.len() - i,
    {
        if values_eq(&list[i].value, &v.value) {
            proof {
                assert(views_of(list@)[i as int] == v@);
            }
            return true;
        }
        i = i + 1;
    }
    false
}

} // verus!
