use vstd::prelude::*;
use crate::values::clone_respects_view;
use crate::values::eq_respects_view;
use crate::values::clone_value;
use crate::values::values_eq;

verus! {

/// A graph vertex holding a value of type `T`. Two nodes are equal exactly
/// when their values are; a node's view is its value's view.
#[derive(Eq, Hash, PartialEq, PartialOrd, Ord, Clone, Debug)]
pub struct GraphNode<T> {
    /// The value of this node.
    pub value: T,
}

impl<T> GraphNode<T> {
    /// Creates a new node with the given value.
    pub fn new(value: T) -> (r: Self)
        ensures
            r.value == value,
    {
        GraphNode { value }
    }
}

impl<T: View> View for GraphNode<T> {
    type V = T::V;

    open spec fn view(&self) -> T::V {
        self.value@
    }
}

/// An undirected graph kept as an adjacency list: for each node, in
/// insertion order, the sequence of (neighbor, optional weight) entries.
/// Its view is that structure over the node values' views. Every mutation
/// goes through `add_node`, `add_edge`, `remove_node` and `remove_edge`,
/// which insert and erase the two directions of an edge together.
pub struct Graph<T> {
    adjacency: Vec<(GraphNode<T>, Vec<(GraphNode<T>, Option<i32>)>)>,
}

/// The view of one adjacency list: each entry as its neighbor's view
/// paired with the weight.
pub open spec fn entries_view<T: View>(list: Seq<(GraphNode<T>, Option<i32>)>) -> Seq<
    (T::V, Option<i32>),
> {
    list.map_values(|e: (GraphNode<T>, Option<i32>)| (e.0@, e.1))
}

impl<T: View> View for Graph<T> {
    type V = Seq<(T::V, Seq<(T::V, Option<i32>)>)>;

    closed spec fn view(&self) -> Seq<(T::V, Seq<(T::V, Option<i32>)>)> {
        self.adjacency@.map_values(
            |entry: (GraphNode<T>, Vec<(GraphNode<T>, Option<i32>)>)|
                (entry.0@, entries_view(entry.1@)),
        )
    }
}

impl<T: View> Graph<T> {
    /// The node views, in insertion order.
    pub open spec fn keys(&self) -> Seq<T::V> {
        self@.map_values(|p: (T::V, Seq<(T::V, Option<i32>)>)| p.0)
    }

    /// Whether a node with view `v` is in the graph.
    pub open spec fn contains_node_spec(&self, v: T::V) -> bool {
        exists|i: int| 0 <= i < self@.len() && (#[trigger] self@[i]).0 == v
    }

    /// The position of the node with view `v`.
    pub open spec fn key_index(&self, v: T::V) -> int {
        choose|i: int| 0 <= i < self@.len() && (#[trigger] self@[i]).0 == v
    }

    /// The adjacency entries recorded for `v`, or the empty sequence when
    /// `v` is not in the graph.
    pub open spec fn adj_of(&self, v: T::V) -> Seq<(T::V, Option<i32>)> {
        if self.contains_node_spec(v) {
            self@[self.key_index(v)].1
        } else {
            Seq::empty()
        }
    }

    /// Well-formed: node views are distinct, and every adjacency entry
    /// points at a node of the graph.
    pub open spec fn wf(&self) -> bool {
        &&& forall|i: int, j: int| 0 <= i < j < self@.len() ==> (#[trigger] self@[i]).0 != (
        #[trigger] self@[j]).0
        &&& forall|i: int, k: int|
            0 <= i < self@.len() && 0 <= k < (#[trigger] self@[i]).1.len()
                ==> self.contains_node_spec((#[trigger] self@[i].1[k]).0)
    }

    /// In a well-formed graph, the entry at position `i` is what `adj_of`
    /// reports for its node view.
    pub proof fn lemma_adj_at(&self, i: int)
        requires
            self.wf(),
            0 <= i < self@.len(),
        ensures
            self.contains_node_spec(self@[i].0),
            self.key_index(self@[i].0) == i,
            self.adj_of(self@[i].0) == self@[i].1,
    {
        assert(self.contains_node_spec(self@[i].0));
        let j = self.key_index(self@[i].0);
        if j != i {
            assert(self@[i].0 != self@[j].0);
        }
    }

    /// Creates a new, empty graph.
    pub fn new() -> (r: Self)
        ensures
            r.wf(),
            r@ =~= Seq::<(T::V, Seq<(T::V, Option<i32>)>)>::empty(),
    {
        Graph { adjacency: Vec::new() }
    }

    /// The number of nodes in the graph.
    pub fn node_count(&self) -> (r: usize)
        ensures
            r == self@.len(),
    {
        self.adjacency.len()
    }

    /// Borrows the node and adjacency list at position `i`, in insertion
    /// order.
    pub fn entry(&self, i: usize) -> (r: &(GraphNode<T>, Vec<(GraphNode<T>, Option<i32>)>))
        requires
            i < self@.len(),
        ensures
            r.0@ == self@[i as int].0,
            entries_view(r.1@) == self@[i as int].1,
    {
        &self.adjacency[i]
    }

    /// Appends one adjacency entry to the list at position `i`.
    fn push_entry(&mut self, i: usize, neighbor: GraphNode<T>, weight: Option<i32>)
        requires
            i < old(self)@.len(),
        ensures
            final(self)@ == old(self)@.update(
                i as int,
                (old(self)@[i as int].0, old(self)@[i as int].1.push((neighbor@, weight))),
            ),
    {
        let entry = &mut self.adjacency[i];
        entry.1.push((neighbor, weight));
        proof {
            assert(self@ =~~= old(self)@.update(
                i as int,
                (old(self)@[i as int].0, old(self)@[i as int].1.push((neighbor@, weight))),
            ));
        }
    }
}

impl<T: View + PartialEq> Graph<T> {
    /// Looks up the position of a node by value.
    fn find_index(&self, node: &GraphNode<T>) -> (r: Option<usize>)
        requires
            eq_respects_view::<T>(),
        ensures
            match r {
                Some(i) => i < self@.len() && self@[i as int].0 == node@
                    && self.contains_node_spec(node@),
                None => !self.contains_node_spec(node@),
            },
    {
        let mut i: usize = 0;
        while i < self.adjacency.len()
            invariant
                i <= self@.len(),
                forall|k: int| 0 <= k < i ==> (#[trigger] self@[k]).0 != node@,
            decreases self@.len() - i,
        {
            if values_eq(&self.adjacency[i].0.value, &node.value) {
                return Some(i);
            }
            i = i + 1;
        }
        None
    }

    /// Whether the graph holds a node equal to `node`.
    pub fn contains_node(&self, node: &GraphNode<T>) -> (r: bool)
        requires
            eq_respects_view::<T>(),
        ensures
            r == self.contains_node_spec(node@),
    {
        self.find_index(node).is_some()
    }

    /// Adds a node with an empty neighbor list; does nothing when an equal
    /// node is already present.
    pub fn add_node(&mut self, node: GraphNode<T>)
        requires
            eq_respects_view::<T>(),
            old(self).wf(),
        ensures
            final(self).wf(),
            final(self).contains_node_spec(node@),
            forall|v: T::V| final(self).adj_of(v) == old(self).adj_of(v),
            forall|v: T::V|
                final(self).contains_node_spec(v) <==> (old(self).contains_node_spec(v) || v
                    == node@),
            final(self).keys() == old(self).keys() + (if old(self).contains_node_spec(node@) {
                Seq::<T::V>::empty()
            } else {
                seq![node@]
            }),
            old(self).contains_node_spec(node@) ==> final(self)@ == old(self)@,
            !old(self).contains_node_spec(node@) ==> final(self)@ == old(self)@.push(
                (node@, Seq::empty()),
            ),
    {
        if self.find_index(&node).is_none() {
            self.adjacency.push((node, Vec::new()));
            proof {
                let g = *old(self);
                let h = *self;
                let n = node@;
                assert(h@ =~~= g@.push((n, Seq::<(T::V, Option<i32>)>::empty())));
                assert forall|v: T::V| h.contains_node_spec(v) implies (g.contains_node_spec(v)
                    || v == n) by {
                    let i = choose|i: int| 0 <= i < h@.len() && (#[trigger] h@[i]).0 == v;
                    if i < g@.len() {
                        assert(g@[i].0 == v);
                    }
                }
                assert forall|v: T::V| g.contains_node_spec(v) implies h.contains_node_spec(
                    v,
                ) by {
                    let i = choose|i: int| 0 <= i < g@.len() && (#[trigger] g@[i]).0 == v;
                    assert(h@[i].0 == v);
                }
                assert(h.contains_node_spec(n)) by {
                    assert(h@[g@.len() as int].0 == n);
                }
                assert(h.wf());
                assert forall|v: T::V| h.adj_of(v) == g.adj_of(v) by {
                    if g.contains_node_spec(v) {
                        let i = g.key_index(v);
                        g.lemma_adj_at(i);
                        h.lemma_adj_at(i);
                    } else if v == n {
                        h.lemma_adj_at(g@.len() as int);
                        assert(h.adj_of(v) =~= Seq::<(T::V, Option<i32>)>::empty());
                    } else {
                        assert(!h.contains_node_spec(v));
                    }
                }
                assert(h.keys() =~= g.keys() + seq![n]);
            }
        } else {
            proof {
                assert(final(self).keys() =~= old(self).keys() + Seq::<T::V>::empty());
            }
        }
    }
}

/// Appending one entry `e` to the adjacency list at position `i` changes
/// `adj_of` for that node alone, and keeps the key sequence and
/// well-formedness, provided `e` points at a node of the graph.
proof fn lemma_update_entry_effect<T: View>(
    g: Graph<T>,
    h: Graph<T>,
    i: int,
    e: (T::V, Option<i32>),
)
    requires
        g.wf(),
        0 <= i < g@.len(),
        g.contains_node_spec(e.0),
        h@ == g@.update(i, (g@[i].0, g@[i].1.push(e))),
    ensures
        h.wf(),
        h.keys() == g.keys(),
        forall|v: T::V| h.contains_node_spec(v) <==> g.contains_node_spec(v),
        h.adj_of(g@[i].0) == g.adj_of(g@[i].0).push(e),
        forall|v: T::V| v != g@[i].0 ==> h.adj_of(v) == g.adj_of(v),
{
    assert(h.keys() =~= g.keys());
    assert(forall|k: int| 0 <= k < h@.len() ==> (#[trigger] h@[k]).0 == g@[k].0);
    assert forall|v: T::V| h.contains_node_spec(v) <==> g.contains_node_spec(v) by {
        if h.contains_node_spec(v) {
            let k = choose|k: int| 0 <= k < h@.len() && (#[trigger] h@[k]).0 == v;
            assert(g@[k].0 == v);
        }
        if g.contains_node_spec(v) {
            let k = choose|k: int| 0 <= k < g@.len() && (#[trigger] g@[k]).0 == v;
            assert(h@[k].0 == v);
        }
    }
    assert(h.wf()) by {
        assert forall|a: int, k: int|
            0 <= a < h@.len() && 0 <= k < (#[trigger] h@[a]).1.len() implies h.contains_node_spec(
            (#[trigger] h@[a].1[k]).0,
        ) by {
            if a == i && k == h@[a].1.len() - 1 {
                assert(h@[a].1[k] == e);
            } else {
                assert(h@[a].1[k] == g@[a].1[k]);
                assert(g.contains_node_spec(g@[a].1[k].0));
            }
        }
    }
    g.lemma_adj_at(i);
    h.lemma_adj_at(i);
    assert forall|v: T::V| v != g@[i].0 implies h.adj_of(v) == g.adj_of(v) by {
        if g.contains_node_spec(v) {
            let k = g.key_index(v);
            g.lemma_adj_at(k);
            h.lemma_adj_at(k);
            assert(k != i);
            assert(h@[k] == g@[k]);
        }
    }
}

impl<T: View + PartialEq + Clone> Graph<T> {
    /// Adds an undirected edge between `a` and `b`, inserting either node
    /// first when absent: `(b, weight)` is appended to `a`'s adjacency list
    /// and `(a, weight)` to `b`'s, so the edge is recorded symmetrically in
    /// one call. A self-loop appends two equal entries to the one list.
    pub fn add_edge(&mut self, a: GraphNode<T>, b: GraphNode<T>, weight: Option<i32>)
        requires
            eq_respects_view::<T>(),
            clone_respects_view::<T>(),
            old(self).wf(),
        ensures
            final(self).wf(),
            final(self).contains_node_spec(a@),
            final(self).contains_node_spec(b@),
            a@ != b@ ==> final(self).adj_of(a@) == old(self).adj_of(a@).push((b@, weight)),
            a@ != b@ ==> final(self).adj_of(b@) == old(self).adj_of(b@).push((a@, weight)),
            a@ == b@ ==> final(self).adj_of(a@) == old(self).adj_of(a@).push((a@, weight)).push(
                (a@, weight),
            ),
            forall|v: T::V| v != a@ && v != b@ ==> final(self).adj_of(v) == old(self).adj_of(v),
            forall|v: T::V|
                final(self).contains_node_spec(v) <==> (old(self).contains_node_spec(v) || v == a@
                    || v == b@),
            final(self).keys() == old(self).keys() + (if old(self).contains_node_spec(a@) {
                Seq::<T::V>::empty()
            } else {
                seq![a@]
            }) + (if old(self).contains_node_spec(b@) || a@ == b@ {
                Seq::<T::V>::empty()
            } else {
                seq![b@]
            }),
    {
        let a_entry = GraphNode { value: clone_value(&a.value) };
        let b_entry = GraphNode { value: clone_value(&b.value) };
        let ghost g0 = *old(self);
        self.add_node(a);
        let ghost g1 = *self;
        self.add_node(b);
        let ghost g2 = *self;
        let ia = self.find_index(&a_entry).unwrap();
        let ib = self.find_index(&b_entry).unwrap();
        self.push_entry(ia, b_entry, weight);
        let ghost g3 = *self;
        proof {
            lemma_update_entry_effect(g2, g3, ia as int, (b@, weight));
        }
        proof {
            assert(g3@[ib as int].0 == g2@[ib as int].0);
            assert(g3@[ib as int].0 == b@);
        }
        self.push_entry(ib, a_entry, weight);
        proof {
            let g4 = *self;
            lemma_update_entry_effect(g3, g4, ib as int, (a@, weight));
            if a@ == b@ {
                assert(ia == ib) by {
                    if ia != ib {
                        assert(g2@[ia as int].0 != g2@[ib as int].0);
                    }
                }
                assert(g4.adj_of(a@) == g0.adj_of(a@).push((a@, weight)).push((a@, weight)));
            } else {
                assert(g4.adj_of(a@) == g3.adj_of(a@));
                assert(g4.adj_of(a@) == g0.adj_of(a@).push((b@, weight)));
                assert(g3.adj_of(b@) == g2.adj_of(b@));
                assert(g4.adj_of(b@) == g0.adj_of(b@).push((a@, weight)));
            }
            assert(g4.keys() =~= g0.keys() + (if g0.contains_node_spec(a@) {
                Seq::<T::V>::empty()
            } else {
                seq![a@]
            }) + (if g0.contains_node_spec(b@) || a@ == b@ {
                Seq::<T::V>::empty()
            } else {
                seq![b@]
            })) by {
                assert(g1.keys() == g0.keys() + (if g0.contains_node_spec(a@) {
                    Seq::<T::V>::empty()
                } else {
                    seq![a@]
                }));
                assert(g2.keys() == g1.keys() + (if g1.contains_node_spec(b@) {
                    Seq::<T::V>::empty()
                } else {
                    seq![b@]
                }));
                assert(g1.contains_node_spec(b@) <==> (g0.contains_node_spec(b@) || a@ == b@));
            }
        }
    }
}


/// The predicate kept by edge removal: an adjacency entry survives when it
/// does not point at `v`.
pub open spec fn drops_neighbor<V>(v: V) -> spec_fn((V, Option<i32>)) -> bool {
    |e: (V, Option<i32>)| e.0 != v
}

/// A filter that keeps everything changes nothing.
proof fn lemma_filter_identity<A>(s: Seq<A>, p: spec_fn(A) -> bool)
    requires
        forall|k: int| 0 <= k < s.len() ==> p(#[trigger] s[k]),
    ensures
        s.filter(p) == s,
    decreases s.len(),
{
    reveal(Seq::filter);
    if s.len() > 0 {
        let d = s.drop_last();
        assert forall|k: int| 0 <= k < d.len() implies p(#[trigger] d[k]) by {
            assert(d[k] == s[k]);
        }
        lemma_filter_identity(d, p);
        assert(p(s.last()));
        assert(d.push(s.last()) =~= s);
        assert(s.filter(p) == d.filter(p).push(s.last()));
    }
}

/// Every element of a filtered sequence is an element of the original.
proof fn lemma_filter_subset<A>(s: Seq<A>, p: spec_fn(A) -> bool, i: int)
    requires
        0 <= i < s.filter(p).len(),
    ensures
        s.contains(s.filter(p)[i]),
    decreases s.len(),
{
    reveal(Seq::filter);
    if s.len() > 0 {
        let d = s.drop_last();
        if p(s.last()) && i == s.filter(p).len() - 1 {
            assert(s.filter(p)[i] == s.last());
            assert(s[s.len() - 1] == s.last());
        } else {
            lemma_filter_subset(d, p, i);
            let j = choose|j: int| 0 <= j < d.len() && d[j] == d.filter(p)[i];
            assert(s[j] == d.filter(p)[i]);
        }
    }
}

/// Replacing the adjacency list at position `i` with `nl` changes `adj_of`
/// for that node alone and keeps the keys; well-formedness holds again
/// when every entry of `nl` points at a node of the graph.
proof fn lemma_replace_list_effect<T: View>(
    g: Graph<T>,
    h: Graph<T>,
    i: int,
    nl: Seq<(T::V, Option<i32>)>,
)
    requires
        g.wf(),
        0 <= i < g@.len(),
        forall|k: int| 0 <= k < nl.len() ==> g.contains_node_spec((#[trigger] nl[k]).0),
        h@ == g@.update(i, (g@[i].0, nl)),
    ensures
        h.wf(),
        h.keys() == g.keys(),
        forall|v: T::V| h.contains_node_spec(v) <==> g.contains_node_spec(v),
        h.adj_of(g@[i].0) == nl,
        forall|v: T::V| v != g@[i].0 ==> h.adj_of(v) == g.adj_of(v),
{
    assert(h.keys() =~= g.keys());
    assert(forall|k: int| 0 <= k < h@.len() ==> (#[trigger] h@[k]).0 == g@[k].0);
    assert forall|v: T::V| h.contains_node_spec(v) <==> g.contains_node_spec(v) by {
        if h.contains_node_spec(v) {
            let k = choose|k: int| 0 <= k < h@.len() && (#[trigger] h@[k]).0 == v;
            assert(g@[k].0 == v);
        }
        if g.contains_node_spec(v) {
            let k = choose|k: int| 0 <= k < g@.len() && (#[trigger] g@[k]).0 == v;
            assert(h@[k].0 == v);
        }
    }
    assert(h.wf()) by {
        assert forall|a: int, k: int|
            0 <= a < h@.len() && 0 <= k < (#[trigger] h@[a]).1.len() implies h.contains_node_spec(
            (#[trigger] h@[a].1[k]).0,
        ) by {
            if a == i {
                assert(g.contains_node_spec(nl[k].0));
            } else {
                assert(h@[a].1[k] == g@[a].1[k]);
                assert(g.contains_node_spec(g@[a].1[k].0));
            }
        }
    }
    g.lemma_adj_at(i);
    h.lemma_adj_at(i);
    assert forall|v: T::V| v != g@[i].0 implies h.adj_of(v) == g.adj_of(v) by {
        if g.contains_node_spec(v) {
            let k = g.key_index(v);
            g.lemma_adj_at(k);
            h.lemma_adj_at(k);
            assert(k != i);
            assert(h@[k] == g@[k]);
        }
    }
}

/// Copies `list` without the entries that point at `node`.
fn filter_entries<T: View + PartialEq + Clone>(
    list: &Vec<(GraphNode<T>, Option<i32>)>,
    node: &GraphNode<T>,
) -> (r: Vec<(GraphNode<T>, Option<i32>)>)
    requires
        eq_respects_view::<T>(),
        clone_respects_view::<T>(),
    ensures
        entries_view(r@) == entries_view(list@).filter(drops_neighbor(node@)),
{
    let ghost mapped = entries_view(list@);
    let ghost p = drops_neighbor::<T::V>(node@);
    let mut r: Vec<(GraphNode<T>, Option<i32>)> = Vec::new();
    proof {
        reveal(Seq::filter);
        assert(mapped.take(0).filter(p) =~= Seq::<(T::V, Option<i32>)>::empty());
        assert(entries_view(r@) =~= Seq::<(T::V, Option<i32>)>::empty());
    }
    let mut k: usize = 0;
    while k < list.len()
        invariant
            k <= list.len(),
            entries_view(r@) == entries_view(list@).take(k as int).filter(
                drops_neighbor(node@),
            ),
        decreases list.len() - k,
    {
        let e = &list[k];
        proof {
            reveal(Seq::filter);
            assert(mapped.take(k + 1).drop_last() =~= mapped.take(k as int));
            assert(mapped.take(k + 1).last() == mapped[k as int]);
            assert(mapped[k as int] == (e.0@, e.1));
        }
        if !values_eq(&e.0.value, &node.value) {
            let ghost before = entries_view(r@);
            r.push((GraphNode { value: clone_value(&e.0.value) }, e.1));
            proof {
                assert(entries_view(r@) =~= before.push((e.0@, e.1)));
            }
        }
        k = k + 1;
    }
    proof {
        assert(mapped.take(list.len() as int) =~= mapped);
    }
    r
}

impl<T: View + PartialEq + Clone> Graph<T> {
    /// Removes every edge between `a` and `b`, whatever its weight, in both
    /// directions; does nothing where a side is absent.
    pub fn remove_edge(&mut self, a: GraphNode<T>, b: GraphNode<T>)
        requires
            eq_respects_view::<T>(),
            clone_respects_view::<T>(),
            old(self).wf(),
        ensures
            final(self).wf(),
            final(self).keys() == old(self).keys(),
            forall|v: T::V|
                final(self).contains_node_spec(v) <==> old(self).contains_node_spec(v),
            final(self).adj_of(a@) == old(self).adj_of(a@).filter(drops_neighbor(b@)),
            final(self).adj_of(b@) == old(self).adj_of(b@).filter(drops_neighbor(a@)),
            forall|v: T::V|
                v != a@ && v != b@ ==> final(self).adj_of(v) == old(self).adj_of(v),
    {
        let ghost g0 = *old(self);
        let oi = self.find_index(&a);
        match oi {
            Some(i) => {
                let filtered = filter_entries(&self.adjacency[i].1, &b);
                proof {
                    g0.lemma_adj_at(i as int);
                    assert forall|k: int|
                        0 <= k < entries_view(filtered@).len() implies g0.contains_node_spec(
                        (#[trigger] entries_view(filtered@)[k]).0,
                    ) by {
                        lemma_filter_subset(g0.adj_of(a@), drops_neighbor(b@), k);
                        let m = choose|m: int|
                            0 <= m < g0.adj_of(a@).len() && g0.adj_of(a@)[m] == entries_view(
                                filtered@,
                            )[k];
                        assert(g0.contains_node_spec(g0@[i as int].1[m].0));
                    }
                }
                let entry = &mut self.adjacency[i];
                entry.1 = filtered;
                proof {
                    assert(self@ =~~= g0@.update(i as int, (g0@[i as int].0, entries_view(filtered@))));
                    lemma_replace_list_effect(g0, *self, i as int, entries_view(filtered@));
                }
            },
            None => {
                proof {
                    assert(g0.adj_of(a@) =~= Seq::<(T::V, Option<i32>)>::empty());
                    assert(g0.adj_of(a@).filter(drops_neighbor(b@)) =~= Seq::<
                        (T::V, Option<i32>),
                    >::empty());
                }
            },
        }
        let ghost g1 = *self;
        let oj = self.find_index(&b);
        match oj {
            Some(j) => {
                let filtered = filter_entries(&self.adjacency[j].1, &a);
                proof {
                    g1.lemma_adj_at(j as int);
                    assert forall|k: int|
                        0 <= k < entries_view(filtered@).len() implies g1.contains_node_spec(
                        (#[trigger] entries_view(filtered@)[k]).0,
                    ) by {
                        lemma_filter_subset(g1.adj_of(b@), drops_neighbor(a@), k);
                        let m = choose|m: int|
                            0 <= m < g1.adj_of(b@).len() && g1.adj_of(b@)[m] == entries_view(
                                filtered@,
                            )[k];
                        assert(g1.contains_node_spec(g1@[j as int].1[m].0));
                    }
                }
                let entry = &mut self.adjacency[j];
                entry.1 = filtered;
                proof {
                    assert(self@ =~~= g1@.update(j as int, (g1@[j as int].0, entries_view(filtered@))));
                    lemma_replace_list_effect(g1, *self, j as int, entries_view(filtered@));
                }
            },
            None => {
                proof {
                    assert(g1.adj_of(b@) =~= Seq::<(T::V, Option<i32>)>::empty());
                    assert(g1.adj_of(b@).filter(drops_neighbor(a@)) =~= Seq::<
                        (T::V, Option<i32>),
                    >::empty());
                }
            },
        }
        proof {
            let g2 = *self;
            if a@ == b@ {
                // the one list was filtered twice; the second pass found
                // nothing left to drop
                if g0.contains_node_spec(a@) {
                    assert(g1.adj_of(a@) == g0.adj_of(a@).filter(drops_neighbor(b@)));
                    assert forall|k: int|
                        0 <= k < g1.adj_of(a@).len() implies drops_neighbor::<T::V>(a@)(
                        #[trigger] g1.adj_of(a@)[k],
                    ) by {
                        g0.adj_of(a@).lemma_filter_pred(drops_neighbor(b@), k);
                    }
                    lemma_filter_identity(g1.adj_of(a@), drops_neighbor(a@));
                }
            } else {
                // filtering `b`'s list did not touch `a`'s
                assert(g2.adj_of(a@) == g1.adj_of(a@));
            }
        }
    }
}


impl<T: View + PartialEq> Graph<T> {
    /// Borrows the adjacency list of `node`, or `None` when the node is
    /// absent.
    pub fn neighbors(&self, node: &GraphNode<T>) -> (r: Option<&Vec<(GraphNode<T>, Option<i32>)>>)
        requires
            eq_respects_view::<T>(),
            self.wf(),
        ensures
            match r {
                Some(list) => self.contains_node_spec(node@) && entries_view(list@)
                    == self.adj_of(node@),
                None => !self.contains_node_spec(node@),
            },
    {
        match self.find_index(node) {
            Some(i) => {
                proof {
                    self.lemma_adj_at(i as int);
                }
                Some(&self.adjacency[i].1)
            },
            None => None,
        }
    }
}

impl<T: View + PartialEq + Clone> Graph<T> {
    /// Removes `node` and purges it from every other node's adjacency
    /// list, so no dangling entry is left behind; does nothing when the
    /// node is absent.
    pub fn remove_node(&mut self, node: GraphNode<T>)
        requires
            eq_respects_view::<T>(),
            clone_respects_view::<T>(),
            old(self).wf(),
        ensures
            final(self).wf(),
            !final(self).contains_node_spec(node@),
            forall|v: T::V|
                v != node@ ==> (final(self).contains_node_spec(v) <==> old(
                    self,
                ).contains_node_spec(v)),
            final(self).keys() == old(self).keys().filter(|k: T::V| k != node@),
            forall|v: T::V|
                v != node@ ==> final(self).adj_of(v) == old(self).adj_of(v).filter(
                    drops_neighbor(node@),
                ),
            !old(self).contains_node_spec(node@) ==> final(self)@ == old(self)@,
    {
        let ghost g0 = *old(self);
        let n = self.adjacency.len();
        let mut i: usize = 0;
        while i < n
            invariant
                self@.len() == n,
                i <= n,
                forall|k: int| 0 <= k < n ==> (#[trigger] self@[k]).0 == g0@[k].0,
                forall|k: int|
                    0 <= k < i ==> (#[trigger] self@[k]).1 == g0@[k].1.filter(
                        drops_neighbor(node@),
                    ),
                forall|k: int| i <= k < n ==> (#[trigger] self@[k]).1 == g0@[k].1,
            decreases n - i,
        {
            let ghost gpre = *self;
            let filtered = filter_entries(&self.adjacency[i].1, &node);
            let entry = &mut self.adjacency[i];
            entry.1 = filtered;
            proof {
                assert(self@ =~~= gpre@.update(
                    i as int,
                    (gpre@[i as int].0, entries_view(filtered@)),
                ));
            }
            i = i + 1;
        }
        let ghost gm = *self;
        proof {
            // membership is untouched by the purging pass
            assert forall|v: T::V| gm.contains_node_spec(v) <==> g0.contains_node_spec(v) by {
                if gm.contains_node_spec(v) {
                    let k = choose|k: int| 0 <= k < gm@.len() && (#[trigger] gm@[k]).0 == v;
                    assert(g0@[k].0 == v);
                }
                if g0.contains_node_spec(v) {
                    let k = choose|k: int| 0 <= k < g0@.len() && (#[trigger] g0@[k]).0 == v;
                    assert(gm@[k].0 == v);
                }
            }
            // purged lists only point at nodes other than `node`, all of
            // which are still in the graph
            assert(gm.wf()) by {
                assert forall|a: int, k: int|
                    0 <= a < gm@.len() && 0 <= k < (#[trigger] gm@[a]).1.len() implies gm
                    .contains_node_spec((#[trigger] gm@[a].1[k]).0) by {
                    lemma_filter_subset(g0@[a].1, drops_neighbor(node@), k);
                    let m = choose|m: int|
                        0 <= m < g0@[a].1.len() && g0@[a].1[m] == gm@[a].1[k];
                    assert(g0.contains_node_spec(g0@[a].1[m].0));
                }
            }
        }
        let oi = self.find_index(&node);
        match oi {
            Some(i) => {
                let removed = self.adjacency.remove(i);
                proof {
                    let gf = *self;
                    let ii = i as int;
                    assert(gf@ =~~= gm@.remove(ii));
                    assert(gm@[ii].0 == node@);
                    assert forall|a: int, k: int|
                        0 <= a < gm@.len() && 0 <= k < (#[trigger] gm@[a]).1.len() implies (
                    #[trigger] gm@[a].1[k]).0 != gm@[ii].0 by {
                        assert(g0@[a].1.filter(drops_neighbor(node@)) == gm@[a].1);
                        g0@[a].1.lemma_filter_pred(drops_neighbor(node@), k);
                    }
                    lemma_remove_key_effect(gm, gf, ii);
                    // chain the two phases
                    assert forall|v: T::V| v != node@ implies gf.adj_of(v) == g0.adj_of(v).filter(
                        drops_neighbor(node@),
                    ) by {
                        if g0.contains_node_spec(v) {
                            let k = g0.key_index(v);
                            g0.lemma_adj_at(k);
                            gm.lemma_adj_at(k);
                            assert(gm.adj_of(v) == g0.adj_of(v).filter(drops_neighbor(node@)));
                        } else {
                            assert(!gm.contains_node_spec(v));
                            assert(g0.adj_of(v) =~= Seq::<(T::V, Option<i32>)>::empty());
                            assert(g0.adj_of(v).filter(drops_neighbor(node@)) =~= Seq::<
                                (T::V, Option<i32>),
                            >::empty());
                        }
                    }
                    // the key sequence loses exactly the one entry
                    assert(gf.keys() == g0.keys().filter(|k: T::V| k != node@)) by {
                        assert(gm@[ii].0 == node@);
                        lemma_remove_is_filter_key(gm.keys(), ii, node@);
                        assert(gm.keys() =~= g0.keys());
                        assert(gf.keys() =~= gm.keys().remove(ii));
                    }
                }
            },
            None => {
                proof {
                    // nothing pointed at an absent node, so the purge
                    // changed nothing
                    assert forall|k: int| 0 <= k < n implies (#[trigger] gm@[k]).1 == g0@[k].1 by {
                        assert forall|m: int|
                            0 <= m < g0@[k].1.len() implies drops_neighbor::<T::V>(node@)(
                            #[trigger] g0@[k].1[m],
                        ) by {
                            assert(g0.contains_node_spec(g0@[k].1[m].0));
                        }
                        lemma_filter_identity(g0@[k].1, drops_neighbor(node@));
                    }
                    assert(gm@ =~~= g0@);
                    assert forall|m: int|
                        0 <= m < g0.keys().len() implies g0.keys()[m] != node@ by {
                        assert(g0@[m].0 == g0.keys()[m]);
                    }
                    lemma_filter_identity(g0.keys(), |k: T::V| k != node@);
                    assert forall|v: T::V| v != node@ implies gm.adj_of(v) == g0.adj_of(v).filter(
                        drops_neighbor(node@),
                    ) by {
                        if g0.contains_node_spec(v) {
                            let k = g0.key_index(v);
                            g0.lemma_adj_at(k);
                            assert forall|m: int|
                                0 <= m < g0.adj_of(v).len() implies drops_neighbor::<T::V>(node@)(
                                #[trigger] g0.adj_of(v)[m],
                            ) by {
                                assert(g0.contains_node_spec(g0@[k].1[m].0));
                            }
                            lemma_filter_identity(g0.adj_of(v), drops_neighbor(node@));
                        } else {
                            assert(g0.adj_of(v) =~= Seq::<(T::V, Option<i32>)>::empty());
                            assert(g0.adj_of(v).filter(drops_neighbor(node@)) =~= Seq::<
                                (T::V, Option<i32>),
                            >::empty());
                        }
                    }
                }
            },
        }
    }
}

/// Removing the whole entry at position `i` takes its node out of the
/// graph and leaves every other node's membership and adjacency as it was.
proof fn lemma_remove_key_effect<T: View>(g: Graph<T>, h: Graph<T>, i: int)
    requires
        g.wf(),
        0 <= i < g@.len(),
        forall|a: int, k: int|
            0 <= a < g@.len() && 0 <= k < (#[trigger] g@[a]).1.len() ==> (#[trigger] g@[a].1[k]).0
                != g@[i].0,
        h@ == g@.remove(i),
    ensures
        h.wf(),
        !h.contains_node_spec(g@[i].0),
        forall|v: T::V|
            v != g@[i].0 ==> (h.contains_node_spec(v) <==> g.contains_node_spec(v)),
        forall|v: T::V| v != g@[i].0 ==> h.adj_of(v) == g.adj_of(v),
{
    assert(forall|k: int| 0 <= k < i ==> (#[trigger] h@[k]) == g@[k]);
    assert(forall|k: int| i <= k < h@.len() ==> (#[trigger] h@[k]) == g@[k + 1]);
    assert forall|v: T::V|
        v != g@[i].0 implies (h.contains_node_spec(v) <==> g.contains_node_spec(v)) by {
        if h.contains_node_spec(v) {
            let k = choose|k: int| 0 <= k < h@.len() && (#[trigger] h@[k]).0 == v;
            if k < i {
                assert(g@[k].0 == v);
            } else {
                assert(g@[k + 1].0 == v);
            }
        }
        if g.contains_node_spec(v) {
            let k = choose|k: int| 0 <= k < g@.len() && (#[trigger] g@[k]).0 == v;
            assert(k != i);
            if k < i {
                assert(h@[k].0 == v);
            } else {
                assert(h@[k - 1].0 == v);
            }
        }
    }
    assert(!h.contains_node_spec(g@[i].0)) by {
        if h.contains_node_spec(g@[i].0) {
            let k = choose|k: int| 0 <= k < h@.len() && (#[trigger] h@[k]).0 == g@[i].0;
            if k < i {
                assert(g@[k].0 == g@[i].0);
            } else {
                assert(g@[k + 1].0 == g@[i].0);
            }
        }
    }
    assert(h.wf()) by {
        assert forall|a: int, b: int|
            0 <= a < b < h@.len() implies (#[trigger] h@[a]).0 != (#[trigger] h@[b]).0 by {
            let ga: int = if a < i { a } else { a + 1 };
            let gb: int = if b < i { b } else { b + 1 };
            assert(h@[a] == g@[ga] && h@[b] == g@[gb]);
        }
        assert forall|a: int, k: int|
            0 <= a < h@.len() && 0 <= k < (#[trigger] h@[a]).1.len() implies h.contains_node_spec(
            (#[trigger] h@[a].1[k]).0,
        ) by {
            let ga: int = if a < i { a } else { a + 1 };
            assert(h@[a] == g@[ga]);
            let v = g@[ga].1[k].0;
            assert(g.contains_node_spec(v));
            assert(v != g@[i].0);
        }
    }
    assert forall|v: T::V| v != g@[i].0 implies h.adj_of(v) == g.adj_of(v) by {
        if g.contains_node_spec(v) {
            let k = g.key_index(v);
            g.lemma_adj_at(k);
            assert(k != i);
            let hk: int = if k < i { k } else { k - 1 };
            assert(h@[hk] == g@[k]);
            h.lemma_adj_at(hk);
        }
    }
}

/// In a sequence of distinct keys, removing the entry at `i` is the same
/// as filtering its value out.
proof fn lemma_remove_is_filter_key<V>(s: Seq<V>, i: int, v: V)
    requires
        0 <= i < s.len(),
        s[i] == v,
        forall|a: int, b: int| 0 <= a < b < s.len() ==> s[a] != s[b],
    ensures
        s.remove(i) == s.filter(|k: V| k != v),
{
    let p = |k: V| k != v;
    assert(s =~= s.take(i) + seq![v] + s.skip(i + 1));

    assert forall|m: int| 0 <= m < s.take(i).len() implies p(#[trigger] s.take(i)[m]) by {
        assert(s.take(i)[m] == s[m]);
    }
    lemma_filter_identity(s.take(i), p);
    assert forall|m: int| 0 <= m < s.skip(i + 1).len() implies p(#[trigger] s.skip(i + 1)[m]) by {
        assert(s.skip(i + 1)[m] == s[m + i + 1]);
    }
    lemma_filter_identity(s.skip(i + 1), p);
    assert(seq![v].filter(p) =~= Seq::<V>::empty()) by {
        reveal(Seq::filter);
        assert(Seq::<V>::empty().filter(p) =~= Seq::<V>::empty());
        assert(seq![v].drop_last() =~= Seq::<V>::empty());
        assert(!p(seq![v].last()));
    }
    assert(s.filter(p) == (s.take(i) + seq![v] + s.skip(i + 1)).filter(p));
    Seq::filter_distributes_over_add(s.take(i) + seq![v], s.skip(i + 1), p);
    Seq::filter_distributes_over_add(s.take(i), seq![v], p);
    assert(s.filter(p) =~= s.take(i) + s.skip(i + 1));
    assert(s.remove(i) =~= s.take(i) + s.skip(i + 1));
}

} // verus!
