//! The undirected simple graph that an edge list describes.

use vstd::prelude::*;
use vstd::hash_map::StringHashMap;
use crate::edges::{Edge, edge_list, edges_from, line_edge, before_hash, lemma_edges_concat};
use crate::text::{chars_of, find_char_at, two_words, lemma_first_from, char_in};

verus! {

/// `s` with `x` appended unless `s` already holds it.
pub open spec fn add_new(s: Seq<Seq<char>>, x: Seq<char>) -> Seq<Seq<char>> {
    if s.contains(x) {
        s
    } else {
        s.push(x)
    }
}

/// The distinct elements of `s`, in the order of their first appearance.
pub open spec fn first_appearances(s: Seq<Seq<char>>) -> Seq<Seq<char>>
    decreases s.len(),
{
    if s.len() == 0 {
        seq![]
    } else {
        add_new(first_appearances(s.drop_last()), s.last())
    }
}

/// The endpoints of the edges in order: `u0, v0, u1, v1, ...`.
pub open spec fn endpoints(p: Seq<Edge>) -> Seq<Seq<char>>
    decreases p.len(),
{
    if p.len() == 0 {
        seq![]
    } else {
        endpoints(p.drop_last()).push(p.last().0).push(p.last().1)
    }
}

/// The node names of an edge list, in the order in which they first appear.
pub open spec fn node_order(p: Seq<Edge>) -> Seq<Seq<char>> {
    first_appearances(endpoints(p))
}

/// Some edge of `p` joins `a` and `b`, in either direction.
pub open spec fn linked(p: Seq<Edge>, a: Seq<char>, b: Seq<char>) -> bool {
    p.contains((a, b)) || p.contains((b, a))
}

/// A graph as a mathematical value: node `i` is named `names[i]`, its
/// neighbours (other than itself) are `nbrs[i]`, listed in `adj[i]` in the
/// order in which they were first linked to it; `loops[i]` says whether it
/// has a self-loop, and `ids` maps each name to its node.
#[verifier::ext_equal]
pub struct GraphModel {
    pub names: Seq<Seq<char>>,
    pub nbrs: Seq<Set<usize>>,
    pub adj: Seq<Seq<usize>>,
    pub loops: Seq<bool>,
    pub ids: Map<Seq<char>, usize>,
}

/// The other endpoints of the edges of `p` that join `a` to another name,
/// in edge order.
pub open spec fn others(p: Seq<Edge>, a: Seq<char>) -> Seq<Seq<char>>
    decreases p.len(),
{
    if p.len() == 0 {
        seq![]
    } else {
        let r = others(p.drop_last(), a);
        let e = p.last();
        if e.0 == a && e.1 != a {
            r.push(e.1)
        } else if e.1 == a && e.0 != a {
            r.push(e.0)
        } else {
            r
        }
    }
}

/// The neighbours of `a`, in the order in which an edge first links them.
pub open spec fn neighbour_order(p: Seq<Edge>, a: Seq<char>) -> Seq<Seq<char>> {
    first_appearances(others(p, a))
}

/// The node id of a name: its position in `names`.
pub open spec fn id_in(names: Seq<Seq<char>>) -> spec_fn(Seq<char>) -> usize {
    |x: Seq<char>| names.index_of(x) as usize
}

impl GraphModel {
    /// The number of nodes.
    pub open spec fn n(self) -> nat {
        self.names.len()
    }

    /// An undirected simple graph, self-loops apart: node ids fit in a
    /// `usize`, names are distinct, the neighbour relation is finite, in
    /// range, irreflexive and symmetric, each neighbour list holds the
    /// neighbours once each, and `ids` inverts `names`.
    pub open spec fn simple(self) -> bool {
        &&& self.n() <= usize::MAX
        &&& self.nbrs.len() == self.n()
        &&& self.loops.len() == self.n()
        &&& self.names.no_duplicates()
        &&& forall|i: int| 0 <= i < self.n() ==> #[trigger] self.nbrs[i].finite()
        &&& forall|i: int, w: usize|
            0 <= i < self.n() && #[trigger] self.nbrs[i].contains(w) ==> w < self.n() && w != i
                && self.nbrs[w as int].contains(i as usize)
        &&& self.adj.len() == self.n()
        &&& forall|i: int|
            0 <= i < self.n() ==> (#[trigger] self.adj[i]).no_duplicates() && self.adj[i].to_set()
                == self.nbrs[i]
        &&& forall|x: Seq<char>| #[trigger] self.ids.contains_key(x) <==> self.names.contains(x)
        &&& forall|x: Seq<char>|
            #[trigger] self.ids.contains_key(x) ==> self.ids[x] < self.n() && self.names[self.ids[x] as int] == x
    }

    /// The degree of node `v` as networkx counts it: its neighbours, and 2 for
    /// a self-loop.
    pub open spec fn degree_of(self, v: int) -> nat {
        self.nbrs[v].len() + if self.loops[v] {
            2nat
        } else {
            0nat
        }
    }
}

/// The graph that an edge list describes: its nodes are the names in the order
/// of first appearance; two distinct nodes are neighbours when some edge joins
/// them, in either direction (parallel edges collapse); a node has a self-loop
/// when some edge joins it to itself.
pub open spec fn graph_of(p: Seq<Edge>) -> GraphModel {
    let names = node_order(p);
    GraphModel {
        names,
        nbrs: Seq::new(
            names.len(),
            |i: int|
                Set::new(
                    |w: usize| w < names.len() && w != i && linked(p, names[i], names[w as int]),
                ),
        ),
        adj: Seq::new(
            names.len(),
            |i: int| neighbour_order(p, names[i]).map_values(id_in(names)),
        ),
        loops: Seq::new(names.len(), |i: int| p.contains((names[i], names[i]))),
        ids: Map::new(|x: Seq<char>| names.contains(x), id_in(names)),
    }
}

/// On every node of `m`, its neighbours and its self-loop are those that the
/// edges of `p` give it.
pub open spec fn agrees(m: GraphModel, p: Seq<Edge>) -> bool {
    &&& m.nbrs.len() == m.n()
    &&& m.loops.len() == m.n()
    &&& forall|i: int, w: usize|
        0 <= i < m.n() && w < m.n() ==> (#[trigger] m.nbrs[i].contains(w) <==> (w != i && linked(
            p,
            m.names[i],
            m.names[w as int],
        )))
    &&& forall|i: int|
        0 <= i < m.n() ==> (#[trigger] m.loops[i] <==> p.contains((m.names[i], m.names[i])))
    &&& m.adj.len() == m.n()
    &&& forall|i: int|
        0 <= i < m.n() ==> #[trigger] m.adj[i] == neighbour_order(p, m.names[i]).map_values(
            id_in(m.names),
        )
}

/// `m` agrees with `graph_of(p)` on every node.
pub open spec fn models(m: GraphModel, p: Seq<Edge>) -> bool {
    &&& m.names == node_order(p)
    &&& agrees(m, p)
}

/// The node order after one more edge: its endpoints are added where new.
pub proof fn lemma_node_order_push(p: Seq<Edge>, e: Edge)
    ensures
        node_order(p.push(e)) == add_new(add_new(node_order(p), e.0), e.1),
{
    let q = p.push(e);
    assert(q.drop_last() =~= p);
    let x = endpoints(p);
    assert(endpoints(q) == x.push(e.0).push(e.1));
    assert(x.push(e.0).push(e.1).drop_last() =~= x.push(e.0));
    assert(x.push(e.0).drop_last() =~= x);
    lemma_first_appearances_push(x, e.0);
    lemma_first_appearances_push(x.push(e.0), e.1);
}

/// `first_appearances` holds each element of `s` once.
pub proof fn lemma_first_appearances(s: Seq<Seq<char>>)
    ensures
        first_appearances(s).no_duplicates(),
        forall|x: Seq<char>| #[trigger] first_appearances(s).contains(x) <==> s.contains(x),
    decreases s.len(),
{
    if s.len() > 0 {
        broadcast use vstd::seq_lib::group_seq_properties;

        let d = s.drop_last();
        lemma_first_appearances(d);
        assert(s =~= d.push(s.last()));
    }
}

/// One more element joins the first appearances where it is new.
pub proof fn lemma_first_appearances_push(s: Seq<Seq<char>>, x: Seq<char>)
    ensures
        first_appearances(s.push(x)) == add_new(first_appearances(s), x),
{
    assert(s.push(x).drop_last() =~= s);
}

/// The endpoints of every edge of `p` are among `endpoints(p)`.
pub proof fn lemma_endpoints(p: Seq<Edge>, k: int)
    requires
        0 <= k < p.len(),
    ensures
        endpoints(p).contains(p[k].0),
        endpoints(p).contains(p[k].1),
    decreases p.len(),
{
    let e = endpoints(p);
    let n = e.len();
    if k == p.len() - 1 {
        assert(e[n - 2] == p[k].0);
        assert(e[n - 1] == p[k].1);
    } else {
        lemma_endpoints(p.drop_last(), k);
        let d = endpoints(p.drop_last());
        let a = choose|j: int| 0 <= j < d.len() && d[j] == p[k].0;
        let b = choose|j: int| 0 <= j < d.len() && d[j] == p[k].1;
        assert(e[a] == p[k].0);
        assert(e[b] == p[k].1);
    }
}

/// The names that an edge joins are nodes of the graph.
pub proof fn lemma_linked_named(p: Seq<Edge>, a: Seq<char>, b: Seq<char>)
    requires
        linked(p, a, b),
    ensures
        node_order(p).contains(a),
        node_order(p).contains(b),
{
    lemma_first_appearances(endpoints(p));
    if p.contains((a, b)) {
        let k = choose|k: int| 0 <= k < p.len() && p[k] == (a, b);
        lemma_endpoints(p, k);
    } else {
        let k = choose|k: int| 0 <= k < p.len() && p[k] == (b, a);
        lemma_endpoints(p, k);
    }
}

/// In a sequence without duplicates, `index_of` finds each element where it
/// stands.
pub proof fn lemma_index_of_distinct(s: Seq<Seq<char>>, i: int)
    requires
        s.no_duplicates(),
        0 <= i < s.len(),
    ensures
        s.index_of(s[i]) == i,
{
    assert(s.contains(s[i]));
}

/// `b` is among the other endpoints of `a` exactly when it is another name
/// that some edge links to `a`.
pub proof fn lemma_others(p: Seq<Edge>, a: Seq<char>, b: Seq<char>)
    ensures
        others(p, a).contains(b) <==> (b != a && linked(p, a, b)),
    decreases p.len(),
{
    broadcast use vstd::seq_lib::group_seq_properties;

    if p.len() > 0 {
        let d = p.drop_last();
        assert(p =~= d.push(p.last()));
        lemma_others(d, a, b);
    }
}

/// One more edge adds its other endpoint to the endpoints it joins to
/// another name, and changes nothing for any other name.
pub proof fn lemma_others_push(p: Seq<Edge>, e: Edge, a: Seq<char>)
    ensures
        others(p.push(e), a) == if e.0 == a && e.1 != a {
            others(p, a).push(e.1)
        } else if e.1 == a && e.0 != a {
            others(p, a).push(e.0)
        } else {
            others(p, a)
        },
{
    assert(p.push(e).drop_last() =~= p);
}

/// A name that is no node of `p` has no neighbour list.
pub proof fn lemma_others_unnamed(p: Seq<Edge>, a: Seq<char>)
    requires
        !node_order(p).contains(a),
    ensures
        others(p, a) == Seq::<Seq<char>>::empty(),
{
    if others(p, a).len() > 0 {
        let b = others(p, a)[0];
        assert(others(p, a).contains(b));
        lemma_others(p, a, b);
        lemma_linked_named(p, a, b);
    }
}

/// Renaming the neighbour order of a node by two name lists that agree on
/// the nodes of `p` gives the same ids.
pub proof fn lemma_neighbour_ids(p: Seq<Edge>, a: Seq<char>, n1: Seq<Seq<char>>, n2: Seq<Seq<char>>)
    requires
        n1.no_duplicates(),
        n2.no_duplicates(),
        n1.len() <= n2.len(),
        forall|i: int| 0 <= i < n1.len() ==> #[trigger] n2[i] == n1[i],
        n1 == node_order(p),
    ensures
        neighbour_order(p, a).map_values(id_in(n1)) == neighbour_order(p, a).map_values(id_in(n2)),
{
    let s = neighbour_order(p, a);
    lemma_first_appearances(others(p, a));
    assert forall|k: int| 0 <= k < s.len() implies #[trigger] id_in(n1)(s[k]) == id_in(n2)(s[k]) by {
        assert(s.contains(s[k]));
        lemma_others(p, a, s[k]);
        lemma_linked_named(p, a, s[k]);
        let j = choose|j: int| 0 <= j < n1.len() && n1[j] == s[k];
        lemma_index_of_distinct(n1, j);
        assert(n2[j] == s[k]);
        lemma_index_of_distinct(n2, j);
    }
    assert(s.map_values(id_in(n1)) =~= s.map_values(id_in(n2)));
}

/// The neighbour order of a name after one more edge: the edge's other
/// endpoint is added where new.
pub proof fn lemma_neighbour_order_push(p: Seq<Edge>, e: Edge, a: Seq<char>)
    ensures
        neighbour_order(p.push(e), a) == if e.0 == a && e.1 != a {
            add_new(neighbour_order(p, a), e.1)
        } else if e.1 == a && e.0 != a {
            add_new(neighbour_order(p, a), e.0)
        } else {
            neighbour_order(p, a)
        },
{
    lemma_others_push(p, e, a);
    if e.0 == a && e.1 != a {
        lemma_first_appearances_push(others(p, a), e.1);
    } else if e.1 == a && e.0 != a {
        lemma_first_appearances_push(others(p, a), e.0);
    }
}

/// A model that agrees with `graph_of(p)` on every node and is simple is
/// `graph_of(p)`.
pub proof fn lemma_models_graph_of(m: GraphModel, p: Seq<Edge>)
    requires
        models(m, p),
        m.simple(),
    ensures
        m == graph_of(p),
{
    let g = graph_of(p);
    assert forall|i: int| 0 <= i < m.n() implies #[trigger] m.nbrs[i] =~= g.nbrs[i] by {
        assert forall|w: usize| m.nbrs[i].contains(w) <==> g.nbrs[i].contains(w) by {
            if m.nbrs[i].contains(w) {
                assert(w < m.n());
            }
        }
    }
    assert(m.nbrs =~= g.nbrs);
    assert(m.loops =~= g.loops);
}


/// Law: parallel edges collapse. Repeating the edge `u v`, in either
/// direction, right after it changes nothing of the graph.
pub proof fn law_parallel_edges_collapse(p: Seq<Edge>, u: Seq<char>, v: Seq<char>)
    ensures
        graph_of(p.push((u, v)).push((u, v))) == graph_of(p.push((u, v))),
        graph_of(p.push((u, v)).push((v, u))) == graph_of(p.push((u, v))),
{
    broadcast use vstd::seq_lib::group_seq_properties;

    let q = p.push((u, v));
    lemma_node_order_push(p, (u, v));
    lemma_node_order_push(q, (u, v));
    lemma_node_order_push(q, (v, u));
    let n = node_order(q);
    assert(q[q.len() - 1] == (u, v));
    assert(n.contains(u) && n.contains(v)) by {
        lemma_linked_named(q, u, v);
    }
    lemma_repeat_same_graph(q, (u, v));
    lemma_repeat_same_graph(q, (v, u));
}

/// Law: an edge `u v` makes `u` and `v` nodes of the graph; for distinct
/// names it makes them neighbours of each other, and for one name it gives
/// that node a self-loop.
pub proof fn law_edge_joins_its_ends(p: Seq<Edge>, u: Seq<char>, v: Seq<char>)
    requires
        graph_of(p.push((u, v))).n() <= usize::MAX,
    ensures
        ({
            let g = graph_of(p.push((u, v)));
            &&& g.ids.contains_key(u)
            &&& g.ids.contains_key(v)
            &&& g.names[g.ids[u] as int] == u
            &&& g.names[g.ids[v] as int] == v
            &&& u != v ==> g.nbrs[g.ids[u] as int].contains(g.ids[v]) && g.nbrs[g.ids[v] as int].contains(
                g.ids[u],
            )
            &&& u == v ==> g.loops[g.ids[u] as int]
        }),
{
    broadcast use vstd::seq_lib::group_seq_properties;

    let q = p.push((u, v));
    let g = graph_of(q);
    let names = node_order(q);
    assert(q[q.len() - 1] == (u, v));
    assert(linked(q, u, v));
    lemma_linked_named(q, u, v);
    let iu = names.index_of(u);
    let iv = names.index_of(v);
    assert(names[iu] == u);
    assert(names[iv] == v);
    assert(g.ids[u] == iu as usize);
    assert(g.ids[v] == iv as usize);
    if u != v {
        assert(g.nbrs[iu].contains(iv as usize));
        assert(linked(q, v, u));
        assert(g.nbrs[iv].contains(iu as usize));
    }
}

/// Edges that `p` already holds, appended to it, change nothing of the graph.
pub proof fn lemma_graph_of_append(p: Seq<Edge>, q: Seq<Edge>)
    requires
        forall|k: int| 0 <= k < q.len() ==> p.contains(#[trigger] q[k]),
    ensures
        graph_of(p + q) == graph_of(p),
    decreases q.len(),
{
    if q.len() == 0 {
        assert(p + q =~= p);
    } else {
        let d = q.drop_last();
        let e = q.last();
        assert forall|k: int| 0 <= k < d.len() implies p.contains(#[trigger] d[k]) by {
            assert(d[k] == q[k]);
        }
        lemma_graph_of_append(p, d);
        let r = p + d;
        assert(p + q =~= r.push(e));
        assert(p.contains(q[q.len() - 1]));
        let k = choose|k: int| 0 <= k < p.len() && p[k] == e;
        assert(r[k] == e);
        assert(r.contains(e));
        lemma_linked_named(r, e.0, e.1);
        lemma_node_order_push(r, e);
        lemma_repeat_same_graph(r, e);
    }
}

/// Law: reading the same edge list twice gives the same graph as reading it
/// once, node order and neighbour lists included.
pub proof fn law_read_twice(s: Seq<char>)
    requires
        s.len() == 0 || s.last() == '\n',
    ensures
        graph_of(edge_list(s + s)) == graph_of(edge_list(s)),
{
    let p = edge_list(s);
    lemma_edges_concat(s, s, 0);
    assert forall|k: int| 0 <= k < p.len() implies p.contains(#[trigger] p[k]) by {}
    lemma_graph_of_append(p, p);
}

/// Pushing an edge that `q` already links, between names that are nodes
/// already, leaves the graph as it is.
proof fn lemma_repeat_same_graph(q: Seq<Edge>, e: Edge)
    requires
        node_order(q.push(e)) == node_order(q),
        linked(q, e.0, e.1),
        e.0 == e.1 ==> q.contains(e),
    ensures
        graph_of(q.push(e)) == graph_of(q),
{
    broadcast use vstd::seq_lib::group_seq_properties;

    let r = q.push(e);
    let a = graph_of(r);
    let b = graph_of(q);
    let names = node_order(q);
    assert forall|x: Seq<char>, y: Seq<char>| linked(r, x, y) <==> #[trigger] linked(q, x, y) by {
        if r.contains((x, y)) && !q.contains((x, y)) {
            assert((x, y) == e);
        }
        if r.contains((y, x)) && !q.contains((y, x)) {
            assert((y, x) == e);
        }
    }
    assert forall|i: int| 0 <= i < names.len() implies #[trigger] a.nbrs[i] =~= b.nbrs[i] by {
        assert forall|w: usize| a.nbrs[i].contains(w) <==> b.nbrs[i].contains(w) by {
            assert(linked(r, names[i], names[w as int]) == linked(q, names[i], names[w as int]));
        }
    }
    assert forall|i: int| 0 <= i < names.len() implies #[trigger] a.loops[i] == b.loops[i] by {
        if r.contains((names[i], names[i])) && !q.contains((names[i], names[i])) {
            assert((names[i], names[i]) == e);
        }
    }
    assert forall|i: int| 0 <= i < names.len() implies #[trigger] a.adj[i] == b.adj[i] by {
        let x = names[i];
        lemma_neighbour_order_push(q, e, x);
        lemma_first_appearances(others(q, x));
        if e.0 == x && e.1 != x {
            lemma_others(q, x, e.1);
        } else if e.1 == x && e.0 != x {
            lemma_others(q, x, e.0);
        }
    }
    assert(a.nbrs =~= b.nbrs);
    assert(a.adj =~= b.adj);
    assert(a.loops =~= b.loops);
    assert(a.ids =~= b.ids);
}

/// An undirected simple graph over interned integer node ids. Neighbour lists
/// hold no node twice, so parallel edges collapse, and a self-loop is recorded
/// once per node in `self_loop`.
pub struct Graph {
    node_to_idx: StringHashMap<usize>,
    idx_to_node: Vec<String>,
    adj: Vec<Vec<usize>>,
    self_loop: Vec<bool>,
}

impl View for Graph {
    type V = GraphModel;

    open spec fn view(&self) -> GraphModel {
        self.model()
    }
}

impl Graph {
    /// The graph as a mathematical value.
    pub closed spec fn model(&self) -> GraphModel {
        GraphModel {
            names: self.idx_to_node@.map_values(|s: String| s@),
            nbrs: self.adj@.map_values(|l: Vec<usize>| l@.to_set()),
            adj: self.adj@.map_values(|l: Vec<usize>| l@),
            loops: self.self_loop@,
            ids: self.node_to_idx@,
        }
    }

    /// The representation invariant: the name index inverts the name list,
    /// names are distinct, and the neighbour lists are duplicate-free,
    /// in range, irreflexive and symmetric.
    pub closed spec fn wf(&self) -> bool {
        let n = self.idx_to_node@.len();
        &&& self.adj@.len() == n
        &&& self.self_loop@.len() == n
        &&& forall|i: int, j: int|
            0 <= i < n && 0 <= j < n && i != j ==> #[trigger] self.idx_to_node@[i]@
                != #[trigger] self.idx_to_node@[j]@
        &&& forall|k: Seq<char>| #[trigger]
            self.node_to_idx@.contains_key(k) ==> self.node_to_idx@[k] < n
                && self.idx_to_node@[self.node_to_idx@[k] as int]@ == k
        &&& forall|i: int|
            0 <= i < n ==> #[trigger] self.node_to_idx@.contains_key(self.idx_to_node@[i]@)
        &&& forall|i: int| 0 <= i < n ==> (#[trigger] self.adj@[i])@.no_duplicates()
        &&& forall|i: int, t: int|
            0 <= i < n && 0 <= t < self.adj@[i]@.len() ==> #[trigger] self.adj@[i]@[t] < n
                && self.adj@[i]@[t] != i
        &&& forall|i: int, j: usize|
            0 <= i < n && #[trigger] self.adj@[i]@.contains(j) ==> self.adj@[j as int]@.contains(
                i as usize,
            )
    }

    /// A well-formed graph is simple.
    pub proof fn lemma_wf_simple(&self)
        requires
            self.wf(),
        ensures
            self@.simple(),
    {
        let m = self@;
        let n = self.idx_to_node@.len();
        assert(n == self.idx_to_node.len());
        assert forall|i: int, j: int|
            0 <= i < j < m.names.len() implies m.names[i] != m.names[j] by {
            assert(self.idx_to_node@[i]@ != self.idx_to_node@[j]@);
        }
        assert forall|i: int| 0 <= i < n implies #[trigger] m.nbrs[i].finite() by {
            vstd::seq_lib::seq_to_set_is_finite(self.adj@[i]@);
        }
        assert forall|i: int, w: usize|
            0 <= i < n && #[trigger] m.nbrs[i].contains(w) implies w < n && w != i
            && m.nbrs[w as int].contains(i as usize) by {
            assert(self.adj@[i]@.contains(w));
            let t = choose|t: int| 0 <= t < self.adj@[i]@.len() && self.adj@[i]@[t] == w;
            assert(self.adj@[i]@[t] < n);
            assert(self.adj@[w as int]@.contains(i as usize));
        }
        assert forall|x: Seq<char>| #[trigger] m.ids.contains_key(x) <==> m.names.contains(x) by {
            if m.names.contains(x) {
                let i = choose|i: int| 0 <= i < n && m.names[i] == x;
                assert(self.node_to_idx@.contains_key(self.idx_to_node@[i]@));
            }
            if m.ids.contains_key(x) {
                assert(m.names[m.ids[x] as int] == x);
            }
        }
    }

    /// The index of node `name`, interned as a new node if it is not one yet.
    fn intern(&mut self, name: &str) -> (idx: usize)
        requires
            old(self).wf(),
        ensures
            final(self).wf(),
            final(self)@.names == add_new(old(self)@.names, name@),
            idx < final(self)@.n(),
            final(self)@.names[idx as int] == name@,
            final(self)@.ids.contains_key(name@) && final(self)@.ids[name@] == idx,
            old(self)@.names.contains(name@) ==> final(self)@ == old(self)@,
            !old(self)@.names.contains(name@) ==> final(self)@.nbrs == old(self)@.nbrs.push(
                Set::empty(),
            ) && final(self)@.adj == old(self)@.adj.push(Seq::empty()) && final(self)@.loops
                == old(self)@.loops.push(false) && final(self)@.ids == old(self)@.ids.insert(
                name@,
                idx,
            ),
    {
        let ghost m = self@;
        if let Some(found) = self.node_to_idx.get(name) {
            let idx = *found;
            proof {
                assert(m.names[idx as int] == name@);
            }
            return idx;
        }
        proof {
            if m.names.contains(name@) {
                let i = choose|i: int| 0 <= i < m.names.len() && m.names[i] == name@;
                assert(self.node_to_idx@.contains_key(self.idx_to_node@[i]@));
            }
        }
        let idx = self.idx_to_node.len();
        self.node_to_idx.insert(name.to_owned(), idx);
        self.idx_to_node.push(name.to_owned());
        self.adj.push(Vec::new());
        self.self_loop.push(false);
        proof {
            assert(self@.names =~= m.names.push(name@));
            assert(self.adj@[idx as int]@ =~= Seq::<usize>::empty());
            assert(self.adj@[idx as int]@.to_set() =~= Set::<usize>::empty());
            assert(self@.nbrs =~= m.nbrs.push(Set::empty()));
            assert(self@.adj =~= m.adj.push(Seq::empty()));
            assert(self@.loops =~= m.loops.push(false));
        }
        idx
    }

    /// Adds the edge `u v` as a line of the edge list names it: both names
    /// are interned, and the edge is recorded as a self-loop, as a new pair of
    /// neighbours, or not at all where the two are neighbours already.
    #[verifier::spinoff_prover]
    #[verifier::rlimit(60)]
    fn add_edge(&mut self, u: &str, v: &str, Ghost(p): Ghost<Seq<Edge>>)
        requires
            old(self).wf(),
            models(old(self)@, p),
        ensures
            final(self).wf(),
            models(final(self)@, p.push((u@, v@))),
    {
        broadcast use vstd::seq_lib::group_seq_properties;

        let ghost m0 = self@;
        let ghost e: Edge = (u@, v@);
        let ghost q = p.push(e);
        proof {
            self.lemma_wf_simple();
            lemma_node_order_push(p, e);
        }
        let ui = self.intern(u);
        let vi = self.intern(v);
        let ghost m2 = self@;
        proof {
            self.lemma_wf_simple();
            assert(m2.names == node_order(q));
            assert forall|i: int| 0 <= i < m0.n() implies #[trigger] m2.nbrs[i] == m0.nbrs[i]
                && m2.loops[i] == m0.loops[i] && m2.names[i] == m0.names[i] by {}
            assert forall|i: int| m0.n() <= i < m2.n() implies #[trigger] m2.nbrs[i]
                == Set::<usize>::empty() && !m2.loops[i] && !m0.names.contains(m2.names[i]) by {}
            assert forall|a: Seq<char>, b: Seq<char>| #[trigger] linked(q, a, b) <==> (linked(p, a, b) || (
            a == u@ && b == v@) || (a == v@ && b == u@)) by {}
            assert forall|i: int, w: usize|
                0 <= i < m2.n() && w < m2.n() implies (#[trigger] m2.nbrs[i].contains(w) <==> (w
                != i && linked(p, m2.names[i], m2.names[w as int]))) by {
                if linked(p, m2.names[i], m2.names[w as int]) {
                    lemma_linked_named(p, m2.names[i], m2.names[w as int]);
                }
                if i < m0.n() && w < m0.n() {
                } else if i < m0.n() {
                    assert(!m2.nbrs[i].contains(w));
                }
            }
            assert forall|i: int| 0 <= i < m2.n() implies (#[trigger] m2.loops[i] <==> p.contains(
                (m2.names[i], m2.names[i]))) by {
                if p.contains((m2.names[i], m2.names[i])) {
                    lemma_linked_named(p, m2.names[i], m2.names[i]);
                }
            }
            assert forall|i: int| 0 <= i < m2.n() implies #[trigger] m2.adj[i] == neighbour_order(
                p,
                m2.names[i],
            ).map_values(id_in(m2.names)) by {
                if i < m0.n() {
                    assert(m2.adj[i] == m0.adj[i]);
                    lemma_neighbour_ids(p, m2.names[i], m0.names, m2.names);
                } else {
                    assert(m2.adj[i] == Seq::<usize>::empty());
                    lemma_others_unnamed(p, m2.names[i]);
                    assert(neighbour_order(p, m2.names[i]) =~= Seq::<Seq<char>>::empty());
                    assert(neighbour_order(p, m2.names[i]).map_values(id_in(m2.names))
                        =~= Seq::<usize>::empty());
                }
            }
            assert(agrees(m2, p));
            lemma_index_of_distinct(m2.names, ui as int);
            lemma_index_of_distinct(m2.names, vi as int);
            lemma_first_appearances(others(p, u@));
            lemma_first_appearances(others(p, v@));
            lemma_others(p, u@, v@);
            lemma_others(p, v@, u@);
        }
        if ui == vi {
            self.self_loop.set(ui, true);
            proof {
                let mf = self@;
                assert(mf.names == m2.names);
                assert(mf.nbrs == m2.nbrs);
                assert(mf.adj == m2.adj);
                assert forall|i: int| 0 <= i < mf.n() implies (#[trigger] mf.loops[i]
                    <==> q.contains((mf.names[i], mf.names[i]))) by {
                    if i != ui {
                        assert(mf.names[i] != u@);
                    }
                }
                assert forall|i: int| 0 <= i < mf.n() implies #[trigger] mf.adj[i]
                    == neighbour_order(q, mf.names[i]).map_values(id_in(mf.names)) by {
                    lemma_neighbour_order_push(p, e, mf.names[i]);
                }
            }
        } else if !contains_id(&self.adj[ui], vi) {
            proof {
                if self.adj@[vi as int]@.contains(ui) {
                    assert(self.adj@[ui as int]@.contains(vi));
                }
            }
            let ghost a0 = self.adj@;
            self.adj[ui].push(vi);
            self.adj[vi].push(ui);
            proof {
                let n = self.idx_to_node@.len();
                assert forall|i: int| 0 <= i < n implies (#[trigger] self.adj@[i])@.no_duplicates() by {
                    if i == ui {
                        assert(self.adj@[i]@ =~= a0[i]@.push(vi));
                    } else if i == vi {
                        assert(self.adj@[i]@ =~= a0[i]@.push(ui));
                    }
                }
                assert forall|i: int, t: int|
                    0 <= i < n && 0 <= t < self.adj@[i]@.len() implies #[trigger] self.adj@[i]@[t] < n
                        && self.adj@[i]@[t] != i by {
                    if i == ui {
                        assert(self.adj@[i]@ =~= a0[i]@.push(vi));
                    } else if i == vi {
                        assert(self.adj@[i]@ =~= a0[i]@.push(ui));
                    }
                }
                assert forall|i: int, j: usize|
                    0 <= i < n && #[trigger] self.adj@[i]@.contains(j) implies self.adj@[j as int]@.contains(
                        i as usize) by {
                    if i == ui {
                        assert(self.adj@[i]@ =~= a0[i]@.push(vi));
                    } else if i == vi {
                        assert(self.adj@[i]@ =~= a0[i]@.push(ui));
                    }
                    if j == ui {
                        assert(self.adj@[j as int]@ =~= a0[j as int]@.push(vi));
                    } else if j == vi {
                        assert(self.adj@[j as int]@ =~= a0[j as int]@.push(ui));
                    }
                }
                let mf = self@;
                assert(mf.names == m2.names);
                assert(mf.loops == m2.loops);
                assert forall|i: int, w: usize|
                    0 <= i < mf.n() && w < mf.n() implies (#[trigger] mf.nbrs[i].contains(w) <==> (w
                    != i && linked(q, mf.names[i], mf.names[w as int]))) by {
                    if i == ui {
                        assert(mf.nbrs[i] == m2.nbrs[i].insert(vi));
                    } else if i == vi {
                        assert(mf.nbrs[i] == m2.nbrs[i].insert(ui));
                    } else {
                        assert(mf.nbrs[i] == m2.nbrs[i]);
                    }
                }
                assert(!m2.nbrs[ui as int].contains(vi));
                assert(u@ != v@);
                assert forall|i: int| 0 <= i < mf.n() implies #[trigger] mf.adj[i]
                    == neighbour_order(q, mf.names[i]).map_values(id_in(mf.names)) by {
                    lemma_neighbour_order_push(p, e, mf.names[i]);
                    let f = id_in(mf.names);
                    if i == ui {
                        assert(mf.adj[i] =~= m2.adj[i].push(vi));
                        assert(neighbour_order(p, u@).push(v@).map_values(f) =~= neighbour_order(
                            p,
                            u@,
                        ).map_values(f).push(f(v@)));
                    } else if i == vi {
                        assert(mf.adj[i] =~= m2.adj[i].push(ui));
                        assert(neighbour_order(p, v@).push(u@).map_values(f) =~= neighbour_order(
                            p,
                            v@,
                        ).map_values(f).push(f(u@)));
                    } else {
                        assert(mf.adj[i] == m2.adj[i]);
                        assert(mf.names[i] != u@ && mf.names[i] != v@);
                    }
                }
            }
        } else {
            proof {
                assert(m2.nbrs[ui as int].contains(vi));
                assert(u@ != v@);
                assert forall|i: int| 0 <= i < m2.n() implies #[trigger] m2.adj[i]
                    == neighbour_order(q, m2.names[i]).map_values(id_in(m2.names)) by {
                    lemma_neighbour_order_push(p, e, m2.names[i]);
                }
            }
        }
    }

    /// The id of the node named `name`, if there is one.
    pub fn node_index(&self, name: &str) -> (r: Option<usize>)
        requires
            self.wf(),
        ensures
            match r {
                Some(i) => i < self@.n() && self@.names[i as int] == name@,
                None => !self@.names.contains(name@),
            },
    {
        match self.node_to_idx.get(name) {
            Some(i) => Some(*i),
            None => {
                proof {
                    if self@.names.contains(name@) {
                        let i = choose|i: int| 0 <= i < self@.n() && self@.names[i] == name@;
                        assert(self.node_to_idx@.contains_key(self.idx_to_node@[i]@));
                    }
                }
                None
            },
        }
    }

    /// The name of node `i`.
    pub fn name(&self, i: usize) -> (r: &String)
        requires
            i < self@.n(),
        ensures
            r@ == self@.names[i as int],
    {
        &self.idx_to_node[i]
    }

    /// The neighbour list of node `v`: each neighbour once.
    pub fn neighbours(&self, v: usize) -> (l: &Vec<usize>)
        requires
            self.wf(),
            v < self@.n(),
        ensures
            l@ == self@.adj[v as int],
            l@.to_set() == self@.nbrs[v as int],
            l@.no_duplicates(),
            forall|t: int| 0 <= t < l@.len() ==> #[trigger] l@[t] < self@.n(),
    {
        &self.adj[v]
    }

    /// Whether node `v` has a self-loop.
    pub fn has_self_loop(&self, v: usize) -> (b: bool)
        requires
            self.wf(),
            v < self@.n(),
        ensures
            b == self@.loops[v as int],
    {
        self.self_loop[v]
    }

    /// A node has at most `usize::MAX` neighbours.
    pub proof fn lemma_degree_bound(&self, v: int)
        requires
            self.wf(),
            0 <= v < self@.n(),
        ensures
            self@.nbrs[v].len() <= usize::MAX,
            self@.nbrs[v].finite(),
    {
        self.adj@[v]@.unique_seq_to_set();
        vstd::seq_lib::seq_to_set_is_finite(self.adj@[v]@);
        assert(self.adj@[v]@.len() == self.adj@[v].len());
    }

    /// The number of nodes.
    #[must_use]
    pub fn n(&self) -> (n: usize)
        ensures
            n == self@.n(),
    {
        self.idx_to_node.len()
    }

    /// The networkx degree of node `v`: its neighbours, and 2 for a
    /// self-loop.
    pub(crate) fn degree(&self, v: usize) -> (d: u128)
        requires
            self.wf(),
            v < self@.n(),
        ensures
            d == self@.degree_of(v as int),
    {
        proof {
            self.adj@[v as int]@.unique_seq_to_set();
        }
        self.adj[v].len() as u128 + if self.self_loop[v] {
            2
        } else {
            0
        }
    }
}


/// Parses a whitespace-delimited `u v` edge list: a `#` starts a comment
/// anywhere in a line, lines with fewer than two words are skipped, words after
/// the second are ignored, parallel edges collapse and a repeated self-loop
/// counts once, as in a simple `nx.Graph`.
#[must_use]
pub fn parse_edge_list(input: &str) -> (g: Graph)
    ensures
        g.wf(),
        g@ == graph_of(edge_list(input@)),
        g@.simple(),
{
    let mut g = Graph {
        node_to_idx: StringHashMap::new(),
        idx_to_node: Vec::new(),
        adj: Vec::new(),
        self_loop: Vec::new(),
    };
    proof {
        assert(g@.names =~= node_order(seq![]));
    }
    let chars = chars_of(input);
    let s = chars.as_slice();
    let mut pos: usize = 0;
    let ghost mut done: Seq<Edge> = seq![];
    while pos < s.len()
        invariant
            pos <= s@.len(),
            s@ == input@,
            g.wf(),
            models(g@, done),
            done + edges_from(s@, pos as int) == edge_list(s@),
        decreases s@.len() - pos,
    {
        let e = find_char_at(s, pos, '\n');
        proof {
            lemma_first_from(char_in(s@, '\n'), pos as int, s@.len() as int);
        }
        let line = &s[pos..e];
        let h = find_char_at(line, 0, '#');
        proof {
            lemma_first_from(char_in(line@, '#'), 0, line@.len() as int);
        }
        let content = &line[0..h];
        assert(content@ == before_hash(line@));
        let words = two_words(content);
        let ghost rest = edges_from(s@, e + 1);
        match words {
            Some((u, v)) => {
                g.add_edge(u.as_str(), v.as_str(), Ghost(done));
                proof {
                    assert(line_edge(line@) == Some((u@, v@)));
                    assert(edges_from(s@, pos as int) == seq![(u@, v@)] + rest);
                    assert(done + edges_from(s@, pos as int) =~= done.push((u@, v@)) + rest);
                    done = done.push((u@, v@));
                }
            },
            None => {
                assert(edges_from(s@, pos as int) == rest);
            },
        }
        if e < s.len() {
            pos = e + 1;
        } else {
            pos = e;
        }
    }
    proof {
        assert(done =~= edge_list(s@));
        g.lemma_wf_simple();
        lemma_models_graph_of(g@, done);
    }
    g
}

/// Whether `x` is in `l`.
fn contains_id(l: &Vec<usize>, x: usize) -> (b: bool)
    ensures
        b == l@.contains(x),
{
    let mut i: usize = 0;
    while i < l.len()
        invariant
            i <= l@.len(),
            forall|k: int| 0 <= k < i ==> l@[k] != x,
        decreases l@.len() - i,
    {
        if l[i] == x {
            return true;
        }
        i = i + 1;
    }
    false
}

} // verus!
