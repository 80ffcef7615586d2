//! What holds of every tally: the degree sum counts each edge twice, the
//! communities share out the degree sum, and their intra-community edges are
//! edges of the graph.

use vstd::prelude::*;
use crate::graph::GraphModel;
use crate::tally::{
    sum_to, lemma_sum_bound, degree_fn, community_degree_fn, community_degree, intra_fn,
    intra_edges, total_degree, later_in,
};

verus! {

/// Sums of pointwise equal terms are equal.
pub proof fn lemma_sum_ext(f: spec_fn(int) -> nat, g: spec_fn(int) -> nat, k: int)
    requires
        forall|v: int| 0 <= v < k ==> #[trigger] f(v) == g(v),
    ensures
        sum_to(f, k) == sum_to(g, k),
    decreases k,
{
    if k > 0 {
        lemma_sum_ext(f, g, k - 1);
    }
}

/// The sum of pointwise sums is the sum of the sums.
pub proof fn lemma_sum_add(f: spec_fn(int) -> nat, g: spec_fn(int) -> nat, h: spec_fn(int) -> nat, k: int)
    requires
        forall|v: int| 0 <= v < k ==> #[trigger] h(v) == f(v) + g(v),
    ensures
        sum_to(h, k) == sum_to(f, k) + sum_to(g, k),
    decreases k,
{
    if k > 0 {
        lemma_sum_add(f, g, h, k - 1);
    }
}

/// Sums are monotone in their terms.
pub proof fn lemma_sum_mono(f: spec_fn(int) -> nat, g: spec_fn(int) -> nat, k: int)
    requires
        forall|v: int| 0 <= v < k ==> #[trigger] f(v) <= g(v),
    ensures
        sum_to(f, k) <= sum_to(g, k),
    decreases k,
{
    if k > 0 {
        lemma_sum_mono(f, g, k - 1);
    }
}

/// Adding `d` to one term `c0` adds `d` to the sum, where `c0` is in range.
pub proof fn lemma_sum_bump(f: spec_fn(int) -> nat, g: spec_fn(int) -> nat, k: int, c0: int, d: nat)
    requires
        forall|c: int| 0 <= c < k ==> #[trigger] g(c) == f(c) + if c == c0 {
            d
        } else {
            0nat
        },
    ensures
        sum_to(g, k) == sum_to(f, k) + if 0 <= c0 < k {
            d
        } else {
            0nat
        },
    decreases k,
{
    if k > 0 {
        lemma_sum_bump(f, g, k - 1, c0, d);
    }
}

/// Summing a table over its communities and then its nodes gives the sum of
/// its node terms `t`, where row `c` holds `t(v)` for the nodes `v` of
/// community `c` and 0 elsewhere.
pub proof fn lemma_exchange(
    rows: spec_fn(int) -> spec_fn(int) -> nat,
    t: spec_fn(int) -> nat,
    comm: Seq<usize>,
    nc: int,
    k: int,
)
    requires
        0 <= k <= comm.len(),
        0 <= nc,
        forall|v: int| 0 <= v < k ==> #[trigger] comm[v] < nc,
        forall|c: int, v: int|
            0 <= c < nc && 0 <= v < k ==> #[trigger] rows(c)(v) == if comm[v] == c {
                t(v)
            } else {
                0nat
            },
    ensures
        sum_to(|c: int| sum_to(rows(c), k), nc) == sum_to(t, k),
    decreases k,
{
    if k == 0 {
        lemma_sum_bound(|c: int| sum_to(rows(c), k), nc, 0);
        assert(nc * 0 == 0) by (nonlinear_arith);
    } else {
        lemma_exchange(rows, t, comm, nc, k - 1);
        let f = |c: int| sum_to(rows(c), k - 1);
        let g = |c: int| sum_to(rows(c), k);
        assert forall|c: int| 0 <= c < nc implies #[trigger] g(c) == f(c) + if c == comm[k - 1] {
            t(k - 1)
        } else {
            0nat
        } by {
            assert(rows(c)(k - 1) == if comm[k - 1] == c {
                t(k - 1)
            } else {
                0nat
            });
        }
        lemma_sum_bump(f, g, nc, comm[k - 1] as int, t(k - 1));
    }
}

/// The number of edges of each node to later nodes; summed, each edge
/// between two distinct nodes counts once.
pub open spec fn edge_fn(m: GraphModel) -> spec_fn(int) -> nat {
    |v: int| m.nbrs[v].filter(above(v)).len()
}

/// 1 for a node with a self-loop, else 0.
pub open spec fn loop_fn(m: GraphModel) -> spec_fn(int) -> nat {
    |v: int|
        if m.loops[v] {
            1nat
        } else {
            0nat
        }
}

/// The number of edges between two distinct nodes.
pub open spec fn edge_count(m: GraphModel) -> nat {
    sum_to(edge_fn(m), m.n() as int)
}

/// The number of self-loops.
pub open spec fn loop_count(m: GraphModel) -> nat {
    sum_to(loop_fn(m), m.n() as int)
}

/// Ids above `v`.
pub open spec fn above(v: int) -> spec_fn(usize) -> bool {
    |w: usize| w > v
}

/// Ids below `k`.
pub open spec fn below(k: int) -> spec_fn(usize) -> bool {
    |w: usize| w < k
}

/// Ids strictly between `v` and `k`.
pub open spec fn between(v: int, k: int) -> spec_fn(usize) -> bool {
    |w: usize| v < w && w < k
}

/// 1 where `s` holds the id, else 0.
pub open spec fn member_fn(s: Set<usize>) -> spec_fn(int) -> nat {
    |v: int|
        if s.contains(v as usize) {
            1nat
        } else {
            0nat
        }
}

/// Counting the members of `s` below `k` one id at a time gives the size of
/// `s` below `k`.
pub proof fn lemma_count_below(s: Set<usize>, k: int)
    requires
        s.finite(),
        0 <= k <= usize::MAX,
    ensures
        sum_to(member_fn(s), k) == s.filter(below(k)).len(),
    decreases k,
{
    broadcast use vstd::set::group_set_axioms;

    if k == 0 {
        assert(s.filter(below(k)) =~= Set::empty());
    } else {
        lemma_count_below(s, k - 1);
        s.lemma_len_filter(below(k - 1));
        let x = (k - 1) as usize;
        if s.contains(x) {
            assert(s.filter(below(k)) =~= s.filter(below(k - 1)).insert(x));
        } else {
            assert(s.filter(below(k)) =~= s.filter(below(k - 1)));
        }
    }
}

/// The number of edges of each node to later nodes below `k`.
pub open spec fn edges_below(m: GraphModel, k: int) -> spec_fn(int) -> nat {
    |v: int| m.nbrs[v].filter(between(v, k)).len()
}

/// Counted from their lower end or from their upper end, the edges among
/// the first `k` nodes are as many.
proof fn lemma_edges_both_ends(m: GraphModel, k: int)
    requires
        m.simple(),
        0 <= k <= m.n(),
    ensures
        sum_to(edges_below(m, k), k) == sum_to(|v: int| m.nbrs[v].filter(below(v)).len(), k),
    decreases k,
{
    broadcast use vstd::set::group_set_axioms;

    let down = |v: int| m.nbrs[v].filter(below(v)).len();
    if k > 0 {
        let j = k - 1;
        lemma_edges_both_ends(m, j);
        // The last node has no later node below `k`.
        assert(m.nbrs[j].filter(between(j, k)) =~= Set::empty());
        // Each earlier node gains node `j` where it is a neighbour.
        let x = j as usize;
        assert forall|v: int| 0 <= v < j implies #[trigger] edges_below(m, k)(v) == edges_below(m, j)(v)
            + member_fn(m.nbrs[j])(v) by {
            m.nbrs[v].lemma_len_filter(between(v, j));
            if m.nbrs[v].contains(x) {
                assert(m.nbrs[j].contains(v as usize));
                assert(m.nbrs[v].filter(between(v, k)) =~= m.nbrs[v].filter(between(v, j)).insert(x));
            } else {
                if m.nbrs[j].contains(v as usize) {
                    assert(m.nbrs[v].contains(x));
                }
                assert(m.nbrs[v].filter(between(v, k)) =~= m.nbrs[v].filter(between(v, j)));
            }
        }
        lemma_sum_add(edges_below(m, j), member_fn(m.nbrs[j]), edges_below(m, k), j);
        lemma_count_below(m.nbrs[j], j);
    }
}

/// Law (handshake): the degree sum is twice the number of edges, self-loops
/// included, so that `m = deg_sum / 2` is the edge count.
pub proof fn law_degree_sum_counts_edges_twice(m: GraphModel)
    requires
        m.simple(),
    ensures
        total_degree(m) == 2 * (edge_count(m) + loop_count(m)),
{
    broadcast use vstd::set::group_set_axioms;

    let n = m.n() as int;
    let down = |v: int| m.nbrs[v].filter(below(v)).len();
    lemma_edges_both_ends(m, n);
    assert forall|v: int| 0 <= v < n implies #[trigger] edges_below(m, n)(v) == edge_fn(m)(v) by {
        assert(m.nbrs[v].filter(between(v, n)) =~= m.nbrs[v].filter(above(v)));
    }
    lemma_sum_ext(edges_below(m, n), edge_fn(m), n);
    // Each degree splits into later neighbours, earlier neighbours and the loop.
    let both = |v: int| edge_fn(m)(v) + down(v);
    let twice = |v: int| loop_fn(m)(v) + loop_fn(m)(v);
    let all = |v: int| both(v) + twice(v);
    assert forall|v: int| 0 <= v < n implies #[trigger] degree_fn(m)(v) == all(v) by {
        let s = m.nbrs[v];
        s.lemma_len_filter(above(v));
        s.lemma_len_filter(below(v));
        vstd::set_lib::lemma_set_disjoint_lens(s.filter(above(v)), s.filter(below(v)));
        assert(s.filter(above(v)).disjoint(s.filter(below(v))));
        assert(s =~= s.filter(above(v)) + s.filter(below(v)));
    }
    lemma_sum_ext(degree_fn(m), all, n);
    lemma_sum_add(both, twice, all, n);
    lemma_sum_add(edge_fn(m), down, both, n);
    lemma_sum_add(loop_fn(m), loop_fn(m), twice, n);
}

/// Law: the community degree sums `k_c` share out the degree sum.
pub proof fn law_degree_sums_partition(m: GraphModel, comm: Seq<usize>, nc: nat)
    requires
        comm.len() == m.n(),
        forall|v: int| 0 <= v < m.n() ==> #[trigger] comm[v] < nc,
    ensures
        sum_to(|c: int| community_degree(m, comm, c), nc as int) == total_degree(m),
{
    let n = m.n() as int;
    let rows = |c: int| community_degree_fn(m, comm, c);
    lemma_exchange(rows, degree_fn(m), comm, nc as int, n);
    lemma_sum_ext(|c: int| community_degree(m, comm, c), |c: int| sum_to(rows(c), n), nc as int);
}

/// Law: the intra-community edges `L_c` of all communities together are at
/// most the edges of the graph, self-loops included.
pub proof fn law_intra_edges_within_graph(m: GraphModel, comm: Seq<usize>, nc: nat)
    requires
        m.simple(),
        comm.len() == m.n(),
        forall|v: int| 0 <= v < m.n() ==> #[trigger] comm[v] < nc,
    ensures
        sum_to(|c: int| intra_edges(m, comm, c), nc as int) <= edge_count(m) + loop_count(m),
{
    let n = m.n() as int;
    let rows = |c: int| intra_fn(m, comm, c);
    let t = |v: int| intra_fn(m, comm, comm[v] as int)(v);
    lemma_exchange(rows, t, comm, nc as int, n);
    lemma_sum_ext(|c: int| intra_edges(m, comm, c), |c: int| sum_to(rows(c), n), nc as int);
    let bound = |v: int| edge_fn(m)(v) + loop_fn(m)(v);
    assert forall|v: int| 0 <= v < n implies #[trigger] t(v) <= bound(v) by {
        let s = m.nbrs[v];
        let c = comm[v] as int;
        s.lemma_len_filter(above(v));
        vstd::set_lib::lemma_len_subset(s.filter(later_in(comm, c, v)), s.filter(above(v)));
    }
    lemma_sum_mono(t, bound, n);
    lemma_sum_add(edge_fn(m), loop_fn(m), bound, n);
}

/// Law: with every node in one community, that community holds every edge
/// and the whole degree sum, so that `2 * L_0 == deg_sum == k_0` and
/// `Q = 1 - gamma`.
pub proof fn law_single_community(m: GraphModel, comm: Seq<usize>)
    requires
        m.simple(),
        comm.len() == m.n(),
        forall|v: int| 0 <= v < m.n() ==> #[trigger] comm[v] == 0,
    ensures
        intra_edges(m, comm, 0) == edge_count(m) + loop_count(m),
        community_degree(m, comm, 0) == total_degree(m),
        2 * intra_edges(m, comm, 0) == total_degree(m),
{
    let n = m.n() as int;
    let sum = |v: int| edge_fn(m)(v) + loop_fn(m)(v);
    assert forall|v: int| 0 <= v < n implies #[trigger] intra_fn(m, comm, 0)(v) == sum(v) by {
        let s = m.nbrs[v];
        assert forall|w: usize| s.contains(w) implies (#[trigger] later_in(comm, 0, v)(w) == above(v)(w)) by {
            assert(w < n);
        }
        assert(s.filter(later_in(comm, 0, v)) =~= s.filter(above(v)));
    }
    lemma_sum_ext(intra_fn(m, comm, 0), sum, n);
    lemma_sum_add(edge_fn(m), loop_fn(m), sum, n);
    lemma_sum_ext(community_degree_fn(m, comm, 0), degree_fn(m), n);
    law_degree_sum_counts_edges_twice(m);
}


/// The subgraph induced by community `c`: its nodes keep their names, but
/// only edges and self-loops with every endpoint in `c` remain.
pub open spec fn induced(m: GraphModel, comm: Seq<usize>, c: int) -> GraphModel {
    GraphModel {
        names: m.names,
        nbrs: Seq::new(
            m.n(),
            |v: int|
                if comm[v] == c {
                    m.nbrs[v].filter(|w: usize| comm[w as int] == c)
                } else {
                    Set::empty()
                },
        ),
        adj: m.adj,
        loops: Seq::new(m.n(), |v: int| m.loops[v] && comm[v] == c),
        ids: m.ids,
    }
}

/// Law: `L_c` counts the edges of the subgraph induced by community `c`:
/// every edge between two distinct nodes of `c` once, and every self-loop of
/// a node of `c`.
pub proof fn law_intra_edges_are_induced_edges(m: GraphModel, comm: Seq<usize>, c: int)
    requires
        comm.len() == m.n(),
    ensures
        intra_edges(m, comm, c) == edge_count(induced(m, comm, c)) + loop_count(
            induced(m, comm, c),
        ),
{
    let n = m.n() as int;
    let g = induced(m, comm, c);
    let sum = |v: int| edge_fn(g)(v) + loop_fn(g)(v);
    assert forall|v: int| 0 <= v < n implies #[trigger] intra_fn(m, comm, c)(v) == sum(v) by {
        let in_c = |w: usize| comm[w as int] == c;
        if comm[v] == c {
            assert(g.nbrs[v] == m.nbrs[v].filter(in_c));
            assert(m.nbrs[v].filter(later_in(comm, c, v)) =~= m.nbrs[v].filter(in_c).filter(
                above(v),
            ));
            assert(g.loops[v] == m.loops[v]);
        } else {
            assert(g.nbrs[v] == Set::<usize>::empty());
            assert(Set::<usize>::empty().filter(above(v)) =~= Set::<usize>::empty());
            assert(!g.loops[v]);
        }
    }
    lemma_sum_ext(intra_fn(m, comm, c), sum, n);
    lemma_sum_add(edge_fn(g), loop_fn(g), sum, n);
}

/// For each node, its edges to later nodes of another community.
pub open spec fn cross_fn(m: GraphModel, comm: Seq<usize>) -> spec_fn(int) -> nat {
    |v: int| m.nbrs[v].filter(|w: usize| w > v && comm[w as int] != comm[v]).len()
}

/// The number of edges whose endpoints lie in different communities.
pub open spec fn cross_edges(m: GraphModel, comm: Seq<usize>) -> nat {
    sum_to(cross_fn(m, comm), m.n() as int)
}

/// Law: every edge of the graph, self-loops included, lies either within one
/// community, where some `L_c` counts it once, or between two communities:
/// `sum_c L_c + cross_edges == edge_count + loop_count`.
pub proof fn law_intra_and_cross_edges_are_all_edges(m: GraphModel, comm: Seq<usize>, nc: nat)
    requires
        m.simple(),
        comm.len() == m.n(),
        forall|v: int| 0 <= v < m.n() ==> #[trigger] comm[v] < nc,
    ensures
        sum_to(|c: int| intra_edges(m, comm, c), nc as int) + cross_edges(m, comm) == edge_count(
            m,
        ) + loop_count(m),
{
    broadcast use vstd::set::group_set_axioms;

    let n = m.n() as int;
    let rows = |c: int| intra_fn(m, comm, c);
    let t = |v: int| intra_fn(m, comm, comm[v] as int)(v);
    lemma_exchange(rows, t, comm, nc as int, n);
    lemma_sum_ext(|c: int| intra_edges(m, comm, c), |c: int| sum_to(rows(c), n), nc as int);
    let both = |v: int| t(v) + cross_fn(m, comm)(v);
    let all = |v: int| edge_fn(m)(v) + loop_fn(m)(v);
    assert forall|v: int| 0 <= v < n implies #[trigger] both(v) == all(v) by {
        let s = m.nbrs[v];
        let cv = comm[v] as int;
        let same = s.filter(later_in(comm, cv, v));
        let other = s.filter(|w: usize| w > v && comm[w as int] != comm[v]);
        s.lemma_len_filter(later_in(comm, cv, v));
        s.lemma_len_filter(|w: usize| w > v && comm[w as int] != comm[v]);
        vstd::set_lib::lemma_set_disjoint_lens(same, other);
        assert(same.disjoint(other));
        assert(s.filter(above(v)) =~= same + other);
    }
    lemma_sum_add(t, cross_fn(m, comm), both, n);
    lemma_sum_ext(both, all, n);
    lemma_sum_add(edge_fn(m), loop_fn(m), all, n);
}

} // verus!
