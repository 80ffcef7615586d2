//! Per-community tallies of intra-community edges and degree sums: the
//! integer quantities that the modularity formula is made of.

use vstd::prelude::*;
use crate::edges::edge_list;
use crate::graph::{Graph, GraphModel, graph_of, parse_edge_list};
use crate::partition::{
    PartitionError, assignments_view, communities, community_ids, label_order, partition_fault,
};

verus! {

/// `f(0) + f(1) + ... + f(k - 1)`.
pub open spec fn sum_to(f: spec_fn(int) -> nat, k: int) -> nat
    decreases k,
{
    if k <= 0 {
        0
    } else {
        sum_to(f, k - 1) + f(k - 1)
    }
}

/// A sum of `k` terms that are each at most `b` is at most `k * b`.
pub proof fn lemma_sum_bound(f: spec_fn(int) -> nat, k: int, b: nat)
    requires
        0 <= k,
        forall|v: int| 0 <= v < k ==> #[trigger] f(v) <= b,
    ensures
        sum_to(f, k) <= k * b,
    decreases k,
{
    if k > 0 {
        lemma_sum_bound(f, k - 1, b);
        assert((k - 1) * b + b == k * b) by (nonlinear_arith);
    }
}

/// Up to `usize::MAX` terms of at most `usize::MAX + 2` fit in a `u128`.
proof fn lemma_u128_room(k: int, b: nat)
    requires
        0 <= k <= usize::MAX,
        b <= usize::MAX + 2,
    ensures
        k * b <= u128::MAX,
{
    assert(usize::MAX <= 0xffff_ffff_ffff_ffff);
    assert(k * b <= u128::MAX) by (nonlinear_arith)
        requires
            0 <= k <= usize::MAX,
            b <= usize::MAX + 2,
            usize::MAX <= 0xffff_ffff_ffff_ffff,
    ;
}

/// The degree of each node.
pub open spec fn degree_fn(m: GraphModel) -> spec_fn(int) -> nat {
    |v: int| m.degree_of(v)
}

/// The degree of each node of community `c`, and 0 for the other nodes.
pub open spec fn community_degree_fn(m: GraphModel, comm: Seq<usize>, c: int) -> spec_fn(
    int,
) -> nat {
    |v: int|
        if comm[v] == c {
            m.degree_of(v)
        } else {
            0
        }
}

/// Neighbour `w` of node `v` comes after `v` and lies in community `c`.
pub open spec fn later_in(comm: Seq<usize>, c: int, v: int) -> spec_fn(usize) -> bool {
    |w: usize| w > v && comm[w as int] == c
}

/// For a node of community `c`: its edges to later nodes of `c`, and 1 for a
/// self-loop; 0 for the other nodes. Summed over the nodes, each
/// intra-community edge counts once.
pub open spec fn intra_fn(m: GraphModel, comm: Seq<usize>, c: int) -> spec_fn(int) -> nat {
    |v: int|
        if comm[v] == c {
            m.nbrs[v].filter(later_in(comm, c, v)).len() + if m.loops[v] {
                1nat
            } else {
                0nat
            }
        } else {
            0
        }
}

/// The sum of all node degrees.
pub open spec fn total_degree(m: GraphModel) -> nat {
    sum_to(degree_fn(m), m.n() as int)
}

/// The sum of the degrees of the nodes of community `c`.
pub open spec fn community_degree(m: GraphModel, comm: Seq<usize>, c: int) -> nat {
    sum_to(community_degree_fn(m, comm, c), m.n() as int)
}

/// The number of edges within community `c`, self-loops included, each
/// counted once.
pub open spec fn intra_edges(m: GraphModel, comm: Seq<usize>, c: int) -> nat {
    sum_to(intra_fn(m, comm, c), m.n() as int)
}

/// The integer quantities of the modularity formula for a graph and a
/// community assignment: `deg_sum = sum_v deg(v)` and, for each community
/// `c`, `L_c` (`intra_edges[c]`) and `k_c` (`degree_sums[c]`).
#[derive(Debug)]
pub struct CommunityTally {
    pub deg_sum: u128,
    pub intra_edges: Vec<u128>,
    pub degree_sums: Vec<u128>,
}

impl CommunityTally {
    /// This tally is that of graph `m` with node `v` in community `comm[v]`,
    /// over communities `0 .. n_communities`.
    pub open spec fn tallies(self, m: GraphModel, comm: Seq<usize>, n_communities: nat) -> bool {
        &&& self.deg_sum == total_degree(m)
        &&& self.intra_edges@.len() == n_communities
        &&& self.degree_sums@.len() == n_communities
        &&& forall|c: int|
            0 <= c < n_communities ==> #[trigger] self.intra_edges@[c] == intra_edges(m, comm, c)
                && self.degree_sums@[c] == community_degree(m, comm, c)
    }
}

/// A vector of `n` zeros.
fn zeros(n: usize) -> (v: Vec<u128>)
    ensures
        v@.len() == n,
        forall|i: int| 0 <= i < n ==> #[trigger] v@[i] == 0,
{
    let mut v: Vec<u128> = Vec::new();
    while v.len() < n
        invariant
            v@.len() <= n,
            forall|i: int| 0 <= i < v@.len() ==> #[trigger] v@[i] == 0,
        decreases n - v@.len(),
    {
        v.push(0);
    }
    v
}

/// The number of elements of a duplicate-free sequence that satisfy `p` is
/// the number of elements of its set that do.
pub proof fn lemma_filter_len_set<A>(s: Seq<A>, p: spec_fn(A) -> bool)
    requires
        s.no_duplicates(),
    ensures
        s.filter(p).len() == s.to_set().filter(p).len(),
        s.to_set().filter(p).finite(),
    decreases s.len(),
{
    broadcast use vstd::set::group_set_axioms;

    vstd::seq_lib::seq_to_set_is_finite(s);
    s.to_set().lemma_len_filter(p);
    if s.len() == 0 {
        reveal(Seq::filter);
        assert(s.to_set().filter(p) =~= Set::empty());
    } else {
        let d = s.drop_last();
        let x = s.last();
        assert(s =~= d.push(x));
        assert(d.no_duplicates());
        lemma_filter_len_set(d, p);
        d.lemma_push_to_set_commute(x);
        assert(!d.contains(x));
        assert(!d.to_set().contains(x));
        d.lemma_filter_push(x, p);
        if p(x) {
            assert(s.to_set().filter(p) =~= d.to_set().filter(p).insert(x));
        } else {
            assert(s.to_set().filter(p) =~= d.to_set().filter(p));
        }
    }
}

/// Tallies, for the community assignment `comm_of` (node `v` in community
/// `comm_of[v]`, communities `0 .. n_communities`), the degree sum of the graph
/// and, per community, its intra-community edges and its degree sum.
pub fn community_tally(g: &Graph, comm_of: &[usize], n_communities: usize) -> (t: CommunityTally)
    requires
        g.wf(),
        comm_of@.len() == g@.n(),
        forall|v: int| 0 <= v < g@.n() ==> #[trigger] comm_of@[v] < n_communities,
    ensures
        t.tallies(g@, comm_of@, n_communities as nat),
{
    let ghost m = g@;
    let ghost comm = comm_of@;
    let n = g.n();
    let ghost bound: nat = (usize::MAX + 2) as nat;
    proof {
        assert forall|v: int| 0 <= v < n implies #[trigger] degree_fn(m)(v) <= bound by {
            g.lemma_degree_bound(v);
        }
    }

    let mut deg_sum: u128 = 0;
    let mut v: usize = 0;
    while v < n
        invariant
            g.wf(),
            m == g@,
            n == m.n(),
            v <= n,
            deg_sum == sum_to(degree_fn(m), v as int),
            forall|u: int| 0 <= u < n ==> #[trigger] degree_fn(m)(u) <= bound,
            bound == usize::MAX + 2,
        decreases n - v,
    {
        let d = g.degree(v);
        proof {
            lemma_sum_bound(degree_fn(m), v + 1, bound);
            lemma_u128_room(v + 1, bound);
            assert(sum_to(degree_fn(m), v + 1) == deg_sum + d);
        }
        deg_sum = deg_sum + d;
        v = v + 1;
    }

    let mut degree_sums = zeros(n_communities);
    let mut v: usize = 0;
    while v < n
        invariant
            g.wf(),
            m == g@,
            comm == comm_of@,
            comm.len() == n,
            n == m.n(),
            forall|u: int| 0 <= u < n ==> #[trigger] comm[u] < n_communities,
            v <= n,
            degree_sums@.len() == n_communities,
            forall|c: int|
                0 <= c < n_communities ==> #[trigger] degree_sums@[c] == sum_to(
                    community_degree_fn(m, comm, c),
                    v as int,
                ),
            forall|u: int| 0 <= u < n ==> #[trigger] degree_fn(m)(u) <= bound,
            bound == usize::MAX + 2,
        decreases n - v,
    {
        let c = comm_of[v];
        let d = g.degree(v);
        proof {
            assert forall|u: int| 0 <= u < v + 1 implies #[trigger] community_degree_fn(m, comm, c as int)(u) <= bound by {
                assert(degree_fn(m)(u) <= bound);
            }
            lemma_sum_bound(community_degree_fn(m, comm, c as int), v + 1, bound);
            lemma_u128_room(v + 1, bound);
            assert(sum_to(community_degree_fn(m, comm, c as int), v + 1) == degree_sums@[c as int] + d);
        }
        let s = degree_sums[c] + d;
        degree_sums.set(c, s);
        v = v + 1;
    }

    let mut intra = zeros(n_communities);
    let mut v: usize = 0;
    while v < n
        invariant
            g.wf(),
            m == g@,
            comm == comm_of@,
            comm.len() == n,
            n == m.n(),
            forall|u: int| 0 <= u < n ==> #[trigger] comm[u] < n_communities,
            v <= n,
            intra@.len() == n_communities,
            forall|c: int|
                0 <= c < n_communities ==> #[trigger] intra@[c] == sum_to(
                    intra_fn(m, comm, c),
                    v as int,
                ),
        decreases n - v,
    {
        let cv = comm_of[v];
        let nb = g.neighbours(v);
        let ghost p = later_in(comm, cv as int, v as int);
        let mut count: u128 = 0;
        let mut t: usize = 0;
        proof {
            g.lemma_degree_bound(v as int);
            nb@.unique_seq_to_set();
        }
        while t < nb.len()
            invariant
                t <= nb@.len(),
                nb@.len() <= usize::MAX,
                forall|k: int| 0 <= k < nb@.len() ==> #[trigger] nb@[k] < n,
                comm.len() == n,
                comm == comm_of@,
                count == nb@.take(t as int).filter(p).len(),
                count <= t,
                p == later_in(comm, cv as int, v as int),
            decreases nb@.len() - t,
        {
            let w = nb[t];
            proof {
                assert(nb@.take(t + 1) =~= nb@.take(t as int).push(w));
                nb@.take(t as int).lemma_filter_push(w, p);
            }
            assert(p(w) == (comm[w as int] == cv && v < w));
            if comm_of[w] == cv && v < w {
                count = count + 1;
            }
            t = t + 1;
        }
        proof {
            assert(nb@.take(nb@.len() as int) =~= nb@);
            lemma_filter_len_set(nb@, p);
        }
        let extra: u128 = if g.has_self_loop(v) {
            1
        } else {
            0
        };
        proof {
            let b: nat = (usize::MAX + 2) as nat;
            assert forall|u: int| 0 <= u < v + 1 implies #[trigger] intra_fn(m, comm, cv as int)(u) <= b by {
                if comm[u] == cv {
                    assert(u < n);
                    g.lemma_degree_bound(u);
                    m.nbrs[u].lemma_len_filter(later_in(comm, cv as int, u));
                }
            }
            lemma_sum_bound(intra_fn(m, comm, cv as int), v + 1, b);
            lemma_u128_room(v + 1, b);
        }
        let s = intra[cv] + count + extra;
        intra.set(cv, s);
        v = v + 1;
    }
    CommunityTally { deg_sum, intra_edges: intra, degree_sums }
}


/// Parses an edge list, assigns communities from `(node, label)` pairs and
/// tallies the graph under that partition. Communities are numbered in the
/// first-appearance order of their labels.
///
/// Fails, with the first fault, where the assignments do not partition the
/// nodes: a node not in the graph, a node assigned twice, or a node assigned
/// nowhere.
pub fn tally_from_edge_list(input: &str, assignments: &[(String, String)]) -> (r: Result<
    CommunityTally,
    PartitionError,
>)
    ensures
        ({
            let m = graph_of(edge_list(input@));
            let a = assignments_view(assignments@);
            match r {
                Ok(t) => {
                    &&& partition_fault(m.names, a) is None
                    &&& t.tallies(m, communities(m.names, a), label_order(a).len())
                },
                Err(e) => partition_fault(m.names, a) == Some(e@),
            }
        }),
{
    let g = parse_edge_list(input);
    let mut n_communities: usize = 0;
    match community_ids(&g, assignments, &mut n_communities) {
        Ok(comm_of) => {
            proof {
                assert(comm_of@ =~= communities(g@.names, assignments_view(assignments@)));
            }
            Ok(community_tally(&g, comm_of.as_slice(), n_communities))
        },
        Err(e) => Err(e),
    }
}

} // verus!
