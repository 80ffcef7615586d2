//! Community ids from `(node, label)` assignments, and the check that the
//! assignments partition the nodes of the graph.

use vstd::prelude::*;
use vstd::hash_map::StringHashMap;
use crate::graph::{Graph, first_appearances, lemma_first_appearances, lemma_first_appearances_push};
use crate::text::{
    concat3, debug_quote, debug_text, first_from, lemma_first_from, lemma_first_from_ext,
    lemma_first_from_unique,
};

verus! {

/// An assignment as the text gives it: a node name and a community label.
pub type Assignment = (Seq<char>, Seq<char>);

/// The view of a list of `(node, label)` pairs.
pub open spec fn assignments_view(a: Seq<(String, String)>) -> Seq<Assignment> {
    a.map_values(|x: (String, String)| (x.0@, x.1@))
}

/// Assignment `k` is at fault: its node is no node of the graph, or an
/// earlier assignment names the same node.
pub open spec fn at_fault(names: Seq<Seq<char>>, a: Seq<Assignment>) -> spec_fn(int) -> bool {
    |k: int| !names.contains(a[k].0) || exists|j: int| 0 <= j < k && a[j].0 == a[k].0
}

/// The index of the first assignment at fault, or `a.len()`.
pub open spec fn first_fault(names: Seq<Seq<char>>, a: Seq<Assignment>) -> int {
    first_from(at_fault(names, a), 0, a.len() as int)
}

/// Some assignment names node `x`.
pub open spec fn assigned(a: Seq<Assignment>, x: Seq<char>) -> bool {
    exists|k: int| 0 <= k < a.len() && a[k].0 == x
}

/// Node `i` is assigned to no community.
pub open spec fn unassigned_in(names: Seq<Seq<char>>, a: Seq<Assignment>) -> spec_fn(int) -> bool {
    |i: int| !assigned(a, names[i])
}

/// The first node that no assignment names, or `names.len()`.
pub open spec fn first_unassigned(names: Seq<Seq<char>>, a: Seq<Assignment>) -> int {
    first_from(unassigned_in(names, a), 0, names.len() as int)
}

/// Why a list of assignments is not a partition of the nodes.
pub enum PartitionFault {
    /// The named node is no node of the graph.
    StrayNode(Seq<char>),
    /// The named node is assigned more than once.
    RepeatedNode(Seq<char>),
    /// The named node is assigned to no community.
    UnassignedNode(Seq<char>),
}

/// The fault that the assignments `a` have with respect to the nodes `names`,
/// if any: the first assignment, in order, whose node is not in the graph or
/// was assigned before; else the first node, in id order, that is assigned
/// nowhere; else none, and the assignments partition the nodes.
pub open spec fn partition_fault(names: Seq<Seq<char>>, a: Seq<Assignment>) -> Option<
    PartitionFault,
> {
    let k = first_fault(names, a);
    let i = first_unassigned(names, a);
    if k < a.len() {
        if !names.contains(a[k].0) {
            Some(PartitionFault::StrayNode(a[k].0))
        } else {
            Some(PartitionFault::RepeatedNode(a[k].0))
        }
    } else if i < names.len() {
        Some(PartitionFault::UnassignedNode(names[i]))
    } else {
        None
    }
}

/// The community labels in the order of their first appearance: the order in
/// which communities are numbered.
pub open spec fn label_order(a: Seq<Assignment>) -> Seq<Seq<char>> {
    first_appearances(a.map_values(|x: Assignment| x.1))
}

/// The label that an assignment gives node `x`.
pub open spec fn label_of(a: Seq<Assignment>, x: Seq<char>) -> Seq<char> {
    a[choose|k: int| 0 <= k < a.len() && a[k].0 == x].1
}

/// The id of the community of node `x`: the position of its label in
/// `label_order(a)`.
pub open spec fn community_of(a: Seq<Assignment>, x: Seq<char>) -> int {
    label_order(a).index_of(label_of(a, x))
}

/// The community id of every node, in node order.
pub open spec fn communities(names: Seq<Seq<char>>, a: Seq<Assignment>) -> Seq<usize> {
    Seq::new(names.len(), |i: int| community_of(a, names[i]) as usize)
}

/// First appearances commute with a renaming that is injective on the
/// elements of `s`.
proof fn lemma_first_appearances_rename(s: Seq<Seq<char>>, g: spec_fn(Seq<char>) -> Seq<char>)
    requires
        forall|i: int, j: int|
            0 <= i < s.len() && 0 <= j < s.len() && #[trigger] g(s[i]) == #[trigger] g(s[j])
                ==> s[i] == s[j],
    ensures
        first_appearances(s.map_values(g)) == first_appearances(s).map_values(g),
    decreases s.len(),
{
    broadcast use vstd::seq_lib::group_seq_properties;

    if s.len() == 0 {
        assert(s.map_values(g) =~= seq![]);
        assert(first_appearances(s).map_values(g) =~= seq![]);
    } else {
        let d = s.drop_last();
        let x = s.last();
        assert(s =~= d.push(x));
        assert forall|i: int, j: int|
            0 <= i < d.len() && 0 <= j < d.len() && #[trigger] g(d[i]) == #[trigger] g(d[j]) implies d[i]
            == d[j] by {
            assert(g(s[i]) == g(s[j]));
        }
        lemma_first_appearances_rename(d, g);
        assert(s.map_values(g) =~= d.map_values(g).push(g(x)));
        lemma_first_appearances_push(d.map_values(g), g(x));
        lemma_first_appearances(d);
        let f = first_appearances(d);
        if f.contains(x) {
            assert(f.map_values(g).contains(g(x))) by {
                let i = choose|i: int| 0 <= i < f.len() && f[i] == x;
                assert(f.map_values(g)[i] == g(x));
            }
        } else {
            if f.map_values(g).contains(g(x)) {
                let i = choose|i: int| 0 <= i < f.len() && f.map_values(g)[i] == g(x);
                assert(f.contains(f[i]));
                assert(d.contains(f[i]));
                let j = choose|j: int| 0 <= j < d.len() && d[j] == f[i];
                assert(g(s[j]) == g(s[s.len() - 1]));
            }
            assert(f.push(x).map_values(g) =~= f.map_values(g).push(g(x)));
        }
    }
}

/// Law: only which assignments share a label matters, not the label text.
/// Two assignment lists with the same nodes in the same order whose labels
/// agree on which assignments share one have the same fault, as many
/// communities, and the same community id for every node.
pub proof fn law_only_label_grouping_matters(
    names: Seq<Seq<char>>,
    a: Seq<Assignment>,
    b: Seq<Assignment>,
)
    requires
        a.len() == b.len(),
        forall|k: int| 0 <= k < a.len() ==> #[trigger] a[k].0 == b[k].0,
        forall|j: int, k: int|
            #![trigger a[j].1, a[k].1]
            0 <= j < a.len() && 0 <= k < a.len() ==> ((a[j].1 == a[k].1) <==> (b[j].1 == b[k].1)),
    ensures
        partition_fault(names, a) == partition_fault(names, b),
        label_order(a).len() == label_order(b).len(),
        partition_fault(names, a) is None ==> communities(names, a) == communities(names, b),
{
    broadcast use vstd::seq_lib::group_seq_properties;

    // The fault depends on the nodes only.
    assert forall|k: int| 0 <= k < a.len() implies #[trigger] at_fault(names, a)(k) == at_fault(names, b)(k) by {
        {
            if exists|j: int| 0 <= j < k && a[j].0 == a[k].0 {
                let j = choose|j: int| 0 <= j < k && a[j].0 == a[k].0;
                assert(b[j].0 == b[k].0);
            }
            if exists|j: int| 0 <= j < k && b[j].0 == b[k].0 {
                let j = choose|j: int| 0 <= j < k && b[j].0 == b[k].0;
                assert(a[j].0 == a[k].0);
            }
        }
    }
    lemma_first_from_ext(at_fault(names, a), at_fault(names, b), 0, a.len() as int);
    assert forall|x: Seq<char>| #[trigger] assigned(a, x) == assigned(b, x) by {
        if assigned(a, x) {
            let k = choose|k: int| 0 <= k < a.len() && a[k].0 == x;
            assert(b[k].0 == x);
        }
        if assigned(b, x) {
            let k = choose|k: int| 0 <= k < b.len() && b[k].0 == x;
            assert(a[k].0 == x);
        }
    }
    assert(unassigned_in(names, a) =~= unassigned_in(names, b));
    lemma_first_from(at_fault(names, a), 0, a.len() as int);
    let k0 = first_fault(names, a);
    assert(k0 == first_fault(names, b));
    if k0 < a.len() {
        assert(a[k0].0 == b[k0].0);
    }
    assert(first_unassigned(names, a) == first_unassigned(names, b));
    // The labels of `b` are those of `a` renamed one to one.
    let la = a.map_values(|x: Assignment| x.1);
    let lb = b.map_values(|x: Assignment| x.1);
    let g = |l: Seq<char>| b[choose|k: int| 0 <= k < a.len() && a[k].1 == l].1;
    assert forall|j: int| 0 <= j < a.len() implies #[trigger] g(la[j]) == lb[j] by {
        assert(la[j] == a[j].1);
        let k = choose|k: int| 0 <= k < a.len() && a[k].1 == a[j].1;
        assert(b[k].1 == b[j].1);
    }
    assert forall|i: int, j: int|
        0 <= i < la.len() && 0 <= j < la.len() && #[trigger] g(la[i]) == #[trigger] g(la[j]) implies la[i]
        == la[j] by {
        assert(g(la[i]) == lb[i]);
        assert(g(la[j]) == lb[j]);
    }
    assert(lb =~= la.map_values(g));
    lemma_first_appearances_rename(la, g);
    let oa = label_order(a);
    let ob = label_order(b);
    assert(ob == oa.map_values(g));
    if partition_fault(names, a) is None {
        lemma_first_from(at_fault(names, a), 0, a.len() as int);
        lemma_first_appearances(la);
        lemma_first_appearances(lb);
        assert forall|i: int| 0 <= i < names.len() implies #[trigger] communities(names, a)[i]
            == communities(names, b)[i] by {
            lemma_first_from(unassigned_in(names, a), 0, names.len() as int);
            assert(!unassigned_in(names, a)(i));
            let x = names[i];
            let ca = choose|k: int| 0 <= k < a.len() && a[k].0 == x;
            let cb = choose|k: int| 0 <= k < b.len() && b[k].0 == x;
            assert(a[cb].0 == x);
            if ca < cb {
                assert(!at_fault(names, a)(cb));
            } else if cb < ca {
                assert(!at_fault(names, a)(ca));
            }
            let l = a[ca].1;
            assert(la[ca] == l);
            assert(la.contains(l));
            assert(oa.contains(l));
            let u = oa.index_of(l);
            assert(oa[u] == l);
            assert(ob[u] == g(l));
            assert(g(la[ca]) == lb[ca]);
            assert(lb[ca] == b[ca].1);
            assert(ob.contains(b[ca].1));
            let w = ob.index_of(b[ca].1);
            assert(ob[w] == b[ca].1);
            assert(u == w);
            assert forall|k: int| 0 <= k < a.len() && #[trigger] a[k].0 == x implies k == ca by {
                if k < ca {
                    assert(!at_fault(names, a)(ca));
                } else if ca < k {
                    assert(!at_fault(names, a)(k));
                }
            }
            assert forall|k: int| 0 <= k < b.len() && #[trigger] b[k].0 == x implies k == ca by {
                assert(a[k].0 == x);
            }
            assert(label_of(a, x) == l);
            assert(label_of(b, x) == b[ca].1);
        }
        assert(communities(names, a) =~= communities(names, b));
    }
}

/// Where the assignments partition the nodes, no assignment is at fault and
/// every node is assigned, by exactly one assignment.
proof fn lemma_partition_facts(names: Seq<Seq<char>>, a: Seq<Assignment>)
    requires
        partition_fault(names, a) is None,
    ensures
        forall|k: int| 0 <= k < a.len() ==> names.contains(#[trigger] a[k].0),
        forall|j: int, k: int|
            0 <= j < a.len() && 0 <= k < a.len() && #[trigger] a[j].0 == #[trigger] a[k].0 ==> j == k,
        forall|i: int| 0 <= i < names.len() ==> #[trigger] assigned(a, names[i]),
{
    lemma_first_from(at_fault(names, a), 0, a.len() as int);
    lemma_first_from(unassigned_in(names, a), 0, names.len() as int);
    assert forall|k: int| 0 <= k < a.len() implies names.contains(#[trigger] a[k].0) by {
        assert(!at_fault(names, a)(k));
    }
    assert forall|j: int, k: int|
        0 <= j < a.len() && 0 <= k < a.len() && #[trigger] a[j].0 == #[trigger] a[k].0 implies j == k by {
        if j < k {
            assert(!at_fault(names, a)(k));
        } else if k < j {
            assert(!at_fault(names, a)(j));
        }
    }
    assert forall|i: int| 0 <= i < names.len() implies #[trigger] assigned(a, names[i]) by {
        assert(!unassigned_in(names, a)(i));
    }
}

/// Law: community ids depend only on which nodes share a community and on
/// the order in which the communities first appear. Permuting a partitioning
/// assignment list (by `pi`, with inverse `pi_inv`) and renaming its labels
/// one to one (by `f`), in a way that keeps the first-appearance order of the
/// renamed labels, leaves it a partition with the same community ids.
pub proof fn law_permuted_relabelling(
    names: Seq<Seq<char>>,
    a: Seq<Assignment>,
    b: Seq<Assignment>,
    pi: spec_fn(int) -> int,
    pi_inv: spec_fn(int) -> int,
    f: spec_fn(Seq<char>) -> Seq<char>,
)
    requires
        a.len() == b.len(),
        forall|k: int|
            0 <= k < a.len() ==> 0 <= #[trigger] pi(k) < a.len() && pi_inv(pi(k)) == k,
        forall|k: int|
            0 <= k < a.len() ==> 0 <= #[trigger] pi_inv(k) < a.len() && pi(pi_inv(k)) == k,
        forall|k: int| 0 <= k < a.len() ==> #[trigger] b[k] == (a[pi(k)].0, f(a[pi(k)].1)),
        forall|j: int, k: int|
            #![trigger f(a[j].1), f(a[k].1)]
            0 <= j < a.len() && 0 <= k < a.len() && f(a[j].1) == f(a[k].1) ==> a[j].1 == a[k].1,
        label_order(b) == label_order(a).map_values(f),
        partition_fault(names, a) is None,
    ensures
        partition_fault(names, b) is None,
        label_order(b).len() == label_order(a).len(),
        communities(names, b) == communities(names, a),
{
    broadcast use vstd::seq_lib::group_seq_properties;

    let n = a.len();
    lemma_partition_facts(names, a);
    // No assignment of `b` is at fault.
    assert forall|k: int| 0 <= k < n implies !#[trigger] at_fault(names, b)(k) by {
        assert(b[k].0 == a[pi(k)].0);
        assert(names.contains(a[pi(k)].0));
        if exists|j: int| 0 <= j < k && b[j].0 == b[k].0 {
            let j = choose|j: int| 0 <= j < k && b[j].0 == b[k].0;
            assert(a[pi(j)].0 == a[pi(k)].0);
            assert(pi(j) == pi(k));
            assert(pi_inv(pi(j)) == j);
        }
    }
    lemma_first_from_unique(at_fault(names, b), 0, n as int, n as int);
    // Every node is assigned in `b`.
    assert forall|i: int| 0 <= i < names.len() implies !#[trigger] unassigned_in(names, b)(i) by {
        assert(assigned(a, names[i]));
        let k = choose|k: int| 0 <= k < n && a[k].0 == names[i];
        assert(b[pi_inv(k)].0 == a[k].0);
        assert(assigned(b, names[i]));
    }
    lemma_first_from_unique(unassigned_in(names, b), 0, names.len() as int, names.len() as int);
    assert(partition_fault(names, b) is None);
    lemma_partition_facts(names, b);
    // The same ids.
    let la = a.map_values(|x: Assignment| x.1);
    let oa = label_order(a);
    let ob = label_order(b);
    lemma_first_appearances(la);
    assert forall|i: int| 0 <= i < names.len() implies #[trigger] communities(names, b)[i]
        == communities(names, a)[i] by {
        let x = names[i];
        assert(assigned(a, x));
        let ca = choose|k: int| 0 <= k < n && a[k].0 == x;
        let cb = pi_inv(ca);
        assert(b[cb].0 == x);
        assert forall|k: int| 0 <= k < n && #[trigger] a[k].0 == x implies k == ca by {}
        assert forall|k: int| 0 <= k < n && #[trigger] b[k].0 == x implies k == cb by {
            assert(b[k].0 == b[cb].0);
        }
        let l = a[ca].1;
        assert(label_of(a, x) == l);
        assert(b[cb].1 == f(l));
        assert(label_of(b, x) == f(l));
        assert(la[ca] == l);
        assert(la.contains(l));
        assert(oa.contains(l));
        let u = oa.index_of(l);
        assert(oa[u] == l);
        assert(ob[u] == f(l));
        assert(ob.contains(f(l)));
        let w = ob.index_of(f(l));
        assert(ob[w] == f(l));
        assert(f(oa[w]) == f(l));
        assert(oa.contains(oa[w]));
        assert(la.contains(oa[w]));
        let jw = choose|j: int| 0 <= j < la.len() && la[j] == oa[w];
        assert(la[jw] == a[jw].1);
        assert(f(a[jw].1) == f(a[ca].1));
        assert(oa[w] == l);
        assert(u == w);
    }
    assert(communities(names, b) =~= communities(names, a));
}

/// Position `k` of `s` holds `l`.
pub open spec fn is_at(s: Seq<Seq<char>>, l: Seq<char>) -> spec_fn(int) -> bool {
    |k: int| s[k] == l
}

/// The position of the first `l` in `s`, or `s.len()`.
pub open spec fn first_pos(s: Seq<Seq<char>>, l: Seq<char>) -> int {
    first_from(is_at(s, l), 0, s.len() as int)
}

/// The first appearances are no more than the elements.
proof fn lemma_first_appearances_len(s: Seq<Seq<char>>)
    ensures
        first_appearances(s).len() <= s.len(),
    decreases s.len(),
{
    if s.len() > 0 {
        lemma_first_appearances_len(s.drop_last());
    }
}

/// An element of `s` is first found inside `s`.
proof fn lemma_first_pos_in(s: Seq<Seq<char>>, l: Seq<char>)
    requires
        s.contains(l),
    ensures
        0 <= first_pos(s, l) < s.len(),
        s[first_pos(s, l)] == l,
{
    lemma_first_from(is_at(s, l), 0, s.len() as int);
    let k = choose|k: int| 0 <= k < s.len() && s[k] == l;
    assert(is_at(s, l)(k));
}

/// The first appearances of `s` stand in the order of their first positions.
proof fn lemma_first_appearances_order(s: Seq<Seq<char>>)
    ensures
        forall|t: int, u: int|
            0 <= t < u < first_appearances(s).len() ==> first_pos(s, #[trigger] first_appearances(s)[t])
                < first_pos(s, #[trigger] first_appearances(s)[u]),
    decreases s.len(),
{
    broadcast use vstd::seq_lib::group_seq_properties;

    if s.len() > 0 {
        let d = s.drop_last();
        let x = s.last();
        assert(s =~= d.push(x));
        lemma_first_appearances_order(d);
        lemma_first_appearances(d);
        lemma_first_appearances_push(d, x);
        let f = first_appearances(d);
        assert forall|l: Seq<char>| d.contains(l) implies #[trigger] first_pos(s, l) == first_pos(d, l) by {
            lemma_first_pos_in(d, l);
            let j = first_pos(d, l);
            lemma_first_from(is_at(d, l), 0, d.len() as int);
            assert forall|k: int| 0 <= k < j implies !#[trigger] is_at(s, l)(k) by {
                assert(!is_at(d, l)(k));
            }
            lemma_first_from_unique(is_at(s, l), 0, s.len() as int, j);
        }
        if !f.contains(x) {
            assert forall|k: int| 0 <= k < d.len() implies !#[trigger] is_at(s, x)(k) by {
                if s[k] == x {
                    assert(d[k] == x);
                    assert(d.contains(x));
                }
            }
            lemma_first_from_unique(is_at(s, x), 0, s.len() as int, d.len() as int);
            assert forall|t: int| 0 <= t < f.len() implies first_pos(s, #[trigger] f[t]) < d.len() by {
                assert(f.contains(f[t]));
                lemma_first_pos_in(d, f[t]);
            }
        }
        assert forall|t: int, u: int|
            0 <= t < u < first_appearances(s).len() implies first_pos(s, #[trigger] first_appearances(s)[t])
            < first_pos(s, #[trigger] first_appearances(s)[u]) by {
            assert(f.contains(f[t]));
            if u < f.len() {
                assert(f.contains(f[u]));
            }
        }
    }
}

/// Law: the community labels are numbered in order of first appearance:
/// `label_order(a)` holds every label of `a` once, and no other, in the order
/// of the positions where each first appears.
pub proof fn law_label_order(a: Seq<Assignment>)
    ensures
        label_order(a).no_duplicates(),
        forall|l: Seq<char>|
            #[trigger] label_order(a).contains(l) <==> exists|k: int| 0 <= k < a.len() && a[k].1 == l,
        forall|t: int, u: int|
            0 <= t < u < label_order(a).len() ==> first_pos(
                a.map_values(|x: Assignment| x.1),
                #[trigger] label_order(a)[t],
            ) < first_pos(a.map_values(|x: Assignment| x.1), #[trigger] label_order(a)[u]),
{
    let la = a.map_values(|x: Assignment| x.1);
    lemma_first_appearances(la);
    lemma_first_appearances_order(la);
    assert forall|l: Seq<char>|
        #[trigger] label_order(a).contains(l) <==> exists|k: int| 0 <= k < a.len() && a[k].1 == l by {
        if exists|k: int| 0 <= k < a.len() && a[k].1 == l {
            let k = choose|k: int| 0 <= k < a.len() && a[k].1 == l;
            assert(la[k] == l);
        }
        if la.contains(l) {
            let k = choose|k: int| 0 <= k < la.len() && la[k] == l;
            assert(a[k].1 == l);
        }
    }
}

/// Some node has community id `t`.
pub open spec fn id_used(names: Seq<Seq<char>>, a: Seq<Assignment>, t: int) -> bool {
    exists|i: int| 0 <= i < names.len() && #[trigger] communities(names, a)[i] == t
}

/// Law: the community ids of a partition name its labels: two nodes share an
/// id exactly when they share a label, the ids are `0 .. L` for the `L`
/// distinct labels, each used, and a label that first appears earlier has
/// the smaller id.
pub proof fn law_community_ids_name_labels(names: Seq<Seq<char>>, a: Seq<Assignment>)
    requires
        partition_fault(names, a) is None,
        a.len() <= usize::MAX,
    ensures
        forall|i: int, j: int|
            0 <= i < names.len() && 0 <= j < names.len() ==> ((#[trigger] communities(names, a)[i]
                == #[trigger] communities(names, a)[j]) <==> label_of(a, names[i]) == label_of(
                a,
                names[j],
            )),
        forall|i: int, j: int|
            0 <= i < names.len() && 0 <= j < names.len() ==> ((#[trigger] communities(names, a)[i]
                < #[trigger] communities(names, a)[j]) <==> first_pos(
                a.map_values(|x: Assignment| x.1),
                label_of(a, names[i]),
            ) < first_pos(a.map_values(|x: Assignment| x.1), label_of(a, names[j]))),
        forall|i: int|
            0 <= i < names.len() ==> #[trigger] communities(names, a)[i] < label_order(a).len(),
        forall|t: int| 0 <= t < label_order(a).len() ==> #[trigger] id_used(names, a, t),
{
    let la = a.map_values(|x: Assignment| x.1);
    let oa = label_order(a);
    let c = communities(names, a);
    lemma_partition_facts(names, a);
    lemma_first_appearances_len(la);
    lemma_first_appearances(la);
    lemma_first_appearances_order(la);
    // Each node's label is a label of `a`, at its id.
    assert forall|i: int| 0 <= i < names.len() implies {
        &&& oa.contains(label_of(a, #[trigger] names[i]))
        &&& 0 <= oa.index_of(label_of(a, names[i])) < oa.len()
        &&& oa[oa.index_of(label_of(a, names[i]))] == label_of(a, names[i])
        &&& c[i] == oa.index_of(label_of(a, names[i]))
    } by {
        assert(assigned(a, names[i]));
        let k = choose|k: int| 0 <= k < a.len() && a[k].0 == names[i];
        assert forall|k2: int| 0 <= k2 < a.len() && #[trigger] a[k2].0 == names[i] implies k2 == k by {}
        assert(label_of(a, names[i]) == a[k].1);
        assert(la[k] == a[k].1);
        assert(la.contains(label_of(a, names[i])));
        assert(oa.contains(label_of(a, names[i])));
        let u = oa.index_of(label_of(a, names[i]));
        assert(0 <= u < oa.len());
        assert(c[i] == community_of(a, names[i]) as usize);
    }
    assert forall|i: int, j: int|
        0 <= i < names.len() && 0 <= j < names.len() implies ((#[trigger] c[i] == #[trigger] c[j])
        <==> label_of(a, names[i]) == label_of(a, names[j])) by {
        assert(oa.contains(label_of(a, names[i])));
        assert(oa.contains(label_of(a, names[j])));
    }
    assert forall|i: int, j: int|
        0 <= i < names.len() && 0 <= j < names.len() implies ((#[trigger] c[i] < #[trigger] c[j])
        <==> first_pos(la, label_of(a, names[i])) < first_pos(la, label_of(a, names[j]))) by {
        assert(oa.contains(label_of(a, names[i])));
        assert(oa.contains(label_of(a, names[j])));
        let ui = c[i] as int;
        let uj = c[j] as int;
        if ui < uj {
            assert(first_pos(la, oa[ui]) < first_pos(la, oa[uj]));
        } else if uj < ui {
            assert(first_pos(la, oa[uj]) < first_pos(la, oa[ui]));
        }
    }
    assert forall|t: int| 0 <= t < label_order(a).len() implies #[trigger] id_used(names, a, t) by {
        assert(oa.contains(oa[t]));
        assert(la.contains(oa[t]));
        let k = choose|k: int| 0 <= k < la.len() && la[k] == oa[t];
        assert(a[k].1 == oa[t]);
        assert(names.contains(a[k].0));
        let i = choose|i: int| 0 <= i < names.len() && names[i] == a[k].0;
        assert forall|k2: int| 0 <= k2 < a.len() && #[trigger] a[k2].0 == names[i] implies k2 == k by {}
        assert(label_of(a, names[i]) == oa[t]);
        assert(oa.contains(label_of(a, names[i])));
        assert(c[i] == oa.index_of(oa[t]));
        assert(oa[oa.index_of(oa[t])] == oa[t]);
        assert(c[i] == t);
        assert(communities(names, a)[i] == t);
    }
}

/// An assignment list that does not partition the graph's nodes.
#[derive(Debug)]
pub enum PartitionError {
    /// The named node is not present in the graph.
    StrayNode(String),
    /// The named node is assigned to more than one community.
    RepeatedNode(String),
    /// The named node is not assigned to any community.
    UnassignedNode(String),
}

impl View for PartitionError {
    type V = PartitionFault;

    open spec fn view(&self) -> PartitionFault {
        match self {
            PartitionError::StrayNode(x) => PartitionFault::StrayNode(x@),
            PartitionError::RepeatedNode(x) => PartitionFault::RepeatedNode(x@),
            PartitionError::UnassignedNode(x) => PartitionFault::UnassignedNode(x@),
        }
    }
}

/// The text of the message for a fault: it names the node as `Debug`
/// formats a string, quoted and escaped, and ends in "not a partition".
pub open spec fn fault_message(f: PartitionFault) -> Seq<char> {
    match f {
        PartitionFault::StrayNode(x) => "community node "@ + debug_text(x)
            + " is not present in the graph — not a partition"@,
        PartitionFault::RepeatedNode(x) => "node "@ + debug_text(x)
            + " assigned to more than one community — not a partition"@,
        PartitionFault::UnassignedNode(x) => "node "@ + debug_text(x)
            + " is not assigned to any community — not a partition"@,
    }
}

impl PartitionError {
    /// The error's message, naming the node.
    pub fn message(&self) -> (m: String)
        ensures
            m@ == fault_message(self@),
    {
        match self {
            PartitionError::StrayNode(x) => concat3(
                "community node ",
                debug_quote(x.as_str()).as_str(),
                " is not present in the graph — not a partition",
            ),
            PartitionError::RepeatedNode(x) => concat3(
                "node ",
                debug_quote(x.as_str()).as_str(),
                " assigned to more than one community — not a partition",
            ),
            PartitionError::UnassignedNode(x) => concat3(
                "node ",
                debug_quote(x.as_str()).as_str(),
                " is not assigned to any community — not a partition",
            ),
        }
    }
}

/// Assigns every graph node a community id from `(node, label)` pairs.
///
/// Communities are numbered in the first-appearance order of their labels;
/// `*n_communities` becomes their number. The assignments must partition the
/// nodes: every node assigned exactly once and no stray node; otherwise the
/// first fault is returned and `*n_communities` is left as it was.
pub fn community_ids(
    g: &Graph,
    assignments: &[(String, String)],
    n_communities: &mut usize,
) -> (r: Result<Vec<usize>, PartitionError>)
    requires
        g.wf(),
    ensures
        match r {
            Ok(comm) => {
                &&& partition_fault(g@.names, assignments_view(assignments@)) is None
                &&& comm@.len() == g@.n()
                &&& *final(n_communities) == label_order(assignments_view(assignments@)).len()
                &&& forall|i: int|
                    0 <= i < g@.n() ==> #[trigger] comm@[i] == community_of(
                        assignments_view(assignments@),
                        g@.names[i],
                    ) && comm@[i] < *final(n_communities)
            },
            Err(e) => {
                &&& partition_fault(g@.names, assignments_view(assignments@)) == Some(e@)
                &&& *final(n_communities) == *old(n_communities)
            },
        },
{
    let ghost names = g@.names;
    let ghost a = assignments_view(assignments@);
    let n = g.n();
    let mut comm_of: Vec<usize> = Vec::new();
    while comm_of.len() < n
        invariant
            comm_of@.len() <= n,
            forall|i: int| 0 <= i < comm_of@.len() ==> comm_of@[i] == usize::MAX,
        decreases n - comm_of@.len(),
    {
        comm_of.push(usize::MAX);
    }
    let mut label_to_id: StringHashMap<usize> = StringHashMap::new();
    let mut next_id: usize = 0;
    let mut k: usize = 0;
    assert(label_order(a.take(0)) =~= seq![]);
    while k < assignments.len()
        invariant
            g.wf(),
            names == g@.names,
            a == assignments_view(assignments@),
            n == names.len(),
            k <= a.len(),
            comm_of@.len() == n,
            forall|j: int| 0 <= j < k ==> !#[trigger] at_fault(names, a)(j),
            label_order(a.take(k as int)).no_duplicates(),
            next_id == label_order(a.take(k as int)).len(),
            next_id <= k,
            forall|l: Seq<char>| #[trigger]
                label_to_id@.contains_key(l) ==> label_to_id@[l] < next_id && label_order(
                    a.take(k as int),
                )[label_to_id@[l] as int] == l,
            forall|t: int|
                0 <= t < next_id ==> #[trigger] label_to_id@.contains_key(
                    label_order(a.take(k as int))[t],
                ),
            forall|i: int|
                0 <= i < n && comm_of@[i] == usize::MAX ==> forall|j: int|
                    0 <= j < k ==> #[trigger] a[j].0 != names[i],
            forall|i: int|
                0 <= i < n && #[trigger] comm_of@[i] != usize::MAX ==> comm_of@[i] < next_id
                    && exists|j: int|
                    0 <= j < k && a[j].0 == names[i] && label_order(a.take(k as int))[comm_of@[i] as int]
                        == a[j].1,
        decreases a.len() - k,
    {
        let node = &assignments[k].0;
        let label = &assignments[k].1;
        let ghost lo = label_order(a.take(k as int));
        proof {
            lemma_first_appearances(a.take(k as int).map_values(|x: Assignment| x.1));
        }
        let found = g.node_index(node.as_str());
        if found.is_none() {
            proof {
                assert(at_fault(names, a)(k as int));
                lemma_first_from_unique(at_fault(names, a), 0, a.len() as int, k as int);
                lemma_first_from(unassigned_in(names, a), 0, names.len() as int);
            }
            return Err(PartitionError::StrayNode(node.clone()));
        }
        let idx = found.unwrap();
        if comm_of[idx] != usize::MAX {
            proof {
                let j = choose|j: int|
                    0 <= j < k && a[j].0 == names[idx as int] && lo[comm_of@[idx as int] as int]
                        == a[j].1;
                assert(at_fault(names, a)(k as int));
                lemma_first_from_unique(at_fault(names, a), 0, a.len() as int, k as int);
            }
            return Err(PartitionError::RepeatedNode(node.clone()));
        }
        let id = match label_to_id.get(label.as_str()) {
            Some(id) => *id,
            None => {
                let id = next_id;
                label_to_id.insert(label.clone(), id);
                next_id = next_id + 1;
                id
            },
        };
        proof {
            let f = |x: Assignment| x.1;
            assert(a.take(k + 1).map_values(f) =~= a.take(k as int).map_values(f).push(label@));
            lemma_first_appearances_push(a.take(k as int).map_values(f), label@);
            lemma_first_appearances(a.take(k as int).map_values(f).push(label@));
        }
        comm_of.set(idx, id);
        k = k + 1;
        proof {
            g.lemma_wf_simple();
            assert forall|j: int| 0 <= j < k implies !#[trigger] at_fault(names, a)(j) by {
                if j == k - 1 {
                    assert(names.contains(a[j].0));
                }
            }
            assert forall|i: int, j: int|
                0 <= i < n && comm_of@[i] == usize::MAX && 0 <= j < k implies #[trigger] a[j].0
                != #[trigger] names[i] by {
                if j == k - 1 {
                    assert(i != idx);
                    assert(names[i] != names[idx as int]);
                }
            }
        }
    }
    let ghost lo = label_order(a.take(k as int));
    proof {
        assert(a.take(k as int) =~= a);
        assert forall|j: int| 0 <= j < a.len() implies !#[trigger] at_fault(names, a)(j) by {}
        lemma_first_from_unique(at_fault(names, a), 0, a.len() as int, a.len() as int);
        lemma_first_appearances(a.map_values(|x: Assignment| x.1));
    }
    let mut i: usize = 0;
    #[verifier::loop_isolation(false)]
    while i < n
        invariant
            i <= n,
            forall|t: int| 0 <= t < i ==> #[trigger] comm_of@[t] != usize::MAX,
        decreases n - i,
    {
        if comm_of[i] == usize::MAX {
            proof {
                assert forall|t: int| 0 <= t < i implies !#[trigger] unassigned_in(names, a)(t) by {
                    assert(comm_of@[t] != usize::MAX);
                    let j = choose|j: int|
                        0 <= j < k && a[j].0 == names[t] && lo[comm_of@[t] as int] == a[j].1;
                    assert(assigned(a, names[t]));
                }
                assert(unassigned_in(names, a)(i as int));
                lemma_first_from_unique(unassigned_in(names, a), 0, names.len() as int, i as int);
            }
            return Err(PartitionError::UnassignedNode(g.name(i).clone()));
        }
        i = i + 1;
    }
    *n_communities = next_id;
    proof {
        assert forall|t: int| 0 <= t < n implies !#[trigger] unassigned_in(names, a)(t) by {
            assert(comm_of@[t] != usize::MAX);
            let j = choose|j: int|
                0 <= j < k && a[j].0 == names[t] && lo[comm_of@[t] as int] == a[j].1;
            assert(assigned(a, names[t]));
        }
        lemma_first_from_unique(unassigned_in(names, a), 0, names.len() as int, n as int);
        assert forall|t: int| 0 <= t < n implies #[trigger] comm_of@[t] == community_of(a, names[t])
            && comm_of@[t] < next_id by {
            assert(comm_of@[t] != usize::MAX);
            let j = choose|j: int|
                0 <= j < k && a[j].0 == names[t] && lo[comm_of@[t] as int] == a[j].1;
            let c = choose|c: int| 0 <= c < a.len() && a[c].0 == names[t];
            if c < j {
                assert(!at_fault(names, a)(j));
            } else if j < c {
                assert(!at_fault(names, a)(c));
            }
            assert(label_of(a, names[t]) == a[j].1);
            let u = lo.index_of(a[j].1);
            assert(lo[comm_of@[t] as int] == a[j].1);
            assert(lo.contains(a[j].1));
            assert(lo[u] == a[j].1);
        }
    }
    Ok(comm_of)
}

} // verus!
