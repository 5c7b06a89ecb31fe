use petgraph::algo::toposort;
use petgraph::graph::NodeIndex;
use petgraph::stable_graph::StableGraph;
use petgraph::visit::{EdgeRef, IntoEdgeReferences};
use petgraph::{Directed, Direction};
use std::collections::HashMap;
use vstd::multiset::Multiset;
use vstd::prelude::*;

use crate::util::{lemma_increasing_len, lemma_sorted_indices, sorted_indices, strictly_increasing};

verus! {

broadcast use vstd::std_specs::hash::group_hash_axioms;

// ---------------------------------------------------------------------------
// petgraph: the types and calls this module relies on
// ---------------------------------------------------------------------------
#[verifier::external_type_specification]
#[verifier::external_body]
#[verifier::reject_recursive_types(N)]
#[verifier::reject_recursive_types(E)]
#[verifier::reject_recursive_types(Ty)]
#[verifier::reject_recursive_types(Ix)]
pub struct ExStableGraph<N, E, Ty, Ix>(StableGraph<N, E, Ty, Ix>);

#[verifier::external_type_specification]
#[verifier::external_body]
pub struct ExDirected(Directed);

#[verifier::external_type_specification]
#[verifier::external_body]
#[verifier::reject_recursive_types(Ix)]
pub struct ExNodeIndex<Ix>(NodeIndex<Ix>);


/// The indices of the nodes that a task graph holds.
pub uninterp spec fn graph_nodes(g: StableGraph<(), (), Directed, u32>) -> Set<usize>;

/// The edges that a task graph holds, as (source index, target index) pairs,
/// each counted as often as it occurs.
pub uninterp spec fn graph_edges(g: StableGraph<(), (), Directed, u32>) -> Multiset<(usize, usize)>;

/// The largest node or edge count for which `StableGraph<_, _, _, u32>` can
/// still add an element.
pub open spec fn index_limit() -> nat {
    0xFFFF_FFFFnat
}

/// `StableGraph::with_capacity(0, 0)`: a graph with no node and no edge.
#[verifier::external_body]
fn graph_new() -> (g: StableGraph<(), (), Directed, u32>)
    ensures
        graph_nodes(g) == Set::<usize>::empty(),
        graph_edges(g) == Multiset::<(usize, usize)>::empty(),
{
    StableGraph::with_capacity(0, 0)
}

/// `StableGraph::node_count`: the number of nodes.
#[verifier::external_body]
fn graph_node_count(g: &StableGraph<(), (), Directed, u32>) -> (n: usize)
    ensures
        n == graph_nodes(*g).len(),
{
    g.node_count()
}

/// `StableGraph::edge_count`: the number of edges.
#[verifier::external_body]
fn graph_edge_count(g: &StableGraph<(), (), Directed, u32>) -> (n: usize)
    ensures
        n == graph_edges(*g).len(),
{
    g.edge_count()
}

/// `StableGraph::add_node`: the node gets an index that no node had, below
/// the index limit; the edges stay as they were. The call panics only when
/// the graph already holds `index_limit()` nodes, which `requires` rules out.
#[verifier::external_body]
fn graph_add_node(g: &mut StableGraph<(), (), Directed, u32>) -> (i: usize)
    requires
        graph_nodes(*old(g)).len() < index_limit(),
    ensures
        !graph_nodes(*old(g)).contains(i),
        i < index_limit(),
        graph_nodes(*final(g)) == graph_nodes(*old(g)).insert(i),
        graph_edges(*final(g)) == graph_edges(*old(g)),
{
    g.add_node(()).index()
}

/// Whether some edge ends at node `i`.
pub open spec fn has_incoming(edges: Multiset<(usize, usize)>, i: usize) -> bool {
    exists|u: usize| #[trigger] edges.count((u, i)) > 0
}

/// Whether some edge starts at node `i`.
pub open spec fn has_outgoing(edges: Multiset<(usize, usize)>, i: usize) -> bool {
    exists|v: usize| #[trigger] edges.count((i, v)) > 0
}

/// No edge ends at `i` (`incoming`), or no edge starts at `i` (otherwise).
pub open spec fn is_external(edges: Multiset<(usize, usize)>, i: usize, incoming: bool) -> bool {
    if incoming {
        !has_incoming(edges, i)
    } else {
        !has_outgoing(edges, i)
    }
}

/// Node `i` of the graph is external in the given direction.
pub open spec fn is_listed_external(g: StableGraph<(), (), Directed, u32>, i: usize, incoming: bool) -> bool {
    graph_nodes(g).contains(i) && is_external(graph_edges(g), i, incoming)
}

/// Every edge joins two of the given nodes.
pub open spec fn edges_within(nodes: Set<usize>, edges: Multiset<(usize, usize)>) -> bool {
    forall|e: (usize, usize)|
        #[trigger] edges.count(e) > 0 ==> nodes.contains(e.0) && nodes.contains(e.1)
}

/// `rank` gives each node a number, and every edge goes to a higher number.
pub open spec fn ranked_by(
    nodes: Set<usize>,
    edges: Multiset<(usize, usize)>,
    rank: Map<usize, int>,
) -> bool {
    &&& rank.dom() == nodes
    &&& edges_within(nodes, edges)
    &&& forall|e: (usize, usize)| #[trigger] edges.count(e) > 0 ==> rank[e.0] < rank[e.1]
}

/// The graph has no directed cycle: its nodes can be ranked so that every
/// edge goes upward.
pub open spec fn acyclic(nodes: Set<usize>, edges: Multiset<(usize, usize)>) -> bool {
    exists|rank: Map<usize, int>| ranked_by(nodes, edges, rank)
}

/// `StableGraph::node_indices`, each index turned into a `usize`: all node
/// indices, in increasing order.
#[verifier::external_body]
fn graph_node_indices(g: &StableGraph<(), (), Directed, u32>) -> (v: Vec<usize>)
    ensures
        strictly_increasing(v@),
        forall|i: usize| v@.contains(i) <==> graph_nodes(*g).contains(i),
{
    g.node_indices().map(|i| i.index()).collect()
}

/// The edges that end at `i`.
pub open spec fn edges_into(edges: Multiset<(usize, usize)>, i: usize) -> Multiset<(usize, usize)> {
    edges.filter(|e: (usize, usize)| e.1 == i)
}

/// The number of edges that end at `i`, parallel edges counted each.
pub open spec fn in_degree(edges: Multiset<(usize, usize)>, i: usize) -> nat {
    edges_into(edges, i).len()
}

/// No edge ends at `i` exactly when its in-degree is zero.
pub proof fn lemma_in_degree_zero(edges: Multiset<(usize, usize)>, i: usize)
    ensures
        in_degree(edges, i) == 0 <==> !has_incoming(edges, i),
{
    broadcast use vstd::multiset::group_multiset_axioms;

    let into = edges_into(edges, i);
    vstd::multiset::lemma_multiset_empty_len(into);
    if has_incoming(edges, i) {
        let u = choose|u: usize| #[trigger] edges.count((u, i)) > 0;
        assert(into.count((u, i)) > 0);
        assert(!(into =~= Multiset::empty()));
    } else {
        assert forall|e: (usize, usize)| into.count(e) == Multiset::<(usize, usize)>::empty().count(e) by {
            if e.1 == i {
                assert(edges.count((e.0, i)) == 0);
            }
        }
        assert(into =~= Multiset::empty());
    }
}

/// `StableGraph::neighbors_directed(i, Incoming).count()`: the number of edges
/// that end at `i`.
#[verifier::external_body]
fn graph_in_degree(g: &StableGraph<(), (), Directed, u32>, i: usize) -> (n: usize)
    requires
        i < index_limit(),
    ensures
        n == in_degree(graph_edges(*g), i),
{
    g.neighbors_directed(NodeIndex::new(i), Direction::Incoming).count()
}

/// `StableGraph::remove_node`: removes node `i`, if there is one, with every
/// edge that starts or ends at it, and says whether there was one.
#[verifier::external_body]
fn graph_remove_node(g: &mut StableGraph<(), (), Directed, u32>, i: usize) -> (r: Option<()>)
    requires
        i < index_limit(),
    ensures
        r is Some <==> graph_nodes(*old(g)).contains(i),
        graph_nodes(*final(g)) == graph_nodes(*old(g)).remove(i),
        forall|e: (usize, usize)|
            #[trigger] graph_edges(*final(g)).count(e) == if e.0 == i || e.1 == i {
                0
            } else {
                graph_edges(*old(g)).count(e)
            },
{
    g.remove_node(NodeIndex::new(i))
}

/// `StableGraph::add_edge`: adds one edge from `a` to `b` (parallel edges are
/// kept). It panics when a node is missing or the graph already holds
/// `index_limit()` edges, which `requires` rules out.
#[verifier::external_body]
fn graph_add_edge(g: &mut StableGraph<(), (), Directed, u32>, a: usize, b: usize)
    requires
        graph_nodes(*old(g)).contains(a),
        graph_nodes(*old(g)).contains(b),
        a < index_limit(),
        b < index_limit(),
        graph_edges(*old(g)).len() < index_limit(),
    ensures
        graph_nodes(*final(g)) == graph_nodes(*old(g)),
        graph_edges(*final(g)) == graph_edges(*old(g)).insert((a, b)),
{
    let _ = g.add_edge(NodeIndex::new(a), NodeIndex::new(b), ());
}

/// `StableGraph::externals`, each index turned into a `usize`: the nodes with
/// no edge ending at them (`incoming`) or starting at them (otherwise), in
/// increasing order.
#[verifier::external_body]
fn graph_externals(g: &StableGraph<(), (), Directed, u32>, incoming: bool) -> (v: Vec<usize>)
    ensures
        strictly_increasing(v@),
        forall|i: usize| #[trigger] v@.contains(i) <==> is_listed_external(*g, i, incoming),
{
    let dir = match incoming {
        true => Direction::Incoming,
        false => Direction::Outgoing,
    };
    g.externals(dir).map(|i| i.index()).collect()
}

/// `edge_references` on the graph, each edge turned into its (source, target)
/// indices: every edge, as often as it occurs.
#[verifier::external_body]
fn graph_edge_list(g: &StableGraph<(), (), Directed, u32>) -> (v: Vec<(usize, usize)>)
    ensures
        v@.to_multiset() == graph_edges(*g),
{
    g.edge_references().map(|e| (e.source().index(), e.target().index())).collect()
}

/// An edge joins the `k`-th node of `p` to the next one.
pub open spec fn linked(edges: Multiset<(usize, usize)>, p: Seq<usize>, k: int) -> bool {
    edges.count((p[k], p[k + 1])) > 0
}

/// `p` is a path: at least one node, and an edge from each node to the next.
pub open spec fn is_path(edges: Multiset<(usize, usize)>, p: Seq<usize>) -> bool {
    &&& p.len() >= 1
    &&& forall|k: int| 0 <= k < p.len() - 1 ==> #[trigger] linked(edges, p, k)
}

/// Some path leads from `u` to `v`; every node reaches itself.
pub open spec fn reaches(edges: Multiset<(usize, usize)>, u: usize, v: usize) -> bool {
    exists|p: Seq<usize>| is_path(edges, p) && p[0] == u && p.last() == v
}

/// Some path of at least one edge leads from `u` back to `u`.
pub open spec fn on_cycle(edges: Multiset<(usize, usize)>, u: usize) -> bool {
    exists|p: Seq<usize>| is_path(edges, p) && p.len() >= 2 && p[0] == u && p.last() == u
}

/// Along a path of at least one edge the rank goes strictly up.
pub proof fn lemma_path_rank(
    nodes: Set<usize>,
    edges: Multiset<(usize, usize)>,
    rank: Map<usize, int>,
    p: Seq<usize>,
)
    requires
        ranked_by(nodes, edges, rank),
        is_path(edges, p),
        p.len() >= 2,
    ensures
        rank[p[0]] < rank[p.last()],
        nodes.contains(p[0]),
        nodes.contains(p.last()),
    decreases p.len(),
{
    assert(linked(edges, p, p.len() - 2));
    if p.len() > 2 {
        let q = p.drop_last();
        assert forall|k: int| 0 <= k < q.len() - 1 implies #[trigger] linked(edges, q, k) by {
            assert(linked(edges, p, k));
        }
        lemma_path_rank(nodes, edges, rank, q);
    } else {
        assert(linked(edges, p, 0));
    }
}

/// A node on a cycle rules out any ranking that edges climb.
pub proof fn lemma_cycle_not_acyclic(nodes: Set<usize>, edges: Multiset<(usize, usize)>, u: usize)
    requires
        on_cycle(edges, u),
    ensures
        !acyclic(nodes, edges),
{
    if acyclic(nodes, edges) {
        let rank = choose|rank: Map<usize, int>| ranked_by(nodes, edges, rank);
        let p = choose|p: Seq<usize>| is_path(edges, p) && p.len() >= 2 && p[0] == u && p.last() == u;
        lemma_path_rank(nodes, edges, rank, p);
    }
}

/// `petgraph::algo::toposort`, each index turned into a `usize`: either every
/// node once, each before the targets of its edges, or, when the graph has a
/// cycle, the node that the `Cycle` it returns names (`Cycle::node_id`),
/// which petgraph documents as a node on a cycle.
#[verifier::external_body]
fn graph_toposort(g: &StableGraph<(), (), Directed, u32>) -> (r: Result<Vec<usize>, usize>)
    ensures
        match r {
            Ok(order) => {
                &&& order@.no_duplicates()
                &&& forall|i: usize| #[trigger] order@.contains(i) ==> i < index_limit()
                &&& edges_within(graph_nodes(*g), graph_edges(*g))
                &&& forall|i: usize| order@.contains(i) <==> graph_nodes(*g).contains(i)
                &&& forall|j: int, k: int|
                    0 <= j < order@.len() && 0 <= k < order@.len() && #[trigger] graph_edges(
                        *g,
                    ).count((order@[j], order@[k])) > 0 ==> j < k
            },
            Err(node) => graph_nodes(*g).contains(node) && on_cycle(graph_edges(*g), node),
        },
{
    match toposort(g, None) {
        Ok(order) => Ok(order.into_iter().map(|i| i.index()).collect()),
        Err(cycle) => Err(cycle.node_id().index()),
    }
}

// ---------------------------------------------------------------------------
// Ranks of finite node sets
// ---------------------------------------------------------------------------

/// A nonempty finite set of nodes has one of least rank.
pub proof fn lemma_least_rank(nodes: Set<usize>, rank: Map<usize, int>) -> (m: usize)
    requires
        nodes.finite(),
        nodes.len() > 0,
        forall|i: usize| nodes.contains(i) ==> rank.dom().contains(i),
    ensures
        nodes.contains(m),
        forall|i: usize| nodes.contains(i) ==> rank[m] <= rank[i],
    decreases nodes.len(),
{
    let x = nodes.choose();
    let rest = nodes.remove(x);
    if rest.len() == 0 {
        assert forall|i: usize| nodes.contains(i) implies rank[x] <= rank[i] by {
            if i != x {
                assert(rest.contains(i));
            }
        }
        x
    } else {
        let m0 = lemma_least_rank(rest, rank);
        if rank[x] <= rank[m0] {
            assert forall|i: usize| nodes.contains(i) implies rank[x] <= rank[i] by {
                if i != x {
                    assert(rest.contains(i));
                }
            }
            x
        } else {
            assert forall|i: usize| nodes.contains(i) implies rank[m0] <= rank[i] by {
                if i != x {
                    assert(rest.contains(i));
                }
            }
            m0
        }
    }
}

/// The ranks of a finite set of nodes are bounded above and below.
pub proof fn lemma_rank_bounds(nodes: Set<usize>, rank: Map<usize, int>) -> (b: (int, int))
    requires
        nodes.finite(),
        forall|i: usize| nodes.contains(i) ==> rank.dom().contains(i),
    ensures
        forall|i: usize| nodes.contains(i) ==> b.0 <= rank[i] <= b.1,
    decreases nodes.len(),
{
    if nodes.len() == 0 {
        (0, 0)
    } else {
        let x = nodes.choose();
        let rest = nodes.remove(x);
        let (lo, hi) = lemma_rank_bounds(rest, rank);
        let lo2 = if rank[x] < lo { rank[x] } else { lo };
        let hi2 = if rank[x] > hi { rank[x] } else { hi };
        assert forall|i: usize| nodes.contains(i) implies lo2 <= rank[i] <= hi2 by {
            if i != x {
                assert(rest.contains(i));
            }
        }
        (lo2, hi2)
    }
}

// ---------------------------------------------------------------------------
// The directed acyclic graph of tasks
// ---------------------------------------------------------------------------

/// The mathematical content of a `MyDAG`: what each node holds, by node
/// index, and the edges between node indices.
pub struct DagView<NodeData> {
    pub nodes: Map<usize, NodeData>,
    pub edges: Multiset<(usize, usize)>,
}

impl<NodeData> DagView<NodeData> {
    /// Finitely many nodes, all with indices below the index limit, every
    /// edge between two of them, and no directed cycle.
    pub open spec fn is_dag(self) -> bool {
        &&& self.nodes.dom().finite()
        &&& forall|i: usize| self.nodes.dom().contains(i) ==> i < index_limit()
        &&& edges_within(self.nodes.dom(), self.edges)
        &&& acyclic(self.nodes.dom(), self.edges)
    }

    /// The nodes that no edge ends at.
    pub open spec fn sources(self) -> Set<usize> {
        self.nodes.dom().filter(|i: usize| !has_incoming(self.edges, i))
    }

    /// The nodes that no edge starts at.
    pub open spec fn sinks(self) -> Set<usize> {
        self.nodes.dom().filter(|i: usize| !has_outgoing(self.edges, i))
    }

    /// The node indices that peeling the front takes out: the nodes that no
    /// edge ends at, in increasing order.
    pub open spec fn front(self) -> Seq<usize> {
        sorted_indices(self.sources())
    }
}

/// `m` gives each index of `from` its own index outside `avoid`.
pub open spec fn fresh_relabel(m: Map<usize, usize>, from: Set<usize>, avoid: Set<usize>) -> bool {
    &&& m.dom() == from
    &&& forall|i: usize, j: usize|
        from.contains(i) && from.contains(j) && i != j ==> #[trigger] m[i] != #[trigger] m[j]
    &&& forall|i: usize| from.contains(i) ==> !avoid.contains(#[trigger] m[i])
}

/// Some index is given `x` by `m`.
pub open spec fn in_image(m: Map<usize, usize>, x: usize) -> bool {
    exists|i: usize| m.dom().contains(i) && #[trigger] m[i] == x
}

impl<NodeData> DagView<NodeData> {
    /// `after` holds the nodes of `self` as they were, and the nodes of
    /// `other`, each under the new index that `m` gives it.
    pub open spec fn nodes_joined(self, other: Self, after: Self, m: Map<usize, usize>) -> bool {
        &&& fresh_relabel(m, other.nodes.dom(), self.nodes.dom())
        &&& forall|x: usize|
            #[trigger] after.nodes.dom().contains(x) <==> self.nodes.dom().contains(x) || in_image(m, x)
        &&& forall|x: usize| #[trigger] self.nodes.dom().contains(x) ==> after.nodes[x] == self.nodes[x]
        &&& forall|i: usize| #[trigger] other.nodes.dom().contains(i) ==> after.nodes[m[i]] == other.nodes[i]
    }

    /// `after` is the disjoint union of `self` and `other`, the nodes of
    /// `other` being renamed by `m`.
    pub open spec fn is_coproduct(self, other: Self, after: Self, m: Map<usize, usize>) -> bool {
        &&& self.nodes_joined(other, after, m)
        &&& forall|i: usize, j: usize|
            other.nodes.dom().contains(i) && other.nodes.dom().contains(j) ==> #[trigger] after.edges.count(
                (m[i], m[j]),
            ) == other.edges.count((i, j))
        &&& forall|e: (usize, usize)|
            !(in_image(m, e.0) && in_image(m, e.1)) ==> #[trigger] after.edges.count(e)
                == self.edges.count(e)
    }
}

/// The index that `m` maps to `x`.
pub open spec fn preimage(m: Map<usize, usize>, x: usize) -> usize {
    choose|i: usize| m.dom().contains(i) && #[trigger] m[i] == x
}

/// Joining two DAGs, with edges only inside each of them or from the first
/// to the second, gives a DAG.
pub proof fn lemma_joined_acyclic<T>(before: DagView<T>, other: DagView<T>, after: DagView<T>, m: Map<usize, usize>)
    requires
        before.is_dag(),
        other.is_dag(),
        before.nodes_joined(other, after, m),
        after.nodes.dom().finite(),
        forall|x: usize| #[trigger] after.nodes.dom().contains(x) ==> x < index_limit(),
        forall|e: (usize, usize)|
            #[trigger] after.edges.count(e) > 0 ==> before.edges.count(e) > 0 || (in_image(m, e.0)
                && in_image(m, e.1) && other.edges.count((preimage(m, e.0), preimage(m, e.1))) > 0)
                || (before.nodes.dom().contains(e.0) && in_image(m, e.1)),
    ensures
        after.is_dag(),
{
    let rb = choose|rank: Map<usize, int>| ranked_by(before.nodes.dom(), before.edges, rank);
    let ro = choose|rank: Map<usize, int>| ranked_by(other.nodes.dom(), other.edges, rank);
    let (lo_b, hi_b) = lemma_rank_bounds(before.nodes.dom(), rb);
    let (lo_o, hi_o) = lemma_rank_bounds(other.nodes.dom(), ro);
    let offset = hi_b - lo_o + 1;
    let rank = Map::new(
        |x: usize| after.nodes.dom().contains(x),
        |x: usize|
            if before.nodes.dom().contains(x) {
                rb[x]
            } else {
                ro[preimage(m, x)] + offset
            },
    );
    assert forall|x: usize| in_image(m, x) implies other.nodes.dom().contains(preimage(m, x)) && m[preimage(m, x)] == x
        && !before.nodes.dom().contains(x) by {
        let i = preimage(m, x);
        assert(m.dom().contains(i) && m[i] == x);
    }
    assert forall|e: (usize, usize)| #[trigger] after.edges.count(e) > 0 implies after.nodes.dom().contains(e.0)
        && after.nodes.dom().contains(e.1) && rank[e.0] < rank[e.1] by {
        if before.edges.count(e) > 0 {
            assert(before.nodes.dom().contains(e.0) && before.nodes.dom().contains(e.1));
        } else if in_image(m, e.0) && in_image(m, e.1) && other.edges.count((preimage(m, e.0), preimage(m, e.1))) > 0 {
            let i = preimage(m, e.0);
            let j = preimage(m, e.1);
            assert(other.edges.count((i, j)) > 0);
            assert(ro[i] < ro[j]);
        } else {
            let j = preimage(m, e.1);
            assert(before.nodes.dom().contains(e.0));
            assert(rb[e.0] <= hi_b);
            assert(lo_o <= ro[j]);
        }
    }
    assert(rank.dom() =~= after.nodes.dom());
    assert(ranked_by(after.nodes.dom(), after.edges, rank));
}

impl<NodeData> DagView<NodeData> {
    /// The edge runs from a node of `self` that no edge starts at to the new
    /// index of a node of `other` that no edge ends at.
    pub open spec fn is_bridge(self, other: Self, m: Map<usize, usize>, e: (usize, usize)) -> bool {
        &&& self.nodes.dom().contains(e.0)
        &&& is_external(self.edges, e.0, false)
        &&& in_image(m, e.1)
        &&& is_external(other.edges, preimage(m, e.1), true)
    }

    /// `after` is `self` followed by `other`: their disjoint union (the nodes
    /// of `other` renamed by `m`) with one more edge from every node of
    /// `self` that no edge starts at to every node of `other` that no edge
    /// ends at.
    pub open spec fn is_post_composition(self, other: Self, after: Self, m: Map<usize, usize>) -> bool {
        &&& self.nodes_joined(other, after, m)
        &&& forall|i: usize, j: usize|
            other.nodes.dom().contains(i) && other.nodes.dom().contains(j) ==> #[trigger] after.edges.count(
                (m[i], m[j]),
            ) == other.edges.count((i, j))
        &&& forall|e: (usize, usize)|
            !(in_image(m, e.0) && in_image(m, e.1)) ==> #[trigger] after.edges.count(e)
                == self.edges.count(e) + if self.is_bridge(other, m, e) {
                1nat
            } else {
                0nat
            }
    }

    /// `after` holds `items` under increasing indices, in the order given,
    /// and no edge.
    pub open spec fn holds_all(after: Self, items: Seq<NodeData>) -> bool {
        &&& after.edges == Multiset::<(usize, usize)>::empty()
        &&& exists|idx: Seq<usize>|
            {
                &&& idx.len() == items.len()
                &&& strictly_increasing(idx)
                &&& idx.no_duplicates()
                &&& forall|x: usize| #[trigger] after.nodes.dom().contains(x) <==> idx.contains(x)
                &&& forall|k: int| 0 <= k < idx.len() ==> after.nodes[#[trigger] idx[k]] == items[k]
            }
    }
}

/// Two paths joined by an edge from the end of the first to the start of the
/// second make one path.
pub proof fn lemma_path_join(edges: Multiset<(usize, usize)>, p: Seq<usize>, q: Seq<usize>)
    requires
        is_path(edges, p),
        is_path(edges, q),
        edges.count((p.last(), q[0])) > 0,
    ensures
        is_path(edges, p + q),
        (p + q)[0] == p[0],
        (p + q).last() == q.last(),
{
    let r = p + q;
    assert forall|k: int| 0 <= k < r.len() - 1 implies #[trigger] linked(edges, r, k) by {
        if k < p.len() - 1 {
            assert(linked(edges, p, k));
        } else if k == p.len() - 1 {
            assert(r[k] == p.last() && r[k + 1] == q[0]);
        } else {
            assert(linked(edges, q, k - p.len()));
            assert(r[k] == q[k - p.len()] && r[k + 1] == q[k - p.len() + 1]);
        }
    }
}

/// From a node of a ranked graph a path within the nodes leads to a node
/// that no edge starts at.
proof fn lemma_walk_to_sink(
    nodes: Set<usize>,
    edges: Multiset<(usize, usize)>,
    rank: Map<usize, int>,
    hi: int,
    u: usize,
) -> (r: (usize, Seq<usize>))
    requires
        ranked_by(nodes, edges, rank),
        forall|i: usize| nodes.contains(i) ==> rank[i] <= hi,
        nodes.contains(u),
    ensures
        !has_outgoing(edges, r.0),
        is_path(edges, r.1),
        r.1[0] == u,
        r.1.last() == r.0,
        forall|k: int| 0 <= k < r.1.len() ==> nodes.contains(#[trigger] r.1[k]),
    decreases hi - rank[u],
{
    if has_outgoing(edges, u) {
        let v = choose|v: usize| #[trigger] edges.count((u, v)) > 0;
        assert(rank[u] < rank[v] && nodes.contains(v));
        let (s, q) = lemma_walk_to_sink(nodes, edges, rank, hi, v);
        let p = seq![u] + q;
        assert(seq![u].last() == u);
        lemma_path_join(edges, seq![u], q);
        assert forall|k: int| 0 <= k < p.len() implies nodes.contains(#[trigger] p[k]) by {
            if k > 0 {
                assert(p[k] == q[k - 1]);
            }
        }
        (s, p)
    } else {
        let p = seq![u];
        assert(is_path(edges, p));
        (u, p)
    }
}

/// To a node of a ranked graph a path within the nodes leads from a node
/// that no edge ends at.
proof fn lemma_walk_from_source(
    nodes: Set<usize>,
    edges: Multiset<(usize, usize)>,
    rank: Map<usize, int>,
    lo: int,
    v: usize,
) -> (r: (usize, Seq<usize>))
    requires
        ranked_by(nodes, edges, rank),
        forall|i: usize| nodes.contains(i) ==> lo <= rank[i],
        nodes.contains(v),
    ensures
        !has_incoming(edges, r.0),
        is_path(edges, r.1),
        r.1[0] == r.0,
        r.1.last() == v,
        forall|k: int| 0 <= k < r.1.len() ==> nodes.contains(#[trigger] r.1[k]),
    decreases rank[v] - lo,
{
    if has_incoming(edges, v) {
        let u = choose|u: usize| #[trigger] edges.count((u, v)) > 0;
        assert(rank[u] < rank[v] && nodes.contains(u));
        let (t, q) = lemma_walk_from_source(nodes, edges, rank, lo, u);
        let p = q + seq![v];
        assert(seq![v][0] == v);
        lemma_path_join(edges, q, seq![v]);
        assert forall|k: int| 0 <= k < p.len() implies nodes.contains(#[trigger] p[k]) by {
            if k < q.len() {
                assert(p[k] == q[k]);
            }
        }
        (t, p)
    } else {
        let p = seq![v];
        assert(is_path(edges, p));
        (v, p)
    }
}

/// Putting `other` after `self` makes every task of `self` come before every
/// task of `other`: in the result `after`, each node `u` of `self` reaches the
/// new copy of each node `v` of `other`, and that copy does not reach `u`.
pub proof fn lemma_post_composition_orders<T>(
    before: DagView<T>,
    other: DagView<T>,
    after: DagView<T>,
    m: Map<usize, usize>,
    u: usize,
    v: usize,
)
    requires
        before.is_dag(),
        other.is_dag(),
        after.is_dag(),
        before.is_post_composition(other, after, m),
        before.nodes.dom().contains(u),
        other.nodes.dom().contains(v),
    ensures
        reaches(after.edges, u, m[v]),
        !reaches(after.edges, m[v], u),
{
    let bn = before.nodes.dom();
    let on = other.nodes.dom();
    assert forall|x: usize| in_image(m, x) implies !bn.contains(x) by {
        let i = choose|i: usize| m.dom().contains(i) && #[trigger] m[i] == x;
    }
    // old edges stay
    assert forall|e: (usize, usize)| before.edges.count(e) > 0 implies #[trigger] after.edges.count(e) > 0 by {
        assert(bn.contains(e.0) && bn.contains(e.1));
        assert(!in_image(m, e.0));
    }
    let rb = choose|rank: Map<usize, int>| ranked_by(bn, before.edges, rank);
    let (_lo_b, hi_b) = lemma_rank_bounds(bn, rb);
    let (s, p1) = lemma_walk_to_sink(bn, before.edges, rb, hi_b, u);
    assert forall|k: int| 0 <= k < p1.len() - 1 implies #[trigger] linked(after.edges, p1, k) by {
        assert(linked(before.edges, p1, k));
    }
    let ro = choose|rank: Map<usize, int>| ranked_by(on, other.edges, rank);
    let (lo_o, _hi_o) = lemma_rank_bounds(on, ro);
    let (t, q) = lemma_walk_from_source(on, other.edges, ro, lo_o, v);
    let p2 = q.map_values(|i: usize| m[i]);
    assert forall|k: int| 0 <= k < p2.len() - 1 implies #[trigger] linked(after.edges, p2, k) by {
        assert(linked(other.edges, q, k));
        assert(on.contains(q[k]) && on.contains(q[k + 1]));
        assert(after.edges.count((m[q[k]], m[q[k + 1]])) == other.edges.count((q[k], q[k + 1])));
    }
    // the bridge from the end of `self` to the start of `other`
    let e = (s, m[t]);
    assert(in_image(m, m[t]));
    assert(preimage(m, m[t]) == t) by {
        let i = preimage(m, m[t]);
        assert(m.dom().contains(i) && m[i] == m[t]);
    }
    assert(before.is_bridge(other, m, e));
    assert(!in_image(m, s));
    assert(after.edges.count(e) > 0);
    assert(p1.last() == s && p2[0] == m[t]);
    lemma_path_join(after.edges, p1, p2);
    let p = p1 + p2;
    assert(p.last() == m[v]);
    assert(reaches(after.edges, u, m[v]));
    // and nothing leads back
    assert(m[v] != u) by {
        assert(in_image(m, m[v]));
    }
    let ra = choose|rank: Map<usize, int>| ranked_by(after.nodes.dom(), after.edges, rank);
    assert(p.len() >= 2);
    lemma_path_rank(after.nodes.dom(), after.edges, ra, p);
    if reaches(after.edges, m[v], u) {
        let r = choose|r: Seq<usize>| is_path(after.edges, r) && r[0] == m[v] && r.last() == u;
        assert(r.len() >= 2);
        lemma_path_rank(after.nodes.dom(), after.edges, ra, r);
    }
}

/// The elements of a finite set, listed in increasing order.
proof fn lemma_increasing_list(s: Set<usize>) -> (v: Seq<usize>)
    requires
        s.finite(),
    ensures
        strictly_increasing(v),
        forall|i: usize| v.contains(i) <==> s.contains(i),
    decreases s.len(),
{
    if s.len() == 0 {
        s.lemma_len0_is_empty();
        Seq::empty()
    } else {
        let rank = Map::new(|i: usize| s.contains(i), |i: usize| i as int);
        let m = lemma_least_rank(s, rank);
        let rest = s.remove(m);
        let w = lemma_increasing_list(rest);
        let v = seq![m] + w;
        assert forall|a: int, b: int| 0 <= a < b < v.len() implies v[a] < v[b] by {
            assert(v[b] == w[b - 1]);
            assert(w.contains(w[b - 1]));
            if a == 0 {
                assert(s.contains(w[b - 1]) && w[b - 1] != m);
                assert(rank[m] <= rank[w[b - 1]]);
            } else {
                assert(v[a] == w[a - 1]);
            }
        }
        assert forall|i: usize| v.contains(i) <==> s.contains(i) by {
            if i == m {
                assert(v[0] == m);
            } else {
                if v.contains(i) {
                    let k = choose|k: int| 0 <= k < v.len() && v[k] == i;
                    assert(w[k - 1] == i);
                    assert(w.contains(i));
                }
                if s.contains(i) {
                    assert(rest.contains(i));
                    let k = choose|k: int| 0 <= k < w.len() && w[k] == i;
                    assert(v[k + 1] == i);
                }
            }
        }
        v
    }
}

/// `sorted_indices` of a finite set lists its elements, each once, in
/// increasing order.
pub proof fn lemma_sorted_indices_of_finite(s: Set<usize>)
    requires
        s.finite(),
    ensures
        strictly_increasing(sorted_indices(s)),
        forall|i: usize| #[trigger] sorted_indices(s).contains(i) <==> s.contains(i),
        sorted_indices(s).len() == s.len(),
{
    let v = lemma_increasing_list(s);
    lemma_sorted_indices(v, s);
    lemma_increasing_len(v, s);
}

/// The front of a graph with finitely many nodes lists, in increasing order,
/// exactly the nodes that no edge ends at.
pub proof fn lemma_front_lists_sources<T>(d: DagView<T>)
    requires
        d.nodes.dom().finite(),
    ensures
        strictly_increasing(d.front()),
        forall|i: usize| #[trigger] d.front().contains(i) <==> d.sources().contains(i),
{
    d.nodes.dom().lemma_len_filter(|i: usize| !has_incoming(d.edges, i));
    let v = lemma_increasing_list(d.sources());
    lemma_sorted_indices(v, d.sources());
}

impl<NodeData> DagView<NodeData> {
    /// `after` is what peeling the front of `self` leaves: the nodes that no
    /// edge ends at are gone, with every edge at them.
    pub open spec fn peels_to(self, after: Self) -> bool {
        &&& after.nodes == self.nodes.remove_keys(self.sources())
        &&& forall|e: (usize, usize)|
            #[trigger] after.edges.count(e) == if self.sources().contains(e.0) || self.sources().contains(
                e.1,
            ) {
                0
            } else {
                self.edges.count(e)
            }
    }
}

/// Peeling `states[j]` leaves `states[j + 1]`.
pub open spec fn peel_step<T>(states: Seq<DagView<T>>, j: int) -> bool {
    states[j].peels_to(states[j + 1])
}

/// The node indices handed out, layer after layer, while peeling passes
/// through `states`.
pub open spec fn peel_order<T>(states: Seq<DagView<T>>) -> Seq<usize>
    decreases states.len(),
{
    if states.len() <= 1 {
        Seq::empty()
    } else {
        states[0].front() + peel_order(states.drop_first())
    }
}

/// The node data handed out, layer after layer, while peeling passes
/// through `states`.
pub open spec fn peel_output<T>(states: Seq<DagView<T>>) -> Seq<T>
    decreases states.len(),
{
    if states.len() <= 1 {
        Seq::empty()
    } else {
        states[0].front().map_values(|i: usize| states[0].nodes[i]) + peel_output(states.drop_first())
    }
}

/// Peeling a DAG leaves a DAG.
pub proof fn lemma_peel_keeps_dag<T>(d: DagView<T>, after: DagView<T>)
    requires
        d.is_dag(),
        d.peels_to(after),
    ensures
        after.is_dag(),
{
    let src = d.sources();
    let nodes = after.nodes.dom();
    assert(nodes =~= d.nodes.dom().difference(src));
    vstd::set_lib::lemma_set_subset_finite(d.nodes.dom(), nodes);
    let rank = choose|rank: Map<usize, int>| ranked_by(d.nodes.dom(), d.edges, rank);
    let r2 = rank.restrict(nodes);
    assert(r2.dom() =~= nodes);
    assert(ranked_by(nodes, after.edges, r2));
}

/// Peeling a nonempty DAG takes at least one node out.
pub proof fn lemma_peel_shrinks<T>(d: DagView<T>, after: DagView<T>)
    requires
        d.is_dag(),
        d.peels_to(after),
        d.nodes.dom().len() > 0,
    ensures
        after.nodes.dom().len() < d.nodes.dom().len(),
{
    let rank = choose|rank: Map<usize, int>| ranked_by(d.nodes.dom(), d.edges, rank);
    let m = lemma_least_rank(d.nodes.dom(), rank);
    assert(!has_incoming(d.edges, m)) by {
        if has_incoming(d.edges, m) {
            let u = choose|u: usize| #[trigger] d.edges.count((u, m)) > 0;
            assert(rank[u] < rank[m]);
        }
    }
    assert(d.sources().contains(m));
    assert(after.nodes.dom() =~= d.nodes.dom().difference(d.sources()));
    vstd::set_lib::lemma_len_subset(after.nodes.dom(), d.nodes.dom().remove(m));
}

/// Peeling a DAG over and over until nothing is left hands out every node
/// once, each after every node with an edge to it, and hands out the data of
/// the nodes in that order.
pub proof fn lemma_peeling_orders_all<T>(states: Seq<DagView<T>>)
    requires
        states.len() >= 1,
        states[0].is_dag(),
        forall|j: int| 0 <= j < states.len() - 1 ==> #[trigger] peel_step(states, j),
        states.last().nodes.dom().len() == 0,
    ensures
        peel_order(states).no_duplicates(),
        forall|i: usize| peel_order(states).contains(i) <==> states[0].nodes.dom().contains(i),
        forall|a: int, b: int|
            0 <= a < peel_order(states).len() && 0 <= b < peel_order(states).len()
                && #[trigger] states[0].edges.count((peel_order(states)[a], peel_order(states)[b])) > 0
                ==> a < b,
        peel_output(states) == peel_order(states).map_values(|i: usize| states[0].nodes[i]),
    decreases states.len(),
{
    let d0 = states[0];
    if states.len() == 1 {
        d0.nodes.dom().lemma_len0_is_empty();
        assert(peel_order(states) =~= Seq::<usize>::empty());
        assert(peel_output(states) =~= Seq::<T>::empty());
        assert(peel_order(states).map_values(|i: usize| d0.nodes[i]) =~= Seq::<T>::empty());
    } else {
        let rest = states.drop_first();
        let d1 = rest[0];
        assert(peel_step(states, 0));
        lemma_peel_keeps_dag(d0, d1);
        assert forall|j: int| 0 <= j < rest.len() - 1 implies #[trigger] peel_step(rest, j) by {
            assert(peel_step(states, j + 1));
        }
        lemma_peeling_orders_all(rest);
        lemma_front_lists_sources(d0);
        let f = d0.front();
        let r = peel_order(rest);
        let o = peel_order(states);
        assert(o == f + r);
        let src = d0.sources();
        assert forall|i: usize| r.contains(i) implies !src.contains(i) && d0.nodes.dom().contains(i) by {
            if r.contains(i) {
                assert(d1.nodes.dom().contains(i));
            }
        }
        lemma_increasing_len(f, src);
        assert(o.no_duplicates()) by {
            assert forall|a: int, b: int| 0 <= a < o.len() && 0 <= b < o.len() && a != b implies o[a] != o[b] by {
                if a < f.len() && b < f.len() {
                } else if a >= f.len() && b >= f.len() {
                    assert(o[a] == r[a - f.len()] && o[b] == r[b - f.len()]);
                } else if a < f.len() {
                    assert(o[b] == r[b - f.len()]);
                    assert(r.contains(o[b]));
                    assert(f.contains(o[a]));
                } else {
                    assert(o[a] == r[a - f.len()]);
                    assert(r.contains(o[a]));
                    assert(f.contains(o[b]));
                }
            }
        }
        assert forall|i: usize| o.contains(i) <==> d0.nodes.dom().contains(i) by {
            if o.contains(i) {
                let k = choose|k: int| 0 <= k < o.len() && o[k] == i;
                if k < f.len() {
                    assert(f.contains(i));
                } else {
                    assert(r[k - f.len()] == i);
                    assert(r.contains(i));
                }
            }
            if d0.nodes.dom().contains(i) {
                if src.contains(i) {
                    let k = choose|k: int| 0 <= k < f.len() && f[k] == i;
                    assert(o[k] == i);
                } else {
                    assert(d1.nodes.dom().contains(i));
                    assert(r.contains(i));
                    let k = choose|k: int| 0 <= k < r.len() && r[k] == i;
                    assert(o[k + f.len()] == i);
                }
            }
        }
        assert forall|a: int, b: int|
            0 <= a < o.len() && 0 <= b < o.len() && #[trigger] d0.edges.count((o[a], o[b])) > 0 implies a < b by {
            let u = o[a];
            let v = o[b];
            assert(has_incoming(d0.edges, v));
            if b < f.len() {
                assert(f.contains(v));
            }
            assert(b >= f.len());
            assert(v == r[b - f.len()]);
            if a >= f.len() {
                assert(u == r[a - f.len()]);
                assert(r.contains(u) && r.contains(v));
                assert(!src.contains(u) && !src.contains(v));
                assert(d1.edges.count((u, v)) == d0.edges.count((u, v)));
                assert(d1.edges.count((r[a - f.len()], r[b - f.len()])) > 0);
            }
        }
        let g = |i: usize| d0.nodes[i];
        assert(peel_output(states) == f.map_values(g) + peel_output(rest));
        assert forall|i: usize| r.contains(i) implies d1.nodes[i] == d0.nodes[i] by {
            assert(d1.nodes.dom().contains(i));
        }
        assert(peel_output(rest) =~= r.map_values(g)) by {
            assert forall|k: int| 0 <= k < r.len() implies peel_output(rest)[k] == r.map_values(g)[k] by {
                assert(r.contains(r[k]));
            }
        }
        assert(peel_output(states) =~= o.map_values(g)) by {
            assert forall|k: int| 0 <= k < o.len() implies peel_output(states)[k] == o.map_values(g)[k] by {
                if k >= f.len() {
                    assert(o[k] == r[k - f.len()]);
                }
            }
        }
    }
}

/// Peeling a DAG until nothing is left, with a node taken out each time,
/// takes at most as many peels as the DAG has nodes.
pub proof fn lemma_peeling_ends<T>(states: Seq<DagView<T>>)
    requires
        states.len() >= 1,
        states[0].is_dag(),
        forall|j: int| 0 <= j < states.len() - 1 ==> #[trigger] peel_step(states, j),
        forall|j: int| 0 <= j < states.len() - 1 ==> (#[trigger] states[j]).nodes.dom().len() > 0,
    ensures
        states.len() - 1 <= states[0].nodes.dom().len(),
    decreases states.len(),
{
    if states.len() > 1 {
        let rest = states.drop_first();
        assert(peel_step(states, 0));
        assert(states[0].nodes.dom().len() > 0);
        lemma_peel_keeps_dag(states[0], rest[0]);
        lemma_peel_shrinks(states[0], rest[0]);
        assert forall|j: int| 0 <= j < rest.len() - 1 implies #[trigger] peel_step(rest, j) by {
            assert(peel_step(states, j + 1));
        }
        assert forall|j: int| 0 <= j < rest.len() - 1 implies (#[trigger] rest[j]).nodes.dom().len() > 0 by {
            assert(rest[j] == states[j + 1]);
        }
        lemma_peeling_ends(rest);
    }
}

/// A graph that holds `items` with no edge hands them all out in the first
/// layer, in the order given.
pub proof fn lemma_parallel_front_in_order<T>(d: DagView<T>, items: Seq<T>)
    requires
        DagView::holds_all(d, items),
    ensures
        d.front().map_values(|i: usize| d.nodes[i]) == items,
{
    let idx = choose|idx: Seq<usize>|
        {
            &&& idx.len() == items.len()
            &&& strictly_increasing(idx)
            &&& idx.no_duplicates()
            &&& forall|x: usize| #[trigger] d.nodes.dom().contains(x) <==> idx.contains(x)
            &&& forall|k: int| 0 <= k < idx.len() ==> d.nodes[#[trigger] idx[k]] == items[k]
        };
    assert forall|i: usize| idx.contains(i) <==> d.sources().contains(i) by {
        assert(!has_incoming(d.edges, i));
    }
    lemma_sorted_indices(idx, d.sources());
    assert(d.front().map_values(|i: usize| d.nodes[i]) =~= items);
}

/// An increasing sequence drawn from a finite set is no longer than the set.
pub proof fn lemma_increasing_len_bound(v: Seq<usize>, s: Set<usize>)
    requires
        strictly_increasing(v),
        s.finite(),
        forall|i: usize| v.contains(i) ==> s.contains(i),
    ensures
        v.len() <= s.len(),
{
    assert(v.no_duplicates()) by {
        assert forall|a: int, b: int| 0 <= a < v.len() && 0 <= b < v.len() && a != b implies v[a] != v[b] by {
            if a < b {
                assert(v[a] < v[b]);
            } else {
                assert(v[b] < v[a]);
            }
        }
    }
    v.unique_seq_to_set();
    assert(v.to_set().subset_of(s));
    vstd::set_lib::lemma_len_subset(v.to_set(), s);
}

/// The index of a node of a `MyDAG`.
pub type MyDAGNode = usize;

/// Why a task graph and the data of its nodes do not make a DAG.
#[derive(Debug, PartialEq, Eq, Structural)]
pub enum DagError {
    /// The node indices of the graph and the keys of the data differ.
    DataMismatch,
    /// The graph has a cycle, and this node lies on one.
    Cycle(MyDAGNode),
}

/// Marks the types that carry the task graph operations.
pub trait Sealed {
}

/// A directed acyclic graph whose nodes hold data of type `NodeData`.
pub struct MyDAG<NodeData> {
    pub(crate) underlying: StableGraph<(), (), Directed, u32>,
    payloads: HashMap<usize, NodeData>,
}

impl<NodeData> Sealed for MyDAG<NodeData> {
}

impl<NodeData> View for MyDAG<NodeData> {
    type V = DagView<NodeData>;

    closed spec fn view(&self) -> DagView<NodeData> {
        DagView { nodes: self.payloads@, edges: graph_edges(self.underlying) }
    }
}

impl<NodeData> MyDAG<NodeData> {
    /// The graph and the node data agree on the node indices, and the view is
    /// a DAG.
    pub closed spec fn wf(&self) -> bool {
        &&& graph_nodes(self.underlying) == self.payloads@.dom()
        &&& self@.is_dag()
    }

    /// The view of a well-formed graph is a DAG.
    pub proof fn lemma_wf_dag(&self)
        requires
            self.wf(),
        ensures
            self@.is_dag(),
    {
    }

    /// An empty graph.
    pub fn new() -> (d: Self)
        ensures
            d.wf(),
            d@.nodes == Map::<usize, NodeData>::empty(),
            d@.edges == Multiset::<(usize, usize)>::empty(),
    {
        let d = MyDAG { underlying: graph_new(), payloads: HashMap::new() };
        proof {
            let rank = Map::<usize, int>::empty();
            assert(ranked_by(Set::empty(), Multiset::empty(), rank));
            assert(d.payloads@.dom() =~= Set::<usize>::empty());
        }
        d
    }

    /// Takes out every node that no edge ends at, all at once, and hands back
    /// what those nodes held, in increasing order of node index. A node
    /// taken out depends on no node left, and every node left depends on
    /// some node.
    pub fn peel_front(&mut self) -> (front: Vec<NodeData>)
        requires
            old(self).wf(),
        ensures
            final(self).wf(),
            strictly_increasing(old(self)@.front()),
            forall|i: usize|
                #[trigger] old(self)@.front().contains(i) <==> old(self)@.nodes.dom().contains(i)
                    && !has_incoming(old(self)@.edges, i),
            front@ == old(self)@.front().map_values(|i: usize| old(self)@.nodes[i]),
            old(self)@.peels_to(final(self)@),
            old(self)@.nodes.dom().len() > 0 ==> front@.len() > 0,
            old(self)@.nodes.dom().len() > 0 ==> final(self)@.nodes.dom().len() < old(self)@.nodes.dom().len(),
    {
        let ghost old_view = self@;
        let ghost edges0 = old_view.edges;
        let ghost src = old_view.sources();
        let idces = graph_node_indices(&self.underlying);
        let mut free: Vec<usize> = Vec::new();
        let mut k: usize = 0;
        while k < idces.len()
            invariant
                0 <= k <= idces@.len(),
                strictly_increasing(idces@),
                forall|i: usize| idces@.contains(i) <==> old_view.nodes.dom().contains(i),
                old_view.is_dag(),
                src == old_view.sources(),
                edges0 == old_view.edges,
                graph_edges(self.underlying) == edges0,
                strictly_increasing(free@),
                forall|j: int|
                    0 <= j < free@.len() ==> exists|m: int| 0 <= m < k && idces@[m] == #[trigger] free@[j],
                forall|i: usize|
                    #[trigger] free@.contains(i) <==> (exists|m: int| 0 <= m < k && idces@[m] == i)
                        && !has_incoming(edges0, i),
            decreases idces@.len() - k,
        {
            let idx = idces[k];
            proof {
                assert(idces@.contains(idx));
            }
            proof {
                lemma_in_degree_zero(edges0, idx);
            }
            if graph_in_degree(&self.underlying, idx) == 0 {
                let ghost before = free@;
                free.push(idx);
                proof {
                    assert forall|a: int, b: int| 0 <= a < b < free@.len() implies free@[a] < free@[b] by {
                        if b == before.len() {
                            let m = choose|m: int| 0 <= m < k && idces@[m] == before[a];
                            assert(idces@[m] < idces@[k as int]);
                        } else {
                            assert(before[a] < before[b]);
                        }
                    }
                    assert forall|j: int| 0 <= j < free@.len() implies exists|m: int|
                        0 <= m < k + 1 && idces@[m] == #[trigger] free@[j] by {
                        if j == before.len() {
                            assert(idces@[k as int] == free@[j]);
                        } else {
                            assert(free@[j] == before[j]);
                            let m = choose|m: int| 0 <= m < k && idces@[m] == before[j];
                        }
                    }
                    assert forall|i: usize|
                        #[trigger] free@.contains(i) <==> (exists|m: int| 0 <= m < k + 1 && idces@[m] == i)
                            && !has_incoming(edges0, i) by {
                        if free@.contains(i) && i != idx {
                            let j = choose|j: int| 0 <= j < free@.len() && free@[j] == i;
                            assert(before[j] == i);
                            assert(before.contains(i));
                        }
                        if (exists|m: int| 0 <= m < k + 1 && idces@[m] == i) && !has_incoming(edges0, i) {
                            if i == idx {
                                assert(free@[before.len() as int] == i);
                            } else {
                                let m = choose|m: int| 0 <= m < k + 1 && idces@[m] == i;
                                assert(m != k);
                                assert(before.contains(i));
                                let j = choose|j: int| 0 <= j < before.len() && before[j] == i;
                                assert(free@[j] == i);
                            }
                        }
                    }
                }
            } else {
                proof {
                    assert forall|i: usize|
                        #[trigger] free@.contains(i) <==> (exists|m: int| 0 <= m < k + 1 && idces@[m] == i)
                            && !has_incoming(edges0, i) by {
                        if (exists|m: int| 0 <= m < k + 1 && idces@[m] == i) && !has_incoming(edges0, i) {
                            let m = choose|m: int| 0 <= m < k + 1 && idces@[m] == i;
                            assert(m != k);
                        }
                    }
                    assert forall|j: int| 0 <= j < free@.len() implies exists|m: int|
                        0 <= m < k + 1 && idces@[m] == #[trigger] free@[j] by {
                        let m = choose|m: int| 0 <= m < k && idces@[m] == free@[j];
                    }
                }
            }
            k += 1;
        }
        proof {
            assert forall|i: usize| free@.contains(i) <==> src.contains(i) by {
                if src.contains(i) {
                    assert(idces@.contains(i));
                    let m = choose|m: int| 0 <= m < idces@.len() && idces@[m] == i;
                }
            }
            lemma_sorted_indices(free@, src);
            lemma_increasing_len(free@, src);
            assert(free@.to_set() =~= src);
        }
        let mut front: Vec<NodeData> = Vec::new();
        let mut j: usize = 0;
        while j < free.len()
            invariant
                0 <= j <= free@.len(),
                free@ == old_view.front(),
                free@.no_duplicates(),
                forall|i: usize| free@.contains(i) <==> src.contains(i),
                src == old_view.sources(),
                old_view.is_dag(),
                edges0 == old_view.edges,
                graph_nodes(self.underlying) == self.payloads@.dom(),
                self.payloads@ == old_view.nodes.remove_keys(free@.take(j as int).to_set()),
                forall|e: (usize, usize)|
                    #[trigger] graph_edges(self.underlying).count(e) == if free@.take(j as int).contains(e.0)
                        || free@.take(j as int).contains(e.1) {
                        0
                    } else {
                        edges0.count(e)
                    },
                front@ == free@.take(j as int).map_values(|i: usize| old_view.nodes[i]),
            decreases free@.len() - j,
        {
            let idx = free[j];
            let ghost done = free@.take(j as int);
            let ghost done2 = free@.take(j + 1);
            proof {
                assert(done2 =~= done.push(idx));
                assert(free@.contains(idx));
                assert(!done.contains(idx)) by {
                    if done.contains(idx) {
                        let m = choose|m: int| 0 <= m < done.len() && done[m] == idx;
                        assert(free@[m] == free@[j as int]);
                    }
                }
                assert(src.contains(idx));
                assert(old_view.nodes.dom().contains(idx));
            }
            let _ = graph_remove_node(&mut self.underlying, idx);
            let taken = self.payloads.remove(&idx);
            match taken {
                Some(data) => {
                    front.push(data);
                },
                None => {},
            }
            proof {
                broadcast use vstd::seq_lib::group_seq_properties;
                assert(done2.to_set() =~= done.to_set().insert(idx));
                assert(self.payloads@ =~= old_view.nodes.remove_keys(done2.to_set()));
                assert(front@ =~= done2.map_values(|i: usize| old_view.nodes[i]));
                assert forall|e: (usize, usize)|
                    #[trigger] graph_edges(self.underlying).count(e) == if done2.contains(e.0)
                        || done2.contains(e.1) {
                        0
                    } else {
                        edges0.count(e)
                    } by {
                    assert(done2.contains(e.0) <==> done.contains(e.0) || e.0 == idx);
                    assert(done2.contains(e.1) <==> done.contains(e.1) || e.1 == idx);
                }
            }
            j += 1;
        }
        proof {
            assert(free@.take(free@.len() as int) =~= free@);
            assert(free@.to_set() =~= src);
            // the view is still a DAG
            let rank = choose|rank: Map<usize, int>| ranked_by(old_view.nodes.dom(), edges0, rank);
            let new_nodes = self.payloads@.dom();
            let new_rank = rank.restrict(new_nodes);
            assert(new_rank.dom() =~= new_nodes);
            assert(ranked_by(new_nodes, graph_edges(self.underlying), new_rank));
            // progress: a node of least rank has no incoming edge, so it leaves
            if old_view.nodes.dom().len() > 0 {
                let m = lemma_least_rank(old_view.nodes.dom(), rank);
                assert(!has_incoming(edges0, m)) by {
                    if has_incoming(edges0, m) {
                        let u = choose|u: usize| #[trigger] edges0.count((u, m)) > 0;
                        assert(rank[u] < rank[m]);
                    }
                }
                assert(src.contains(m));
                assert(free@.contains(m));
                assert(self.payloads@.dom() =~= old_view.nodes.dom().difference(src));
                vstd::set_lib::lemma_len_subset(self.payloads@.dom(), old_view.nodes.dom().remove(m));
            }
        }
        front
    }

    /// Adds every node and edge of `other`, the nodes of `other` under fresh
    /// indices, and gives back the map from their old to their new indices.
    fn coproduct_helper(&mut self, other: Self) -> (matched: HashMap<usize, usize>)
        requires
            old(self).wf(),
            other.wf(),
            old(self)@.nodes.dom().len() + other@.nodes.dom().len() < index_limit(),
            old(self)@.edges.len() + other@.edges.len() < index_limit(),
        ensures
            final(self).wf(),
            old(self)@.is_coproduct(other@, final(self)@, matched@),
            final(self)@.nodes.dom().len() == old(self)@.nodes.dom().len() + other@.nodes.dom().len(),
            final(self)@.edges.len() == old(self)@.edges.len() + other@.edges.len(),
    {
        broadcast use vstd::seq_lib::group_to_multiset_ensures;
        let ghost before = self@;
        let ghost other_view = other@;
        let MyDAG { underlying: other_graph, payloads: mut other_payloads } = other;
        let mut matched: HashMap<usize, usize> = HashMap::new();
        let other_idcs = graph_node_indices(&other_graph);
        proof {
            assert(other_idcs@.no_duplicates()) by {
                assert forall|a: int, b: int|
                    0 <= a < other_idcs@.len() && 0 <= b < other_idcs@.len() && a != b implies other_idcs@[a]
                    != other_idcs@[b] by {
                    if a < b {
                        assert(other_idcs@[a] < other_idcs@[b]);
                    } else {
                        assert(other_idcs@[b] < other_idcs@[a]);
                    }
                }
            }
            other_idcs@.unique_seq_to_set();
            assert(other_idcs@.to_set() =~= other_view.nodes.dom());
            assert(matched@.dom() =~= other_idcs@.take(0).to_set());
        }
        let mut k: usize = 0;
        while k < other_idcs.len()
            invariant
                0 <= k <= other_idcs@.len(),
                strictly_increasing(other_idcs@),
                other_idcs@.len() == other_view.nodes.dom().len(),
                forall|i: usize| other_idcs@.contains(i) <==> other_view.nodes.dom().contains(i),
                before.is_dag(),
                other_view.is_dag(),
                before.nodes.dom().len() + other_view.nodes.dom().len() < index_limit(),
                graph_nodes(self.underlying) == self.payloads@.dom(),
                graph_edges(self.underlying) == before.edges,
                self.payloads@.dom().finite(),
                self.payloads@.dom().len() == before.nodes.dom().len() + k,
                forall|x: usize| #[trigger] self.payloads@.dom().contains(x) ==> x < index_limit(),
                matched@.dom() == other_idcs@.take(k as int).to_set(),
                forall|i: usize|
                    #[trigger] other_payloads@.dom().contains(i) <==> other_view.nodes.dom().contains(i)
                        && !matched@.dom().contains(i),
                forall|i: usize|
                    #[trigger] other_payloads@.dom().contains(i) ==> other_payloads@[i]
                        == other_view.nodes[i],
                fresh_relabel(matched@, matched@.dom(), before.nodes.dom()),
                forall|x: usize|
                    #[trigger] self.payloads@.dom().contains(x) <==> before.nodes.dom().contains(x)
                        || in_image(matched@, x),
                forall|x: usize|
                    #[trigger] before.nodes.dom().contains(x) ==> self.payloads@[x] == before.nodes[x],
                forall|i: usize|
                    #[trigger] matched@.dom().contains(i) ==> self.payloads@[matched@[i]]
                        == other_view.nodes[i],
            decreases other_idcs@.len() - k,
        {
            let other_idx = other_idcs[k];
            proof {
                assert(other_idcs@.contains(other_idx));
                assert(!matched@.dom().contains(other_idx)) by {
                    if matched@.dom().contains(other_idx) {
                        let j = choose|j: int|
                            0 <= j < k && other_idcs@.take(k as int)[j] == other_idx;
                        assert(other_idcs@[j] < other_idcs@[k as int]);
                    }
                }
                let nxt = other_idcs@.take(k + 1);
                let cur = other_idcs@.take(k as int);
                assert(nxt.to_set() =~= cur.to_set().insert(other_idx)) by {
                    assert forall|x: usize| nxt.to_set().contains(x) implies cur.to_set().insert(
                        other_idx,
                    ).contains(x) by {
                        let j = choose|j: int| 0 <= j < nxt.len() && #[trigger] nxt[j] == x;
                        if j < k {
                            assert(cur[j] == x);
                        }
                    }
                    assert forall|x: usize| cur.to_set().insert(other_idx).contains(x) implies nxt.to_set().contains(
                        x,
                    ) by {
                        if x == other_idx {
                            assert(nxt[k as int] == x);
                        } else {
                            let j = choose|j: int| 0 <= j < cur.len() && #[trigger] cur[j] == x;
                            assert(nxt[j] == x);
                        }
                    }
                }
                assert(other_payloads@.dom().contains(other_idx));
            }
            let ghost m0 = matched@;
            let ghost p0 = self.payloads@;
            let new_idx = graph_add_node(&mut self.underlying);
            let taken = other_payloads.remove(&other_idx);
            match taken {
                Some(data) => {
                    self.payloads.insert(new_idx, data);
                },
                None => {},
            }
            matched.insert(other_idx, new_idx);
            proof {
                assert(!p0.dom().contains(new_idx));
                assert forall|x: usize| in_image(matched@, x) <==> in_image(m0, x) || x == new_idx by {
                    if in_image(matched@, x) {
                        let i = choose|i: usize| matched@.dom().contains(i) && #[trigger] matched@[i] == x;
                        if i != other_idx {
                            assert(m0.dom().contains(i) && m0[i] == x);
                        }
                    }
                    if in_image(m0, x) {
                        let i = choose|i: usize| m0.dom().contains(i) && #[trigger] m0[i] == x;
                        assert(matched@.dom().contains(i) && matched@[i] == x);
                    }
                    if x == new_idx {
                        assert(matched@.dom().contains(other_idx) && matched@[other_idx] == x);
                    }
                }
                assert forall|i: usize, j: usize|
                    matched@.dom().contains(i) && matched@.dom().contains(j) && i != j implies #[trigger] matched@[i]
                    != #[trigger] matched@[j] by {
                    if i != other_idx && j != other_idx {
                        assert(m0[i] != m0[j]);
                    } else if i == other_idx {
                        assert(in_image(m0, m0[j]));
                        assert(p0.dom().contains(m0[j]));
                    } else {
                        assert(in_image(m0, m0[i]));
                        assert(p0.dom().contains(m0[i]));
                    }
                }
                assert(self.payloads@.dom() =~= p0.dom().insert(new_idx));
            }
            k += 1;
        }
        proof {
            assert(other_idcs@.take(k as int) =~= other_idcs@);
            assert(matched@.dom() =~= other_view.nodes.dom()) by {
                assert forall|i: usize| matched@.dom().contains(i) <==> other_view.nodes.dom().contains(i) by {
                    assert(other_idcs@.to_set().contains(i) <==> other_idcs@.contains(i));
                }
            }
        }
        let other_edges = graph_edge_list(&other_graph);
        let ghost mut src: Multiset<(usize, usize)> = Multiset::empty();
        let ghost mut added: Multiset<(usize, usize)> = Multiset::empty();
        let ghost m = matched@;
        proof {
            assert(other_edges@.take(0) =~= Seq::<(usize, usize)>::empty());
            assert(before.edges.add(added) =~= before.edges);
        }
        let mut t: usize = 0;
        while t < other_edges.len()
            invariant
                0 <= t <= other_edges@.len(),
                other_edges@.to_multiset() == other_view.edges,
                other_edges@.len() == other_view.edges.len(),
                src == other_edges@.take(t as int).to_multiset(),
                m == matched@,
                m.dom() == other_view.nodes.dom(),
                fresh_relabel(m, other_view.nodes.dom(), before.nodes.dom()),
                before.is_dag(),
                other_view.is_dag(),
                before.edges.len() + other_view.edges.len() < index_limit(),
                graph_nodes(self.underlying) == self.payloads@.dom(),
                forall|x: usize|
                    #[trigger] self.payloads@.dom().contains(x) <==> before.nodes.dom().contains(x)
                        || in_image(m, x),
                forall|x: usize| #[trigger] self.payloads@.dom().contains(x) ==> x < index_limit(),
                self.payloads@.dom().finite(),
                self.payloads@.dom().len() == before.nodes.dom().len() + other_view.nodes.dom().len(),
                forall|x: usize|
                    #[trigger] before.nodes.dom().contains(x) ==> self.payloads@[x] == before.nodes[x],
                forall|i: usize|
                    #[trigger] m.dom().contains(i) ==> self.payloads@[m[i]] == other_view.nodes[i],
                graph_edges(self.underlying) == before.edges.add(added),
                added.len() == t,
                forall|i: usize, j: usize|
                    other_view.nodes.dom().contains(i) && other_view.nodes.dom().contains(j)
                        ==> #[trigger] added.count((m[i], m[j])) == src.count((i, j)),
                forall|e: (usize, usize)|
                    !(in_image(m, e.0) && in_image(m, e.1)) ==> #[trigger] added.count(e) == 0,
            decreases other_edges@.len() - t,
        {
            let e = other_edges[t];
            proof {
                assert(other_edges@[t as int] == e);
                assert(other_edges@.contains(e));
                vstd::seq_lib::to_multiset_contains(other_edges@, e);
                assert(other_view.edges.count(e) > 0);
            }
            let s2 = *matched.get(&e.0).unwrap();
            let d2 = *matched.get(&e.1).unwrap();
            proof {
                assert(in_image(m, s2));
                assert(in_image(m, d2));
                assert(self.payloads@.dom().contains(s2));
                assert(self.payloads@.dom().contains(d2));
                assert(added.len() < other_view.edges.len());
            }
            graph_add_edge(&mut self.underlying, s2, d2);
            proof {
                assert(other_edges@.take(t + 1) =~= other_edges@.take(t as int).push(e));
                vstd::seq_lib::to_multiset_build(other_edges@.take(t as int), e);
                let new_src = src.insert(e);
                let new_added = added.insert((s2, d2));
                assert forall|i: usize, j: usize|
                    other_view.nodes.dom().contains(i) && other_view.nodes.dom().contains(j) implies #[trigger] new_added.count(
                    (m[i], m[j]),
                ) == new_src.count((i, j)) by {
                    if (m[i], m[j]) == (s2, d2) {
                        assert(i == e.0 && j == e.1) by {
                            if i != e.0 {
                                assert(m[i] != m[e.0]);
                            }
                            if j != e.1 {
                                assert(m[j] != m[e.1]);
                            }
                        }
                    }
                }
                assert(graph_edges(self.underlying) =~= before.edges.add(new_added));
                src = new_src;
                added = new_added;
            }
            t += 1;
        }
        proof {
            assert(other_edges@.take(t as int) =~= other_edges@);
            let after = self@;
            assert forall|i: usize, j: usize|
                other_view.nodes.dom().contains(i) && other_view.nodes.dom().contains(j) implies #[trigger] after.edges.count(
                (m[i], m[j]),
            ) == other_view.edges.count((i, j)) by {
                assert(before.edges.count((m[i], m[j])) == 0) by {
                    if before.edges.count((m[i], m[j])) > 0 {
                        assert(before.nodes.dom().contains(m[i]));
                    }
                }
            }
            assert(self.payloads@.dom().finite()) by {
                assert(self.payloads@.dom() =~= before.nodes.dom().union(m.dom().map(|i: usize| m[i]))) by {
                    assert forall|x: usize| self.payloads@.dom().contains(x) <==> before.nodes.dom().union(m.dom().map(|i: usize| m[i])).contains(x) by {
                        if in_image(m, x) {
                            let i = choose|i: usize| m.dom().contains(i) && #[trigger] m[i] == x;
                            assert(m.dom().map(|i: usize| m[i]).contains(m[i]));
                        }
                    }
                }
            }
            lemma_joined_acyclic(before, other_view, after, m);
        }
        matched
    }

    /// Adds every node and edge of `other`, the nodes of `other` under fresh
    /// indices.
    pub fn coproduct(&mut self, other: Self)
        requires
            old(self).wf(),
            other.wf(),
            old(self)@.nodes.dom().len() + other@.nodes.dom().len() < index_limit(),
            old(self)@.edges.len() + other@.edges.len() < index_limit(),
        ensures
            final(self).wf(),
            exists|m: Map<usize, usize>| old(self)@.is_coproduct(other@, final(self)@, m),
    {
        let matched = self.coproduct_helper(other);
        assert(old(self)@.is_coproduct(other@, self@, matched@));
    }

    /// Puts `other` after `self`: adds all of `other` under fresh indices,
    /// then an edge from every node of `self` that no edge started at to
    /// every node of `other` that no edge ended at.
    pub fn post_compose(&mut self, other: Self)
        requires
            old(self).wf(),
            other.wf(),
            old(self)@.nodes.dom().len() + other@.nodes.dom().len() < index_limit(),
            old(self)@.edges.len() + other@.edges.len() + old(self)@.sinks().len() * other@.sources().len()
                < index_limit(),
        ensures
            final(self).wf(),
            exists|m: Map<usize, usize>| old(self)@.is_post_composition(other@, final(self)@, m),
    {
        let ghost before = self@;
        let ghost other_view = other@;
        let source_other = graph_externals(&other.underlying, true);
        let target_self = graph_externals(&self.underlying, false);
        proof {
            lemma_increasing_len_bound(source_other@, other_view.nodes.dom());
            lemma_increasing_len_bound(target_self@, before.nodes.dom());
            assert forall|i: usize| source_other@.contains(i) <==> other_view.sources().contains(i) by {}
            assert forall|i: usize| target_self@.contains(i) <==> before.sinks().contains(i) by {}
            lemma_increasing_len(source_other@, other_view.sources());
            lemma_increasing_len(target_self@, before.sinks());
            let sl = source_other@.len();
            let tl = target_self@.len();
            assert(tl * sl == sl * tl) by (nonlinear_arith);
        }
        let matched = self.coproduct_helper(other);
        let ghost m = matched@;
        let ghost mid = self@;
        let ghost mut heads: Seq<usize> = Seq::empty();
        let ghost mut br: Multiset<(usize, usize)> = Multiset::empty();
        proof {
            assert(mid.edges.add(br) =~= mid.edges);
        }
        let mut a: usize = 0;
        while a < source_other.len()
            invariant
                0 <= a <= source_other@.len(),
                strictly_increasing(source_other@),
                strictly_increasing(target_self@),
                forall|i: usize|
                    #[trigger] source_other@.contains(i) <==> other_view.nodes.dom().contains(i)
                        && is_external(other_view.edges, i, true),
                forall|i: usize|
                    #[trigger] target_self@.contains(i) <==> before.nodes.dom().contains(i)
                        && is_external(before.edges, i, false),
                before.is_dag(),
                other_view.is_dag(),
                before.edges.len() + other_view.edges.len() + source_other@.len() * target_self@.len()
                    < index_limit(),
                before.is_coproduct(other_view, mid, m),
                m == matched@,
                mid.edges.len() == before.edges.len() + other_view.edges.len(),
                self@.nodes == mid.nodes,
                graph_nodes(self.underlying) == self.payloads@.dom(),
                mid.is_dag(),
                graph_edges(self.underlying) == mid.edges.add(br),
                heads.len() == a,
                forall|k: int| 0 <= k < a ==> #[trigger] heads[k] == m[source_other@[k]],
                br.len() == a * target_self@.len(),
                forall|e: (usize, usize)|
                    #[trigger] br.count(e) == if target_self@.contains(e.0) && heads.contains(e.1) {
                        1nat
                    } else {
                        0nat
                    },
            decreases source_other@.len() - a,
        {
            let s = source_other[a];
            proof {
                assert(source_other@.contains(s));
            }
            let s2 = *matched.get(&s).unwrap();
            proof {
                assert(in_image(m, s2));
                assert(self@.nodes.dom().contains(s2));
                assert(!heads.contains(s2)) by {
                    if heads.contains(s2) {
                        let k = choose|k: int| 0 <= k < heads.len() && heads[k] == s2;
                        assert(source_other@[k] < source_other@[a as int]);
                        assert(source_other@.contains(source_other@[k]));
                        assert(other_view.nodes.dom().contains(source_other@[k]));
                        assert(m[source_other@[k]] != m[s]);
                    }
                }
            }
            let mut b: usize = 0;
            while b < target_self.len()
                invariant
                    0 <= b <= target_self@.len(),
                    0 <= a < source_other@.len(),
                    strictly_increasing(target_self@),
                    forall|i: usize|
                        #[trigger] target_self@.contains(i) <==> before.nodes.dom().contains(i)
                            && is_external(before.edges, i, false),
                    before.is_dag(),
                    before.edges.len() + other_view.edges.len() + source_other@.len() * target_self@.len()
                        < index_limit(),
                    mid.edges.len() == before.edges.len() + other_view.edges.len(),
                    self@.nodes == mid.nodes,
                    mid.is_dag(),
                    graph_nodes(self.underlying) == self.payloads@.dom(),
                    before.nodes_joined(other_view, mid, m),
                    self@.nodes.dom().contains(s2),
                    !heads.contains(s2),
                    graph_edges(self.underlying) == mid.edges.add(br),
                    br.len() == a * target_self@.len() + b,
                    forall|e: (usize, usize)|
                        #[trigger] br.count(e) == (if target_self@.contains(e.0) && heads.contains(e.1) {
                            1nat
                        } else {
                            0nat
                        }) + (if target_self@.take(b as int).contains(e.0) && e.1 == s2 {
                            1nat
                        } else {
                            0nat
                        }),
                decreases target_self@.len() - b,
            {
                let t = target_self[b];
                proof {
                    assert(target_self@.contains(t));
                    assert(self@.nodes.dom().contains(t));
                    let sl = source_other@.len();
                    let tl = target_self@.len();
                    assert(a * tl + b < sl * tl) by (nonlinear_arith)
                        requires
                            a < sl,
                            b < tl,
                    ;
                }
                graph_add_edge(&mut self.underlying, t, s2);
                proof {
                    let new_br = br.insert((t, s2));
                    let cur = target_self@.take(b as int);
                    let nxt = target_self@.take(b + 1);
                    assert(!cur.contains(t)) by {
                        if cur.contains(t) {
                            let k = choose|k: int| 0 <= k < cur.len() && #[trigger] cur[k] == t;
                            assert(target_self@[k] < target_self@[b as int]);
                        }
                    }
                    assert forall|x: usize| #[trigger] nxt.contains(x) <==> cur.contains(x) || x == t by {
                        if nxt.contains(x) {
                            let k = choose|k: int| 0 <= k < nxt.len() && #[trigger] nxt[k] == x;
                            if k < b {
                                assert(cur[k] == x);
                            }
                        }
                        if cur.contains(x) {
                            let k = choose|k: int| 0 <= k < cur.len() && #[trigger] cur[k] == x;
                            assert(nxt[k] == x);
                        }
                        if x == t {
                            assert(nxt[b as int] == x);
                        }
                    }
                    assert(graph_edges(self.underlying) =~= mid.edges.add(new_br));
                    br = new_br;
                }
                b += 1;
            }
            proof {
                let new_heads = heads.push(s2);
                assert(target_self@.take(b as int) =~= target_self@);
                assert forall|e: (usize, usize)|
                    #[trigger] br.count(e) == if target_self@.contains(e.0) && new_heads.contains(e.1) {
                        1nat
                    } else {
                        0nat
                    } by {
                    assert(new_heads.contains(e.1) <==> heads.contains(e.1) || e.1 == s2) by {
                        if new_heads.contains(e.1) {
                            let k = choose|k: int| 0 <= k < new_heads.len() && new_heads[k] == e.1;
                            if k < heads.len() {
                                assert(heads[k] == e.1);
                            }
                        }
                        if heads.contains(e.1) {
                            let k = choose|k: int| 0 <= k < heads.len() && heads[k] == e.1;
                            assert(new_heads[k] == e.1);
                        }
                        if e.1 == s2 {
                            assert(new_heads[heads.len() as int] == e.1);
                        }
                    }
                }
                assert(br.len() == (a + 1) * target_self@.len()) by (nonlinear_arith)
                    requires
                        br.len() == a * target_self@.len() + target_self@.len(),
                ;
                heads = new_heads;
            }
            a += 1;
        }
        proof {
            let after = self@;
            assert forall|x: usize| #[trigger] heads.contains(x) <==> in_image(m, x) && is_external(
                other_view.edges,
                preimage(m, x),
                true,
            ) by {
                if heads.contains(x) {
                    let k = choose|k: int| 0 <= k < heads.len() && heads[k] == x;
                    let s = source_other@[k];
                    assert(source_other@.contains(s));
                    assert(m.dom().contains(s) && m[s] == x);
                    let p = preimage(m, x);
                    assert(m.dom().contains(p) && m[p] == x);
                    assert(p == s) by {
                        if p != s {
                            assert(m[p] != m[s]);
                        }
                    }
                }
                if in_image(m, x) && is_external(other_view.edges, preimage(m, x), true) {
                    let p = preimage(m, x);
                    assert(m.dom().contains(p) && m[p] == x);
                    assert(source_other@.contains(p));
                    let k = choose|k: int| 0 <= k < source_other@.len() && source_other@[k] == p;
                    assert(heads[k] == x);
                }
            }
            assert forall|i: usize, j: usize|
                other_view.nodes.dom().contains(i) && other_view.nodes.dom().contains(j) implies #[trigger] after.edges.count(
                (m[i], m[j]),
            ) == other_view.edges.count((i, j)) by {
                assert(mid.edges.count((m[i], m[j])) == other_view.edges.count((i, j)));
                assert(!target_self@.contains(m[i]));
            }
            assert forall|e: (usize, usize)|
                !(in_image(m, e.0) && in_image(m, e.1)) implies #[trigger] after.edges.count(e)
                == before.edges.count(e) + if before.is_bridge(other_view, m, e) {
                1nat
            } else {
                0nat
            } by {
                assert(mid.edges.count(e) == before.edges.count(e));
            }
            assert(before.is_post_composition(other_view, after, m));
            assert forall|e: (usize, usize)|
                #[trigger] after.edges.count(e) > 0 implies before.edges.count(e) > 0 || (in_image(m, e.0)
                    && in_image(m, e.1) && other_view.edges.count((preimage(m, e.0), preimage(m, e.1))) > 0)
                    || (before.nodes.dom().contains(e.0) && in_image(m, e.1)) by {
                if in_image(m, e.0) && in_image(m, e.1) {
                    let i = preimage(m, e.0);
                    let j = preimage(m, e.1);
                    assert(m.dom().contains(i) && m[i] == e.0);
                    assert(m.dom().contains(j) && m[j] == e.1);
                    assert(after.edges.count((m[i], m[j])) == other_view.edges.count((i, j)));
                }
            }
            lemma_joined_acyclic(before, other_view, after, m);
        }
    }

    /// A graph of the given nodes, with no edge; the nodes get increasing
    /// indices in the order given, so peeling the graph hands the items back
    /// in that order.
    pub fn all_parallel(more_nodes: Vec<NodeData>) -> (d: Self)
        requires
            more_nodes@.len() < index_limit(),
        ensures
            d.wf(),
            DagView::holds_all(d@, more_nodes@),
            d@.front().map_values(|i: usize| d@.nodes[i]) == more_nodes@,
    {
        let n = more_nodes.len();
        let mut g = graph_new();
        let mut k: usize = 0;
        while k < n
            invariant
                0 <= k <= n,
                n < index_limit(),
                graph_nodes(g).finite(),
                graph_nodes(g).len() == k,
                graph_edges(g) == Multiset::<(usize, usize)>::empty(),
                forall|i: usize| graph_nodes(g).contains(i) ==> i < index_limit(),
            decreases n - k,
        {
            let _ = graph_add_node(&mut g);
            k += 1;
        }
        let idx = graph_node_indices(&g);
        let ghost nodes = graph_nodes(g);
        proof {
            lemma_increasing_len(idx@, nodes);
        }
        let ghost items = more_nodes@;
        let mut payloads: HashMap<usize, NodeData> = HashMap::new();
        let mut j: usize = 0;
        for item in it: more_nodes
            invariant
                items == it.seq(),
                j == it.index(),
                j <= items.len(),
                items.len() == n,
                idx@.len() == items.len(),
                strictly_increasing(idx@),
                idx@.no_duplicates(),
                forall|x: usize| #[trigger] payloads@.contains_key(x) <==> idx@.take(j as int).contains(x),
                forall|m: int| 0 <= m < j ==> payloads@[#[trigger] idx@[m]] == items[m],
        {
            let ghost before = payloads@;
            payloads.insert(idx[j], item);
            proof {
                let cur = idx@.take(j as int);
                let nxt = idx@.take(j + 1);
                assert forall|x: usize| #[trigger] payloads@.contains_key(x) <==> nxt.contains(x) by {
                    if nxt.contains(x) {
                        let m = choose|m: int| 0 <= m < nxt.len() && nxt[m] == x;
                        if m < j {
                            assert(cur[m] == x);
                        }
                    }
                    if cur.contains(x) {
                        let m = choose|m: int| 0 <= m < cur.len() && cur[m] == x;
                        assert(nxt[m] == x);
                    }
                    if x == idx@[j as int] {
                        assert(nxt[j as int] == x);
                    }
                }
                assert forall|m: int| 0 <= m < j + 1 implies payloads@[#[trigger] idx@[m]] == items[m] by {
                    if m < j {
                        assert(idx@[m] != idx@[j as int]);
                    }
                }
            }
            j += 1;
        }
        proof {
            assert(idx@.take(j as int) =~= idx@);
            assert(payloads@.dom() =~= nodes);
        }
        let d = MyDAG { underlying: g, payloads };
        proof {
            let rank = Map::new(|x: usize| nodes.contains(x), |x: usize| 0int);
            assert(rank.dom() =~= nodes);
            assert(ranked_by(nodes, d@.edges, rank));
            assert(d@.is_dag());
            assert(DagView::holds_all(d@, items));
            assert forall|i: usize| idx@.contains(i) <==> d@.sources().contains(i) by {
                assert(!has_incoming(d@.edges, i));
            }
            lemma_sorted_indices(idx@, d@.sources());
            assert(d@.front().map_values(|i: usize| d@.nodes[i]) =~= items);
        }
        d
    }

    /// The DAG made of a task graph and the data of its nodes, keyed by node
    /// index: an error when the node indices and the keys differ, or else,
    /// naming a node on a cycle, when the graph has a cycle.
    pub fn try_from_graph(
        underlying: StableGraph<(), (), Directed, u32>,
        payloads: HashMap<usize, NodeData>,
    ) -> (r: Result<Self, DagError>)
        ensures
            r is Err && r->Err_0 is DataMismatch <==> graph_nodes(underlying) != payloads@.dom(),
            r is Ok <==> graph_nodes(underlying) == payloads@.dom() && acyclic(
                graph_nodes(underlying),
                graph_edges(underlying),
            ),
            r matches Ok(d) ==> d.wf() && d@.nodes == payloads@ && d@.edges == graph_edges(underlying),
            r matches Err(DagError::Cycle(node)) ==> graph_nodes(underlying).contains(node) && on_cycle(
                graph_edges(underlying),
                node,
            ),
    {
        let idces = graph_node_indices(&underlying);
        let ghost nodes = graph_nodes(underlying);
        proof {
            lemma_increasing_len_bound(idces@, idces@.to_set());
        }
        let mut k: usize = 0;
        while k < idces.len()
            invariant
                0 <= k <= idces@.len(),
                nodes == graph_nodes(underlying),
                forall|i: usize| idces@.contains(i) <==> nodes.contains(i),
                forall|j: int| 0 <= j < k ==> payloads@.contains_key(#[trigger] idces@[j]),
            decreases idces@.len() - k,
        {
            if !payloads.contains_key(&idces[k]) {
                proof {
                    assert(nodes.contains(idces@[k as int]));
                    assert(!payloads@.dom().contains(idces@[k as int]));
                }
                return Err(DagError::DataMismatch);
            }
            k += 1;
        }
        proof {
            assert(idces@.no_duplicates()) by {
                assert forall|a: int, b: int| 0 <= a < idces@.len() && 0 <= b < idces@.len() && a != b implies idces@[a] != idces@[b] by {
                    if a < b {
                        assert(idces@[a] < idces@[b]);
                    } else {
                        assert(idces@[b] < idces@[a]);
                    }
                }
            }
            idces@.unique_seq_to_set();
            assert(idces@.to_set() =~= nodes);
            assert(nodes.subset_of(payloads@.dom())) by {
                assert forall|x: usize| nodes.contains(x) implies payloads@.dom().contains(x) by {
                    assert(idces@.contains(x));
                    let j = choose|j: int| 0 <= j < idces@.len() && idces@[j] == x;
                    assert(payloads@.contains_key(idces@[j]));
                }
            }
        }
        if payloads.len() != idces.len() {
            return Err(DagError::DataMismatch);
        }
        proof {
            vstd::set_lib::lemma_subset_equality(nodes, payloads@.dom());
        }
        match graph_toposort(&underlying) {
            Ok(order) => {
                proof {
                    let nodes = graph_nodes(underlying);
                    let edges = graph_edges(underlying);
                    let rank = Map::new(|x: usize| nodes.contains(x), |x: usize| order@.index_of(x));
                    assert forall|e: (usize, usize)| #[trigger] edges.count(e) > 0 implies rank[e.0] < rank[e.1] by {
                        let j = order@.index_of(e.0);
                        let k = order@.index_of(e.1);
                        assert(order@.contains(e.0));
                        assert(order@.contains(e.1));
                        assert(order@[j] == e.0 && order@[k] == e.1);
                        assert(edges.count((order@[j], order@[k])) > 0);
                    }
                    assert(rank.dom() =~= nodes);
                    assert(ranked_by(nodes, edges, rank));
                    assert forall|i: usize| nodes.contains(i) implies i < index_limit() by {
                        assert(order@.contains(i));
                    }
                    assert(nodes.finite()) by {
                        assert(order@.to_set() =~= nodes);
                    }
                }
                Ok(MyDAG { underlying, payloads })
            },
            Err(node) => {
                proof {
                    lemma_cycle_not_acyclic(graph_nodes(underlying), graph_edges(underlying), node);
                }
                Err(DagError::Cycle(node))
            },
        }
    }

    /// The number of nodes.
    pub fn node_count(&self) -> (n: usize)
        requires
            self.wf(),
        ensures
            n == self@.nodes.dom().len(),
    {
        graph_node_count(&self.underlying)
    }

    /// The number of edges, parallel edges counted each.
    pub fn edge_count(&self) -> (n: usize)
        ensures
            n == self@.edges.len(),
    {
        graph_edge_count(&self.underlying)
    }

    /// The number of nodes that no edge ends at.
    pub fn source_count(&self) -> (n: usize)
        requires
            self.wf(),
        ensures
            n == self@.sources().len(),
    {
        let v = graph_externals(&self.underlying, true);
        proof {
            assert forall|i: usize| v@.contains(i) <==> self@.sources().contains(i) by {}
            lemma_increasing_len(v@, self@.sources());
        }
        v.len()
    }

    /// The number of nodes that no edge starts at.
    pub fn sink_count(&self) -> (n: usize)
        requires
            self.wf(),
        ensures
            n == self@.sinks().len(),
    {
        let v = graph_externals(&self.underlying, false);
        proof {
            assert forall|i: usize| v@.contains(i) <==> self@.sinks().contains(i) by {}
            lemma_increasing_len(v@, self@.sinks());
        }
        v.len()
    }

    /// Whether the graph has no node.
    pub fn is_empty(&self) -> (b: bool)
        requires
            self.wf(),
        ensures
            b == (self@.nodes.dom().len() == 0),
    {
        graph_node_count(&self.underlying) == 0
    }
}

} // verus!
