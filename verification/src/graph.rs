//! Directed graphs with `u64` edge weights, stored in `petgraph`.
//!
//! The graph value itself is opaque to the verifier; its contents are named
//! by [`graph_adj`], the adjacency sequence that the trusted wrappers below
//! maintain: `graph_adj(g)[u]` is the sequence of `(target, weight)` pairs
//! of the outgoing edges of node `u`, most recently added first, as
//! `petgraph`'s edge iterator hands them out.

use vstd::prelude::*;

verus! {

/// A directed graph over unit node weights and `u64` edge weights, with
/// `u32` node indices exposed as plain `usize` node ids.
pub type DiGraph = petgraph::graph::Graph<(), u64, petgraph::Directed, u32>;

#[verifier::external_type_specification]
#[verifier::external_body]
#[verifier::reject_recursive_types(N)]
#[verifier::reject_recursive_types(E)]
#[verifier::reject_recursive_types(Ty)]
#[verifier::reject_recursive_types(Ix)]
pub struct ExGraph<N, E, Ty, Ix>(petgraph::graph::Graph<N, E, Ty, Ix>);

#[verifier::external_type_specification]
#[verifier::external_body]
pub struct ExDirected(petgraph::Directed);

/// The adjacency lists held by a graph value: for each node, its outgoing
/// `(target, weight)` edges in the order `petgraph::graph::Graph::edges`
/// enumerates them (reverse order of addition).
pub uninterp spec fn graph_adj(g: DiGraph) -> Seq<Seq<(usize, u64)>>;

/// Total number of edges across all adjacency lists.
pub open spec fn total_edges(adj: Seq<Seq<(usize, u64)>>) -> int
    decreases adj.len(),
{
    if adj.len() == 0 {
        0
    } else {
        total_edges(adj.drop_last()) + adj.last().len()
    }
}

pub proof fn lemma_total_edges_push(adj: Seq<Seq<(usize, u64)>>, row: Seq<(usize, u64)>)
    ensures
        total_edges(adj.push(row)) == total_edges(adj) + row.len(),
{
    assert(adj.push(row).drop_last() =~= adj);
    assert(adj.push(row).last() == row);
}

pub proof fn lemma_total_edges_update(adj: Seq<Seq<(usize, u64)>>, a: int, e: (usize, u64))
    requires
        0 <= a < adj.len(),
    ensures
        total_edges(adj.update(a, seq![e] + adj[a])) == total_edges(adj) + 1,
    decreases adj.len(),
{
    let upd = adj.update(a, seq![e] + adj[a]);
    if a == adj.len() - 1 {
        assert(upd.drop_last() =~= adj.drop_last());
        assert(upd.last() == seq![e] + adj[a]);
        assert((seq![e] + adj[a]).len() == adj[a].len() + 1);
        assert(adj.last() == adj[a]);
    } else {
        assert(upd.drop_last() =~= adj.drop_last().update(a, seq![e] + adj.drop_last()[a]));
        lemma_total_edges_update(adj.drop_last(), a, e);
        assert(upd.last() == adj.last());
    }
}

/// Relies on `petgraph::graph::Graph::new`: an empty graph.
#[verifier::external_body]
pub fn graph_new() -> (g: DiGraph)
    ensures
        graph_adj(g) == Seq::<Seq<(usize, u64)>>::empty(),
{
    petgraph::graph::Graph::new()
}

/// Relies on `petgraph::graph::Graph::node_count`: the number of nodes.
#[verifier::external_body]
pub fn graph_node_count(g: &DiGraph) -> (n: usize)
    ensures
        n == graph_adj(*g).len(),
{
    g.node_count()
}

/// Relies on `petgraph::graph::Graph::add_node`: appends a node, with no
/// edges yet, and returns its index.  The node-count bound keeps the call
/// away from the `u32` index limit, where `add_node` panics.
#[verifier::external_body]
pub fn graph_add_node(g: &mut DiGraph) -> (r: usize)
    requires
        graph_adj(*old(g)).len() < 0xFFFF_FFFF,
    ensures
        graph_adj(*final(g)) == graph_adj(*old(g)).push(Seq::<(usize, u64)>::empty()),
        r == graph_adj(*old(g)).len(),
{
    g.add_node(()).index()
}

/// Relies on `petgraph::graph::Graph::add_edge`: prepends an edge from `a`
/// to `b` to `a`'s adjacency (edge iteration is most-recent-first).  The
/// bounds keep the call away from the panics on unknown nodes and on the
/// `u32` edge-index limit.
#[verifier::external_body]
pub fn graph_add_edge(g: &mut DiGraph, a: usize, b: usize, w: u64)
    requires
        a < graph_adj(*old(g)).len(),
        b < graph_adj(*old(g)).len(),
        total_edges(graph_adj(*old(g))) < 0xFFFF_FFFF,
    ensures
        graph_adj(*final(g)) == graph_adj(*old(g)).update(
            a as int,
            seq![(b, w)] + graph_adj(*old(g))[a as int],
        ),
{
    g.add_edge(
        petgraph::graph::NodeIndex::new(a),
        petgraph::graph::NodeIndex::new(b),
        w,
    );
}

/// Relies on `petgraph::graph::Graph::edges`: the outgoing edges of `u` as
/// `(target, weight)` pairs, in the adjacency order named by [`graph_adj`].
/// Every target is a valid node index of the graph.
#[verifier::external_body]
pub fn graph_neighbors(g: &DiGraph, u: usize) -> (r: Vec<(usize, u64)>)
    requires
        u < graph_adj(*g).len(),
    ensures
        r@ == graph_adj(*g)[u as int],
        forall|k: int| 0 <= k < r@.len() ==> (#[trigger] r@[k]).0 < graph_adj(*g).len(),
{
    let mut out = Vec::new();
    for e in g.edges(petgraph::graph::NodeIndex::new(u)) {
        out.push((petgraph::visit::EdgeRef::target(&e).index(), *e.weight()));
    }
    out
}

/// Relies on `petgraph::graph::Graph::reverse`: flips the direction of every
/// edge, keeping the node set.  An edge with some weight runs from `a` to
/// `b` afterwards exactly when one with that weight ran from `b` to `a`
/// before.
#[verifier::external_body]
pub fn graph_reverse(g: &mut DiGraph)
    ensures
        graph_adj(*final(g)).len() == graph_adj(*old(g)).len(),
        forall|a: int, b: usize, w: u64|
            0 <= a < graph_adj(*old(g)).len() && b < graph_adj(*old(g)).len() ==> (graph_adj(
                *final(g),
            )[a].contains((b, w)) <==> graph_adj(*old(g))[b as int].contains((a as usize, w))),
        forall|a: int, k: int|
            0 <= a < graph_adj(*final(g)).len() && 0 <= k < graph_adj(*final(g))[a].len() ==> (
            #[trigger] graph_adj(*final(g))[a][k]).0 < graph_adj(*final(g)).len(),
{
    g.reverse();
}

} // verus!
