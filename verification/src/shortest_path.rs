//! Single-source shortest distances over the graphs of [`crate::graph`].
//!
//! Two variants: plain breadth-first search, counting edges, for graphs
//! whose every edge costs one step; and Dijkstra-style relaxation over the
//! deduplicating priority queue of [`crate::priority_queue`] for
//! non-negative integer weights.  Both return a map holding exactly the
//! reachable nodes, each at its least distance; an absent node is
//! unreachable.

use vstd::prelude::*;

verus! {

use crate::graph::{DiGraph, graph_adj, graph_neighbors, graph_node_count};
use crate::priority_queue::PriorityQueue;
use std::collections::HashMap;

broadcast use vstd::std_specs::hash::group_hash_axioms, vstd::set::group_set_axioms;

/// `nodes` with `weights` form a walk through the adjacency `adj`: each
/// consecutive pair of nodes is joined by an edge of the matching weight.
pub open spec fn is_walk(adj: Seq<Seq<(usize, u64)>>, nodes: Seq<usize>, weights: Seq<u64>) -> bool {
    &&& nodes.len() == weights.len() + 1
    &&& forall|i: int| 0 <= i < nodes.len() ==> (#[trigger] nodes[i]) < adj.len()
    &&& forall|i: int|
        0 <= i < weights.len() ==> adj[nodes[i] as int].contains((nodes[i + 1], #[trigger] weights[i]))
}

/// The accumulated cost of a walk: the sum of its edge weights.
pub open spec fn walk_cost(weights: Seq<u64>) -> int
    decreases weights.len(),
{
    if weights.len() == 0 {
        0
    } else {
        walk_cost(weights.drop_last()) + weights.last()
    }
}

/// Some walk from `from` to `to` accumulates exactly `cost`.
pub open spec fn connects(adj: Seq<Seq<(usize, u64)>>, from: usize, to: usize, cost: int) -> bool {
    exists|nodes: Seq<usize>, weights: Seq<u64>|
        is_walk(adj, nodes, weights) && nodes.first() == from && nodes.last() == to && walk_cost(
            weights,
        ) == cost
}

/// Some walk from `from` to `to` crosses exactly `hops` edges.
pub open spec fn connects_hops(
    adj: Seq<Seq<(usize, u64)>>,
    from: usize,
    to: usize,
    hops: int,
) -> bool {
    exists|nodes: Seq<usize>, weights: Seq<u64>|
        is_walk(adj, nodes, weights) && nodes.first() == from && nodes.last() == to
            && weights.len() == hops
}

/// Every edge out of a node of the map leads to a node of the map.
pub open spec fn neighbor_closed(adj: Seq<Seq<(usize, u64)>>, dist: Map<usize, u64>) -> bool {
    forall|u: usize, k: int|
        dist.contains_key(u) && u < adj.len() && 0 <= k < adj[u as int].len()
            ==> dist.contains_key((#[trigger] adj[u as int][k]).0)
}

/// Every edge out of a node of the map leads to a node of the map, at a
/// distance at most one hop more.  Together with a source at zero this
/// pins every entry to the least hop count (see [`lemma_hops_minimal`]).
pub open spec fn hops_relaxed(adj: Seq<Seq<(usize, u64)>>, dist: Map<usize, u64>) -> bool {
    forall|u: usize, k: int|
        dist.contains_key(u) && u < adj.len() && 0 <= k < adj[u as int].len() ==> {
            let v = (#[trigger] adj[u as int][k]).0;
            dist.contains_key(v) && dist[v] <= dist[u] + 1
        }
}

/// Every edge out of a node of the map is either relaxed, that is cannot
/// improve on the distance recorded for its target, or has a source
/// distance too large for the sum to fit in a `u64`.
pub open spec fn relaxed(adj: Seq<Seq<(usize, u64)>>, dist: Map<usize, u64>) -> bool {
    forall|u: usize, k: int|
        dist.contains_key(u) && u < adj.len() && 0 <= k < adj[u as int].len() ==> {
            let v = (#[trigger] adj[u as int][k]).0;
            let w = adj[u as int][k].1;
            ||| dist[u] + w >= u64::MAX
            ||| (dist.contains_key(v) && dist[v] <= dist[u] + w)
        }
}

proof fn lemma_walk_self(adj: Seq<Seq<(usize, u64)>>, v: usize)
    requires
        v < adj.len(),
    ensures
        connects(adj, v, v, 0),
        connects_hops(adj, v, v, 0),
{
    let nodes = seq![v];
    let weights = Seq::<u64>::empty();
    assert(is_walk(adj, nodes, weights));
    assert(walk_cost(weights) == 0);
}

proof fn lemma_walk_step(
    adj: Seq<Seq<(usize, u64)>>,
    from: usize,
    u: usize,
    cost: int,
    v: usize,
    w: u64,
)
    requires
        connects(adj, from, u, cost),
        v < adj.len(),
        u < adj.len(),
        adj[u as int].contains((v, w)),
    ensures
        connects(adj, from, v, cost + w),
{
    let (nodes, weights) = choose|nodes: Seq<usize>, weights: Seq<u64>|
        is_walk(adj, nodes, weights) && nodes.first() == from && nodes.last() == u && walk_cost(
            weights,
        ) == cost;
    let nodes2 = nodes.push(v);
    let weights2 = weights.push(w);
    assert(weights2.drop_last() =~= weights);
    assert forall|i: int| 0 <= i < weights2.len() implies adj[nodes2[i] as int].contains(
        (nodes2[i + 1], #[trigger] weights2[i]),
    ) by {
        if i < weights.len() {
            assert(nodes2[i] == nodes[i] && nodes2[i + 1] == nodes[i + 1] && weights2[i]
                == weights[i]);
        } else {
            assert(nodes2[i] == nodes.last() && nodes2[i + 1] == v && weights2[i] == w);
        }
    }
    assert(is_walk(adj, nodes2, weights2));
    assert(nodes2.first() == from && nodes2.last() == v);
    assert(walk_cost(weights2) == cost + w);
}

proof fn lemma_hops_step(adj: Seq<Seq<(usize, u64)>>, from: usize, u: usize, hops: int, v: usize, w: u64)
    requires
        connects_hops(adj, from, u, hops),
        v < adj.len(),
        u < adj.len(),
        adj[u as int].contains((v, w)),
    ensures
        connects_hops(adj, from, v, hops + 1),
{
    let (nodes, weights) = choose|nodes: Seq<usize>, weights: Seq<u64>|
        is_walk(adj, nodes, weights) && nodes.first() == from && nodes.last() == u
            && weights.len() == hops;
    let nodes2 = nodes.push(v);
    let weights2 = weights.push(w);
    assert forall|i: int| 0 <= i < weights2.len() implies adj[nodes2[i] as int].contains(
        (nodes2[i + 1], #[trigger] weights2[i]),
    ) by {
        if i < weights.len() {
            assert(nodes2[i] == nodes[i] && nodes2[i + 1] == nodes[i + 1] && weights2[i]
                == weights[i]);
        } else {
            assert(nodes2[i] == nodes.last() && nodes2[i + 1] == v && weights2[i] == w);
        }
    }
    assert(is_walk(adj, nodes2, weights2));
    assert(nodes2.first() == from && nodes2.last() == v);
}

/// Law: in a map that records `0` for its source and reaches every edge
/// target at no more than one hop past its source, every node an actual
/// walk reaches from the source is present, at a distance no larger than
/// that walk's hop count.  With [`bfs`]'s contract, which also says each
/// recorded distance is the hop count of some actual walk, this pins every
/// recorded distance down to the fewest hops over all walks.
pub proof fn lemma_hops_minimal(
    adj: Seq<Seq<(usize, u64)>>,
    dist: Map<usize, u64>,
    nodes: Seq<usize>,
    weights: Seq<u64>,
)
    requires
        hops_relaxed(adj, dist),
        is_walk(adj, nodes, weights),
        dist.contains_key(nodes.first()),
        dist[nodes.first()] == 0,
    ensures
        dist.contains_key(nodes.last()),
        dist[nodes.last()] <= weights.len(),
    decreases nodes.len(),
{
    if nodes.len() > 1 {
        let prefix_nodes = nodes.drop_last();
        let prefix_weights = weights.drop_last();
        assert forall|i: int| 0 <= i < prefix_weights.len() implies adj[prefix_nodes[i] as int]
            .contains((prefix_nodes[i + 1], #[trigger] prefix_weights[i])) by {
            assert(prefix_nodes[i] == nodes[i] && prefix_nodes[i + 1] == nodes[i + 1]
                && prefix_weights[i] == weights[i]);
        }
        assert(is_walk(adj, prefix_nodes, prefix_weights));
        assert(prefix_nodes.first() == nodes.first());
        lemma_hops_minimal(adj, dist, prefix_nodes, prefix_weights);
        let u = prefix_nodes.last();
        let v = nodes.last();
        let w = weights.last();
        assert(adj[u as int].contains((v, w))) by {
            assert(nodes[nodes.len() - 2] == u && nodes[nodes.len() - 1] == v);
            assert(adj[nodes[weights.len() - 1] as int].contains(
                (nodes[weights.len() as int], weights[weights.len() - 1]),
            ));
        }
        let k = choose|k: int| 0 <= k < adj[u as int].len() && adj[u as int][k] == (v, w);
        assert((#[trigger] adj[u as int][k]).0 == v);
    }
}

/// Whether `u` still sits in the pending part of the worklist.
spec fn in_queue(q: Seq<usize>, head: int, u: usize) -> bool {
    exists|i: int| head <= i < q.len() && q[i] == u
}

/// The recorded distance of a reached node, as a plain integer.
spec fn dval(dist: Seq<Option<u64>>, x: usize) -> int {
    dist[x as int].unwrap() as int
}

/// Uniform-cost breadth-first search: the fewest edges crossed from
/// `start` to every reachable node.  A node is in the result exactly when
/// a walk from `start` reaches it; each recorded value is the hop count of
/// an actual walk, every edge target sits at most one hop past its source
/// (`hops_relaxed`), and no walk from `start` beats a recorded value — so
/// each value is the minimum.
pub fn bfs(graph: &DiGraph, start: usize) -> (dist: HashMap<usize, u64>)
    requires
        start < graph_adj(*graph).len(),
    ensures
        dist@.contains_key(start) && dist@[start] == 0,
        forall|v: usize| #[trigger] dist@.contains_key(v) ==> v < graph_adj(*graph).len(),
        forall|v: usize| #[trigger]
            dist@.contains_key(v) ==> connects_hops(graph_adj(*graph), start, v, dist@[v] as int),
        forall|v: usize| #[trigger] dist@.contains_key(v) ==> dist@[v] < graph_adj(*graph).len(),
        neighbor_closed(graph_adj(*graph), dist@),
        hops_relaxed(graph_adj(*graph), dist@),
        forall|nodes: Seq<usize>, weights: Seq<u64>|
            is_walk(graph_adj(*graph), nodes, weights) && nodes.first() == start
                ==> dist@.contains_key(nodes.last()) && dist@[nodes.last()] <= weights.len(),
{
    let ghost adj = graph_adj(*graph);
    let n = graph_node_count(graph);
    let mut dist_v: Vec<Option<u64>> = Vec::new();
    while dist_v.len() < n
        invariant
            dist_v@.len() <= n,
            forall|i: int| 0 <= i < dist_v@.len() ==> dist_v@[i] is None,
        decreases n - dist_v@.len(),
    {
        dist_v.push(None);
    }
    dist_v[start] = Some(0);
    let mut queue: Vec<usize> = Vec::new();
    queue.push(start);
    let mut head: usize = 0;
    let ghost mut discovered: Set<int> = set![start as int];
    proof {
        lemma_walk_self(adj, start);
        assert(discovered =~= Set::empty().insert(start as int));
        assert(in_queue(queue@, 0, start)) by {
            assert(queue@[0] == start);
        }
    }
    loop
        invariant
            adj == graph_adj(*graph),
            n == adj.len(),
            start < n,
            dist_v@.len() == n,
            head <= queue@.len(),
            dist_v@[start as int] == Some(0u64),
            forall|i: int|
                0 <= i < queue@.len() ==> (#[trigger] queue@[i]) < n
                    && dist_v@[queue@[i] as int] is Some,
            discovered.finite(),
            discovered.subset_of(vstd::set_lib::set_int_range(0, n as int)),
            discovered.len() <= n,
            forall|v: int| 0 <= v < n ==> (dist_v@[v] is Some <==> discovered.contains(v)),
            forall|v: int|
                0 <= v < n && dist_v@[v] is Some ==> (#[trigger] dist_v@[v]).unwrap()
                    < discovered.len(),
            forall|v: int|
                0 <= v < n && dist_v@[v] is Some ==> connects_hops(
                    adj,
                    start,
                    v as usize,
                    (#[trigger] dist_v@[v]).unwrap() as int,
                ),
            forall|i: int, j: int|
                head <= i <= j < queue@.len() ==> dval(dist_v@, #[trigger] queue@[i]) <= dval(
                    dist_v@,
                    #[trigger] queue@[j],
                ),
            head < queue@.len() ==> dval(dist_v@, queue@[queue@.len() - 1]) <= dval(
                dist_v@,
                queue@[head as int],
            ) + 1,
            forall|u: usize|
                u < n && dist_v@[u as int] is Some && !in_queue(queue@, head as int, u) && head
                    < queue@.len() ==> dval(dist_v@, #[trigger] queue@[head as int]) >= dval(
                    dist_v@,
                    u,
                ),
            forall|u: usize, k: int|
                u < n && dist_v@[u as int] is Some && !in_queue(queue@, head as int, u) && 0 <= k
                    < adj[u as int].len() ==> (#[trigger] adj[u as int][k]).0 < n
                    && dist_v@[adj[u as int][k].0 as int] is Some && dval(
                    dist_v@,
                    adj[u as int][k].0,
                ) <= dval(dist_v@, u) + 1,
        ensures
            head >= queue@.len(),
        decreases n - discovered.len(), queue@.len() - head,
    {
        if head >= queue.len() {
            break;
        }
        let ghost queue0 = queue@;
        let ghost head0 = head as int;
        let ghost discovered0 = discovered;
        let u = queue[head];
        head = head + 1;
        let du = dist_v[u].unwrap();
        proof {
            assert(du == dval(dist_v@, u));
            assert(queue@[head0] == u);
            assert forall|u2: usize|
                u2 != u && !in_queue(queue@, head as int, u2) implies !in_queue(
                queue@,
                head0,
                u2,
            ) by {
                if in_queue(queue@, head0, u2) {
                    let i = choose|i: int| head0 <= i < queue@.len() && queue@[i] == u2;
                    assert(i > head0);
                    assert(in_queue(queue@, head as int, u2)) by {
                        assert(queue@[i] == u2);
                    }
                }
            }
            if head < queue@.len() {
                assert(dval(dist_v@, queue@[head0]) <= dval(dist_v@, queue@[head as int]));
            }
        }
        let nbrs = graph_neighbors(graph, u);
        let mut j: usize = 0;
        while j < nbrs.len()
            invariant
                adj == graph_adj(*graph),
                n == adj.len(),
                start < n,
                u < n,
                dist_v@.len() == n,
                head <= queue@.len(),
                dist_v@[start as int] == Some(0u64),
                nbrs@ == adj[u as int],
                j <= nbrs@.len(),
                forall|k: int| 0 <= k < nbrs@.len() ==> (#[trigger] nbrs@[k]).0 < n,
                dist_v@[u as int] == Some(du),
                du < discovered.len(),
                forall|i: int|
                    0 <= i < queue@.len() ==> (#[trigger] queue@[i]) < n
                        && dist_v@[queue@[i] as int] is Some,
                discovered.finite(),
                discovered.subset_of(vstd::set_lib::set_int_range(0, n as int)),
                discovered.len() <= n,
                discovered0.subset_of(discovered),
                discovered0.len() < discovered.len() || (discovered == discovered0 && queue@
                    == queue0 && head == head0 + 1),
                forall|v: int| 0 <= v < n ==> (dist_v@[v] is Some <==> discovered.contains(v)),
                forall|v: int|
                    0 <= v < n && dist_v@[v] is Some ==> (#[trigger] dist_v@[v]).unwrap()
                        < discovered.len(),
                forall|v: int|
                    0 <= v < n && dist_v@[v] is Some ==> connects_hops(
                        adj,
                        start,
                        v as usize,
                        (#[trigger] dist_v@[v]).unwrap() as int,
                    ),
                forall|i: int, j2: int|
                    head <= i <= j2 < queue@.len() ==> dval(dist_v@, #[trigger] queue@[i]) <= dval(
                        dist_v@,
                        #[trigger] queue@[j2],
                    ),
                head < queue@.len() ==> dval(dist_v@, queue@[queue@.len() - 1]) <= du + 1 && du
                    <= dval(dist_v@, queue@[head as int]),
                forall|u2: usize|
                    u2 < n && dist_v@[u2 as int] is Some && !in_queue(queue@, head as int, u2) && u2
                        != u ==> dval(dist_v@, u2) <= du,
                forall|u2: usize, k: int|
                    u2 < n && dist_v@[u2 as int] is Some && !in_queue(queue@, head as int, u2) && u2
                        != u && 0 <= k < adj[u2 as int].len() ==> (#[trigger] adj[u2 as int][k]).0
                        < n && dist_v@[adj[u2 as int][k].0 as int] is Some && dval(
                        dist_v@,
                        adj[u2 as int][k].0,
                    ) <= dval(dist_v@, u2) + 1,
                forall|k: int|
                    0 <= k < j ==> dist_v@[(#[trigger] nbrs@[k]).0 as int] is Some && dval(
                        dist_v@,
                        nbrs@[k].0,
                    ) <= du + 1,
            decreases nbrs@.len() - j,
        {
            let (v, w) = nbrs[j];
            if dist_v[v].is_none() {
                proof {
                    vstd::set_lib::lemma_int_range(0, n as int);
                    vstd::set_lib::lemma_len_subset(
                        discovered,
                        vstd::set_lib::set_int_range(0, n as int),
                    );
                    assert(du < discovered.len());
                    assert(adj[u as int][j as int] == (v, w));
                    assert(adj[u as int].contains((v, w)));
                    lemma_hops_step(adj, start, u, du as int, v, w);
                }
                let ghost dist_pre = dist_v@;
                dist_v[v] = Some(du + 1);
                let ghost queue_pre = queue@;
                queue.push(v);
                proof {
                    discovered = discovered.insert(v as int);
                    assert(discovered.subset_of(vstd::set_lib::set_int_range(0, n as int)));
                    vstd::set_lib::lemma_int_range(0, n as int);
                    vstd::set_lib::lemma_len_subset(
                        discovered,
                        vstd::set_lib::set_int_range(0, n as int),
                    );
                    assert(in_queue(queue@, head as int, v)) by {
                        assert(queue@[queue@.len() - 1] == v);
                    }
                    assert(dist_v@ == dist_pre.update(v as int, Some((du + 1) as u64)));
                    assert(queue@.len() == queue_pre.len() + 1);
                    assert forall|i: int|
                        0 <= i < queue_pre.len() implies #[trigger] queue_pre[i] != v && queue@[i]
                        == queue_pre[i] && dval(dist_v@, queue_pre[i]) == dval(
                        dist_pre,
                        queue_pre[i],
                    ) by {
                        assert(dist_pre[queue_pre[i] as int] is Some);
                    }
                    assert(dval(dist_v@, v) == du + 1);
                    assert forall|i: int, j2: int|
                        head <= i <= j2 < queue@.len() implies dval(
                        dist_v@,
                        #[trigger] queue@[i],
                    ) <= dval(dist_v@, #[trigger] queue@[j2]) by {
                        if j2 < queue@.len() - 1 {
                            assert(dval(dist_pre, queue_pre[i]) <= dval(dist_pre, queue_pre[j2]));
                        } else if i < queue@.len() - 1 {
                            assert(dval(dist_pre, queue_pre[i]) <= dval(
                                dist_pre,
                                queue_pre[queue_pre.len() - 1],
                            ));
                        }
                    }
                    assert forall|u2: usize, k: int|
                        u2 < n && dist_v@[u2 as int] is Some && !in_queue(queue@, head as int, u2)
                            && u2 != u && 0 <= k < adj[u2 as int].len() implies (
                    #[trigger] adj[u2 as int][k]).0 < n && dist_v@[adj[u2 as int][k].0 as int] is Some
                        && dval(dist_v@, adj[u2 as int][k].0) <= dval(dist_v@, u2) + 1 by {
                        assert(u2 != v);
                        assert(!in_queue(queue_pre, head as int, u2)) by {
                            if in_queue(queue_pre, head as int, u2) {
                                let i = choose|i: int|
                                    head <= i < queue_pre.len() && queue_pre[i] == u2;
                                assert(queue@[i] == u2);
                            }
                        }
                        assert(dist_pre[u2 as int] is Some);
                        let t = (adj[u2 as int][k]).0;
                        assert(t < n && dist_pre[t as int] is Some);
                        assert(t != v);
                        assert(dist_v@[t as int] == dist_pre[t as int]);
                        assert(dist_v@[u2 as int] == dist_pre[u2 as int]);
                    }
                    assert forall|u2: usize|
                        u2 < n && dist_v@[u2 as int] is Some && !in_queue(queue@, head as int, u2)
                            && u2 != u implies dval(dist_v@, u2) <= du by {
                        assert(u2 != v);
                        assert(!in_queue(queue_pre, head as int, u2)) by {
                            if in_queue(queue_pre, head as int, u2) {
                                let i = choose|i: int|
                                    head <= i < queue_pre.len() && queue_pre[i] == u2;
                                assert(queue@[i] == u2);
                            }
                        }
                        assert(dist_v@[u2 as int] == dist_pre[u2 as int]);
                    }
                }
            } else {
                proof {
                    assert(dval(dist_v@, v) <= du + 1) by {
                        if in_queue(queue@, head as int, v) {
                            let i = choose|i: int|
                                head <= i < queue@.len() && queue@[i] == v;
                            assert(dval(dist_v@, queue@[i]) <= dval(
                                dist_v@,
                                queue@[queue@.len() - 1],
                            ));
                        } else if v != u {
                            assert(dval(dist_v@, v) <= du);
                        }
                    }
                }
            }
            j = j + 1;
        }
        proof {
            assert forall|u2: usize, k: int|
                u2 < n && dist_v@[u2 as int] is Some && !in_queue(queue@, head as int, u2) && 0 <= k
                    < adj[u2 as int].len() implies (#[trigger] adj[u2 as int][k]).0 < n
                && dist_v@[adj[u2 as int][k].0 as int] is Some && dval(
                dist_v@,
                adj[u2 as int][k].0,
            ) <= dval(dist_v@, u2) + 1 by {
                if u2 == u {
                    assert(nbrs@[k] == adj[u as int][k]);
                    assert(dist_v@[(adj[u as int][k]).0 as int] is Some);
                    assert(dval(dist_v@, nbrs@[k].0) <= du + 1);
                }
            }
            assert forall|u2: usize|
                u2 < n && dist_v@[u2 as int] is Some && !in_queue(queue@, head as int, u2) && head
                    < queue@.len() implies dval(dist_v@, queue@[head as int]) >= dval(
                dist_v@,
                u2,
            ) by {
                if u2 != u {
                    assert(dval(dist_v@, u2) <= du);
                }
            }
        }
    }
    proof {
        assert forall|u2: usize, k: int|
            u2 < n && dist_v@[u2 as int] is Some && 0 <= k
                < adj[u2 as int].len() implies (#[trigger] adj[u2 as int][k]).0 < n
            && dist_v@[adj[u2 as int][k].0 as int] is Some && dval(dist_v@, adj[u2 as int][k].0)
            <= dval(dist_v@, u2) + 1 by {
            assert(!in_queue(queue@, head as int, u2));
        }
    }
    let mut dist: HashMap<usize, u64> = HashMap::new();
    let mut v: usize = 0;
    while v < n
        invariant
            adj == graph_adj(*graph),
            n == adj.len(),
            start < n,
            dist_v@.len() == n,
            v <= n,
            dist_v@[start as int] == Some(0u64),
            forall|v2: int|
                0 <= v2 < n && dist_v@[v2] is Some ==> connects_hops(
                    adj,
                    start,
                    v2 as usize,
                    (#[trigger] dist_v@[v2]).unwrap() as int,
                ),
            forall|v2: int|
                0 <= v2 < n && dist_v@[v2] is Some ==> (#[trigger] dist_v@[v2]).unwrap() < n,
            forall|u: usize, k: int|
                u < n && dist_v@[u as int] is Some && 0 <= k < adj[u as int].len()
                    ==> (#[trigger] adj[u as int][k]).0 < n
                    && dist_v@[adj[u as int][k].0 as int] is Some && dval(
                    dist_v@,
                    adj[u as int][k].0,
                ) <= dval(dist_v@, u) + 1,
            forall|x: usize| #[trigger]
                dist@.contains_key(x) ==> x < v && dist_v@[x as int] is Some && dist@[x]
                    == dist_v@[x as int].unwrap(),
            forall|x: int| 0 <= x < v && dist_v@[x] is Some ==> dist@.contains_key(x as usize),
        decreases n - v,
    {
        match dist_v[v] {
            Some(d) => {
                dist.insert(v, d);
            },
            None => {},
        }
        v = v + 1;
    }
    proof {
        assert(hops_relaxed(adj, dist@)) by {
            assert forall|u: usize, k: int|
                dist@.contains_key(u) && u < adj.len() && 0 <= k
                    < adj[u as int].len() implies ({
                let t = (#[trigger] adj[u as int][k]).0;
                dist@.contains_key(t) && dist@[t] <= dist@[u] + 1
            }) by {
                let t = (adj[u as int][k]).0;
                assert(t < n && dist_v@[t as int] is Some && dval(dist_v@, t) <= dval(dist_v@, u)
                    + 1);
            }
        }
        assert forall|nodes: Seq<usize>, weights: Seq<u64>|
            is_walk(adj, nodes, weights) && nodes.first() == start implies dist@.contains_key(
            nodes.last(),
        ) && dist@[nodes.last()] <= weights.len() by {
            lemma_hops_minimal(adj, dist@, nodes, weights);
        }
    }
    dist
}

/// `adj_a` holds exactly the edges of `adj_b`, each turned around.
pub open spec fn flipped(adj_a: Seq<Seq<(usize, u64)>>, adj_b: Seq<Seq<(usize, u64)>>) -> bool {
    &&& adj_a.len() == adj_b.len()
    &&& forall|a: int, b: usize, w: u64|
        0 <= a < adj_a.len() && b < adj_a.len() ==> (#[trigger] adj_a[a].contains((b, w))
            <==> adj_b[b as int].contains((a as usize, w)))
}

pub proof fn lemma_flipped_symmetric(adj_a: Seq<Seq<(usize, u64)>>, adj_b: Seq<Seq<(usize, u64)>>)
    requires
        flipped(adj_a, adj_b),
        adj_a.len() <= usize::MAX,
    ensures
        flipped(adj_b, adj_a),
{
    assert forall|a: int, b: usize, w: u64|
        0 <= a < adj_b.len() && b < adj_b.len() implies (#[trigger] adj_b[a].contains((b, w))
        <==> adj_a[b as int].contains((a as usize, w))) by {
        let ai: usize = a as usize;
        assert(ai as int == a);
        assert(adj_a[b as int].contains((ai, w)) <==> adj_b[ai as int].contains(
            ((b as int) as usize, w),
        ));
        assert((b as int) as usize == b);
    }
}

proof fn lemma_walk_cost_prepend(x: u64, s: Seq<u64>)
    ensures
        walk_cost(seq![x] + s) == x + walk_cost(s),
    decreases s.len(),
{
    if s.len() == 0 {
        assert(seq![x] + s =~= seq![x]);
        assert((seq![x] + s).last() == x);
        assert((seq![x] + s).drop_last() =~= Seq::<u64>::empty());
        assert(walk_cost((seq![x] + s).drop_last()) == 0);
    } else {
        assert((seq![x] + s).drop_last() =~= seq![x] + s.drop_last());
        assert((seq![x] + s).last() == s.last());
        lemma_walk_cost_prepend(x, s.drop_last());
    }
}

proof fn lemma_walk_cost_reverse(s: Seq<u64>)
    ensures
        walk_cost(s.reverse()) == walk_cost(s),
    decreases s.len(),
{
    if s.len() > 0 {
        assert(s.reverse() =~= seq![s.last()] + s.drop_last().reverse());
        lemma_walk_cost_prepend(s.last(), s.drop_last().reverse());
        lemma_walk_cost_reverse(s.drop_last());
    }
}

/// Law: turning every edge of a graph around turns every walk around: the
/// same nodes crossed backward, the same weights, the same cost.  This is
/// what justifies searching a reversed graph backward from a target to
/// read off distances-to-target.
pub proof fn lemma_flipped_walk(
    adj_a: Seq<Seq<(usize, u64)>>,
    adj_b: Seq<Seq<(usize, u64)>>,
    nodes: Seq<usize>,
    weights: Seq<u64>,
)
    requires
        flipped(adj_a, adj_b),
        is_walk(adj_a, nodes, weights),
    ensures
        is_walk(adj_b, nodes.reverse(), weights.reverse()),
        nodes.reverse().first() == nodes.last(),
        nodes.reverse().last() == nodes.first(),
        walk_cost(weights.reverse()) == walk_cost(weights),
        weights.reverse().len() == weights.len(),
{
    let nr = nodes.reverse();
    let wr = weights.reverse();
    lemma_walk_cost_reverse(weights);
    assert forall|i: int| 0 <= i < wr.len() implies adj_b[nr[i] as int].contains(
        (nr[i + 1], #[trigger] wr[i]),
    ) by {
        let k = weights.len() - 1 - i;
        assert(nr[i] == nodes[k + 1] && nr[i + 1] == nodes[k] && wr[i] == weights[k]);
        assert(adj_a[nodes[k] as int].contains((nodes[k + 1], weights[k])));
    }
}

/// The measure a relaxation step shrinks: an undiscovered node weighs
/// `u64::MAX`, a discovered one its current tentative distance.
spec fn opt_weight(o: Option<u64>) -> int {
    match o {
        None => u64::MAX as int,
        Some(d) => d as int,
    }
}

/// The total weight of the tentative distances.
spec fn opt_sum(s: Seq<Option<u64>>) -> int
    decreases s.len(),
{
    if s.len() == 0 {
        0
    } else {
        opt_sum(s.drop_last()) + opt_weight(s.last())
    }
}

proof fn lemma_opt_sum_nonneg(s: Seq<Option<u64>>)
    ensures
        opt_sum(s) >= 0,
    decreases s.len(),
{
    if s.len() > 0 {
        lemma_opt_sum_nonneg(s.drop_last());
    }
}

proof fn lemma_opt_sum_update(s: Seq<Option<u64>>, i: int, v: Option<u64>)
    requires
        0 <= i < s.len(),
    ensures
        opt_sum(s.update(i, v)) == opt_sum(s) - opt_weight(s[i]) + opt_weight(v),
    decreases s.len(),
{
    if i == s.len() - 1 {
        assert(s.update(i, v).drop_last() =~= s.drop_last());
        assert(s.update(i, v).last() == v);
    } else {
        assert(s.update(i, v).drop_last() =~= s.drop_last().update(i, v));
        assert(s.update(i, v).last() == s.last());
        lemma_opt_sum_update(s.drop_last(), i, v);
        assert(s.drop_last()[i] == s[i]);
    }
}

/// Dijkstra-style single-source distances over non-negative `u64` weights,
/// using the deduplicating queue of [`crate::priority_queue`]: a pop hands
/// out a queued node of minimal tentative distance; when a relaxation later
/// improves on a distance, the improved node is queued again (its queued
/// priority is never updated in place), so the map converges to a state in
/// which no edge can improve any entry.  A node is in the result exactly
/// when the search reached it; each recorded value is the cost of an actual
/// walk from `start`, and no edge of the graph can improve a recorded
/// value, which makes every recorded value minimal (see
/// [`lemma_relaxed_is_minimal`]).
pub fn dijkstra(graph: &DiGraph, start: usize) -> (dist: HashMap<usize, u64>)
    requires
        start < graph_adj(*graph).len(),
    ensures
        dist@.contains_key(start) && dist@[start] == 0,
        forall|v: usize| #[trigger] dist@.contains_key(v) ==> v < graph_adj(*graph).len(),
        forall|v: usize| #[trigger]
            dist@.contains_key(v) ==> connects(graph_adj(*graph), start, v, dist@[v] as int),
        relaxed(graph_adj(*graph), dist@),
{
    let ghost adj = graph_adj(*graph);
    let n = graph_node_count(graph);
    let mut dist_v: Vec<Option<u64>> = Vec::new();
    while dist_v.len() < n
        invariant
            dist_v@.len() <= n,
            forall|i: int| 0 <= i < dist_v@.len() ==> dist_v@[i] is None,
        decreases n - dist_v@.len(),
    {
        dist_v.push(None);
    }
    dist_v[start] = Some(0);
    let mut pq = PriorityQueue::new();
    pq.push(start as u64, 0);
    proof {
        lemma_walk_self(adj, start);
    }
    loop
        invariant
            adj == graph_adj(*graph),
            n == adj.len(),
            start < n,
            dist_v@.len() == n,
            pq.wf(),
            pq@.dom().finite(),
            dist_v@[start as int] == Some(0u64),
            forall|x: u64| #[trigger]
                pq@.contains_key(x) ==> x < n && dist_v@[x as int] is Some,
            forall|v: int|
                0 <= v < n && dist_v@[v] is Some ==> (#[trigger] dist_v@[v]).unwrap() < u64::MAX,
            forall|v: int|
                0 <= v < n && dist_v@[v] is Some ==> connects(
                    adj,
                    start,
                    v as usize,
                    (#[trigger] dist_v@[v]).unwrap() as int,
                ),
            forall|u: usize, k: int|
                u < n && dist_v@[u as int] is Some && !pq@.contains_key(u as u64) && 0 <= k
                    < adj[u as int].len() ==> (#[trigger] adj[u as int][k]).0 < n && (dist_v@[u as int].unwrap()
                    + adj[u as int][k].1 >= u64::MAX || (dist_v@[adj[u as int][k].0 as int] is Some
                    && dist_v@[adj[u as int][k].0 as int].unwrap() <= dist_v@[u as int].unwrap()
                    + adj[u as int][k].1)),
        ensures
            pq@ == Map::<u64, u64>::empty(),
        decreases opt_sum(dist_v@), pq@.dom().len(),
    {
        let ghost sum0 = opt_sum(dist_v@);
        let ghost card0 = pq@.dom().len();
        let ghost pq0 = pq@;
        let popped = pq.pop();
        let item = match popped {
            None => {
                break;
            },
            Some(item) => item,
        };
        proof {
            crate::priority_queue::lemma_pop_card(pq0, item);
        }
        let u = item as usize;
        let du = dist_v[u].unwrap();
        let nbrs = graph_neighbors(graph, u);
        let mut j: usize = 0;
        while j < nbrs.len()
            invariant
                adj == graph_adj(*graph),
                n == adj.len(),
                start < n,
                u < n,
                item == u as u64,
                dist_v@.len() == n,
                pq.wf(),
                pq@.dom().finite(),
                dist_v@[start as int] == Some(0u64),
                nbrs@ == adj[u as int],
                j <= nbrs@.len(),
                forall|k: int| 0 <= k < nbrs@.len() ==> (#[trigger] nbrs@[k]).0 < n,
                dist_v@[u as int] == Some(du),
                du < u64::MAX,
                forall|x: u64| #[trigger]
                    pq@.contains_key(x) ==> x < n && dist_v@[x as int] is Some,
                forall|v: int|
                    0 <= v < n && dist_v@[v] is Some ==> (#[trigger] dist_v@[v]).unwrap()
                        < u64::MAX,
                forall|v: int|
                    0 <= v < n && dist_v@[v] is Some ==> connects(
                        adj,
                        start,
                        v as usize,
                        (#[trigger] dist_v@[v]).unwrap() as int,
                    ),
                opt_sum(dist_v@) < sum0 || (opt_sum(dist_v@) == sum0 && pq@.dom().len() == card0
                    - 1),
                forall|u2: usize, k: int|
                    u2 < n && dist_v@[u2 as int] is Some && !pq@.contains_key(u2 as u64) && u2 != u
                        && 0 <= k < adj[u2 as int].len() ==> (#[trigger] adj[u2 as int][k]).0 < n
                        && (dist_v@[u2 as int].unwrap() + adj[u2 as int][k].1 >= u64::MAX || (
                        dist_v@[adj[u2 as int][k].0 as int] is Some
                        && dist_v@[adj[u2 as int][k].0 as int].unwrap()
                        <= dist_v@[u2 as int].unwrap() + adj[u2 as int][k].1)),
                forall|k: int|
                    0 <= k < j ==> (#[trigger] nbrs@[k]).0 < n && (du + nbrs@[k].1 >= u64::MAX || (
                    dist_v@[nbrs@[k].0 as int] is Some && dist_v@[nbrs@[k].0 as int].unwrap() <= du
                        + nbrs@[k].1)),
            decreases nbrs@.len() - j,
        {
            let (v, w) = nbrs[j];
            if w < u64::MAX - du {
                let alt = du + w;
                let improve = match dist_v[v] {
                    None => true,
                    Some(dv) => alt < dv,
                };
                if improve {
                    proof {
                        assert(adj[u as int][j as int] == (v, w));
                        assert(adj[u as int].contains((v, w)));
                        lemma_walk_step(adj, start, u, du as int, v, w);
                        lemma_opt_sum_update(dist_v@, v as int, Some((du + w) as u64));
                    }
                    let ghost dist_pre = dist_v@;
                    let ghost pq_pre = pq@;
                    dist_v[v] = Some(alt);
                    if !pq.contains(v as u64) {
                        pq.push(v as u64, alt);
                    }
                    proof {
                        assert(pq@.contains_key(v as u64));
                        assert forall|u2: usize, k: int|
                            u2 < n && dist_v@[u2 as int] is Some && !pq@.contains_key(u2 as u64)
                                && u2 != u && 0 <= k < adj[u2 as int].len() implies (
                        #[trigger] adj[u2 as int][k]).0 < n && (dist_v@[u2 as int].unwrap()
                            + adj[u2 as int][k].1 >= u64::MAX || (
                        dist_v@[adj[u2 as int][k].0 as int] is Some
                            && dist_v@[adj[u2 as int][k].0 as int].unwrap()
                            <= dist_v@[u2 as int].unwrap() + adj[u2 as int][k].1)) by {
                            assert(u2 != v);
                            assert(!pq_pre.contains_key(u2 as u64));
                            assert(dist_pre[u2 as int] is Some);
                            let t = (adj[u2 as int][k]).0;
                            assert(t < n);
                            assert(dist_v@[u2 as int] == dist_pre[u2 as int]);
                            if t != v {
                                assert(dist_v@[t as int] == dist_pre[t as int]);
                            }
                        }
                    }
                }
            }
            j = j + 1;
        }
        proof {
            assert forall|u2: usize, k: int|
                u2 < n && dist_v@[u2 as int] is Some && !pq@.contains_key(u2 as u64) && 0 <= k
                    < adj[u2 as int].len() implies (#[trigger] adj[u2 as int][k]).0 < n && (
            dist_v@[u2 as int].unwrap() + adj[u2 as int][k].1 >= u64::MAX || (
            dist_v@[adj[u2 as int][k].0 as int] is Some
                && dist_v@[adj[u2 as int][k].0 as int].unwrap() <= dist_v@[u2 as int].unwrap()
                + adj[u2 as int][k].1)) by {
                if u2 == u {
                    assert(nbrs@[k] == adj[u as int][k]);
                }
            }
            lemma_opt_sum_nonneg(dist_v@);
        }
    }
    let mut dist: HashMap<usize, u64> = HashMap::new();
    let mut v: usize = 0;
    while v < n
        invariant
            adj == graph_adj(*graph),
            n == adj.len(),
            start < n,
            dist_v@.len() == n,
            v <= n,
            dist_v@[start as int] == Some(0u64),
            forall|v2: int|
                0 <= v2 < n && dist_v@[v2] is Some ==> connects(
                    adj,
                    start,
                    v2 as usize,
                    (#[trigger] dist_v@[v2]).unwrap() as int,
                ),
            forall|u: usize, k: int|
                u < n && dist_v@[u as int] is Some && 0 <= k < adj[u as int].len() ==> (
                #[trigger] adj[u as int][k]).0 < n && (dist_v@[u as int].unwrap()
                    + adj[u as int][k].1 >= u64::MAX || (dist_v@[adj[u as int][k].0 as int] is Some
                    && dist_v@[adj[u as int][k].0 as int].unwrap() <= dist_v@[u as int].unwrap()
                    + adj[u as int][k].1)),
            forall|x: usize| #[trigger]
                dist@.contains_key(x) ==> x < v && dist_v@[x as int] is Some && dist@[x]
                    == dist_v@[x as int].unwrap(),
            forall|x: int| 0 <= x < v && dist_v@[x] is Some ==> dist@.contains_key(x as usize),
        decreases n - v,
    {
        match dist_v[v] {
            Some(d) => {
                dist.insert(v, d);
            },
            None => {},
        }
        v = v + 1;
    }
    proof {
        assert forall|u: usize, k: int|
            dist@.contains_key(u) && u < adj.len() && 0 <= k
                < adj[u as int].len() implies ({
            let t = (#[trigger] adj[u as int][k]).0;
            let w = adj[u as int][k].1;
            dist@[u] + w >= u64::MAX || (dist@.contains_key(t) && dist@[t] <= dist@[u] + w)
        }) by {
            let t = (adj[u as int][k]).0;
            assert(t < n && (dist_v@[u as int].unwrap() + adj[u as int][k].1 >= u64::MAX || (
            dist_v@[t as int] is Some && dist_v@[t as int].unwrap() <= dist_v@[u as int].unwrap()
                + adj[u as int][k].1)));
        }
    }
    dist
}

/// Law: in a distance map that records `0` for its source, whose edges are
/// all relaxed, every node reached by a walk whose cost fits in a `u64` is
/// present, with a recorded distance no larger than that walk's cost.  With
/// [`dijkstra`]'s contract, which also says each recorded distance is the
/// cost of some actual walk, this pins every recorded distance down to the
/// minimum over all such walks, and makes every such node present.
pub proof fn lemma_relaxed_is_minimal(
    adj: Seq<Seq<(usize, u64)>>,
    dist: Map<usize, u64>,
    nodes: Seq<usize>,
    weights: Seq<u64>,
)
    requires
        relaxed(adj, dist),
        is_walk(adj, nodes, weights),
        dist.contains_key(nodes.first()),
        dist[nodes.first()] == 0,
        walk_cost(weights) < u64::MAX,
    ensures
        dist.contains_key(nodes.last()),
        dist[nodes.last()] <= walk_cost(weights),
    decreases nodes.len(),
{
    lemma_walk_cost_nonneg(weights);
    if nodes.len() > 1 {
        let prefix_nodes = nodes.drop_last();
        let prefix_weights = weights.drop_last();
        assert forall|i: int| 0 <= i < prefix_weights.len() implies adj[prefix_nodes[i] as int]
            .contains((prefix_nodes[i + 1], #[trigger] prefix_weights[i])) by {
            assert(prefix_nodes[i] == nodes[i] && prefix_nodes[i + 1] == nodes[i + 1]
                && prefix_weights[i] == weights[i]);
        }
        assert(is_walk(adj, prefix_nodes, prefix_weights));
        assert(prefix_nodes.first() == nodes.first());
        assert(walk_cost(weights) == walk_cost(prefix_weights) + weights.last());
        lemma_walk_cost_nonneg(prefix_weights);
        lemma_relaxed_is_minimal(adj, dist, prefix_nodes, prefix_weights);
        let u = prefix_nodes.last();
        let v = nodes.last();
        let w = weights.last();
        assert(adj[u as int].contains((v, w))) by {
            assert(nodes[nodes.len() - 2] == u && nodes[nodes.len() - 1] == v);
            assert(adj[nodes[weights.len() - 1] as int].contains(
                (nodes[weights.len() as int], weights[weights.len() - 1]),
            ));
        }
        let k = choose|k: int| 0 <= k < adj[u as int].len() && adj[u as int][k] == (v, w);
        assert(dist[u] + w < u64::MAX);
        assert((#[trigger] adj[u as int][k]).0 == v && adj[u as int][k].1 == w);
    }
}

proof fn lemma_walk_cost_nonneg(weights: Seq<u64>)
    ensures
        walk_cost(weights) >= 0,
    decreases weights.len(),
{
    if weights.len() > 0 {
        lemma_walk_cost_nonneg(weights.drop_last());
    }
}

/// Law: a map that contains its source and is closed under following edges
/// contains the endpoint of every walk that starts at a node it holds.
/// With [`bfs`]'s contract this says no reachable node is missing from its
/// result.
pub proof fn lemma_closed_reaches_all(
    adj: Seq<Seq<(usize, u64)>>,
    dist: Map<usize, u64>,
    nodes: Seq<usize>,
    weights: Seq<u64>,
)
    requires
        neighbor_closed(adj, dist),
        is_walk(adj, nodes, weights),
        dist.contains_key(nodes.first()),
    ensures
        dist.contains_key(nodes.last()),
    decreases nodes.len(),
{
    if nodes.len() > 1 {
        let prefix_nodes = nodes.drop_last();
        let prefix_weights = weights.drop_last();
        assert forall|i: int| 0 <= i < prefix_weights.len() implies adj[prefix_nodes[i] as int]
            .contains((prefix_nodes[i + 1], #[trigger] prefix_weights[i])) by {
            assert(prefix_nodes[i] == nodes[i] && prefix_nodes[i + 1] == nodes[i + 1]
                && prefix_weights[i] == weights[i]);
        }
        assert(is_walk(adj, prefix_nodes, prefix_weights));
        assert(prefix_nodes.first() == nodes.first());
        lemma_closed_reaches_all(adj, dist, prefix_nodes, prefix_weights);
        let u = prefix_nodes.last();
        let v = nodes.last();
        let w = weights.last();
        assert(adj[u as int].contains((v, w))) by {
            assert(nodes[nodes.len() - 2] == u && nodes[nodes.len() - 1] == v);
            assert(adj[nodes[weights.len() - 1] as int].contains(
                (nodes[weights.len() as int], weights[weights.len() - 1]),
            ));
        }
        let k = choose|k: int| 0 <= k < adj[u as int].len() && adj[u as int][k] == (v, w);
        assert(dist.contains_key((adj[u as int][k]).0));
    }
}

} // verus!
