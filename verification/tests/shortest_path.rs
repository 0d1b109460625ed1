use aoc::shortest_path::{bfs, dijkstra};
use petgraph::graph::Graph;
use petgraph::Directed;

type G = Graph<(), u64, Directed, u32>;

#[test]
fn test_bfs_path() {
    let mut g: G = Graph::new();
    let a = g.add_node(());
    let b = g.add_node(());
    let c = g.add_node(());
    let d = g.add_node(());
    g.add_edge(a, b, 1);
    g.add_edge(b, c, 1);
    g.add_edge(c, d, 1);
    let dist = bfs(&g, a.index());
    assert_eq!(dist.get(&a.index()), Some(&0));
    assert_eq!(dist.get(&b.index()), Some(&1));
    assert_eq!(dist.get(&c.index()), Some(&2));
    assert_eq!(dist.get(&d.index()), Some(&3));
}

#[test]
fn test_bfs_disconnected() {
    let mut g: G = Graph::new();
    let a = g.add_node(());
    let b = g.add_node(());
    let c = g.add_node(());
    let d = g.add_node(());
    g.add_edge(a, b, 1);
    g.add_edge(c, d, 1);
    let dist = bfs(&g, a.index());
    assert!(dist.get(&a.index()).is_some());
    assert!(dist.get(&b.index()).is_some());
    assert!(dist.get(&c.index()).is_none());
    assert!(dist.get(&d.index()).is_none());
}

#[test]
fn test_dijkstra_weights() {
    let mut g: G = Graph::new();
    let a = g.add_node(());
    let b = g.add_node(());
    let c = g.add_node(());
    g.add_edge(a, b, 5);
    g.add_edge(a, c, 1);
    g.add_edge(c, b, 1);
    let dist = dijkstra(&g, a.index());
    assert_eq!(dist.get(&b.index()), Some(&2));
    assert_eq!(dist.get(&c.index()), Some(&1));
    assert_eq!(dist.get(&a.index()), Some(&0));
}

#[test]
fn test_dijkstra_improves_settled() {
    // A settled node improved later must pass the better distance on.
    let mut g: G = Graph::new();
    let a = g.add_node(());
    let x = g.add_node(());
    let q = g.add_node(());
    let z = g.add_node(());
    let w = g.add_node(());
    g.add_edge(a, z, 15);
    g.add_edge(a, x, 10);
    g.add_edge(a, q, 1);
    g.add_edge(q, z, 1);
    g.add_edge(z, x, 1);
    g.add_edge(x, w, 1);
    let dist = dijkstra(&g, a.index());
    assert_eq!(dist.get(&z.index()), Some(&2));
    assert_eq!(dist.get(&x.index()), Some(&3));
    assert_eq!(dist.get(&w.index()), Some(&4));
}

#[test]
fn test_dijkstra_unreachable_absent() {
    let mut g: G = Graph::new();
    let a = g.add_node(());
    let b = g.add_node(());
    g.add_edge(b, a, 1);
    let dist = dijkstra(&g, a.index());
    assert_eq!(dist.get(&a.index()), Some(&0));
    assert!(dist.get(&b.index()).is_none());
}

#[test]
fn test_bfs_prefers_fewer_hops() {
    // Two routes to the same node: the direct edge must win.
    let mut g: G = Graph::new();
    let a = g.add_node(());
    let b = g.add_node(());
    let c = g.add_node(());
    g.add_edge(a, b, 1);
    g.add_edge(b, c, 1);
    g.add_edge(a, c, 1);
    let dist = bfs(&g, a.index());
    assert_eq!(dist.get(&c.index()), Some(&1));
    // Self-loops and duplicate edges change nothing.
    g.add_edge(a, a, 1);
    g.add_edge(a, b, 1);
    let dist2 = bfs(&g, a.index());
    assert_eq!(dist2.get(&a.index()), Some(&0));
    assert_eq!(dist2.get(&b.index()), Some(&1));
    assert_eq!(dist2.get(&c.index()), Some(&1));
}
