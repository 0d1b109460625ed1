//! Hill-climbing shortest routes over a character height grid.
//!
//! The grid holds heights `'a'..='z'`; `'S'` marks the start at height
//! `'a'`, `'E'` the goal at height `'z'`.  A step to a side-adjacent cell
//! is allowed when that cell is at most one higher.  The grid becomes a
//! directed graph, one node per cell, and the searches of
//! [`crate::shortest_path`] answer for the fewest steps from `'S'` to
//! `'E'`, and for the fewest steps to `'E'` from any `'a'` cell, found by
//! searching the reversed graph backward from `'E'`.

use vstd::prelude::*;

verus! {

use crate::graph::{
    DiGraph, graph_add_edge, graph_add_node, graph_adj, graph_new, graph_reverse, total_edges,
};
use crate::shortest_path::{bfs, connects, connects_hops, dijkstra, flipped, is_walk, lemma_closed_reaches_all, lemma_flipped_symmetric, lemma_flipped_walk, lemma_hops_minimal, lemma_relaxed_is_minimal, walk_cost};
use std::collections::HashMap;

broadcast use vstd::std_specs::hash::group_hash_axioms;

/// The characters a height grid may hold.
pub open spec fn valid_height_char(c: char) -> bool {
    c == 'S' || c == 'E' || ('a' as int <= c as int && c as int <= 'z' as int)
}

/// The height a grid character stands for.
pub open spec fn spec_height(c: char) -> int {
    if c == 'S' {
        0
    } else if c == 'E' {
        25
    } else {
        c as int - 'a' as int
    }
}

/// A well-formed grid: rectangular, non-empty, all cells height characters.
pub open spec fn grid_ok(g: Seq<Seq<char>>) -> bool {
    &&& g.len() >= 1
    &&& g[0].len() >= 1
    &&& forall|i: int| 0 <= i < g.len() ==> (#[trigger] g[i]).len() == g[0].len()
    &&& forall|i: int, j: int|
        0 <= i < g.len() && 0 <= j < g[0].len() ==> valid_height_char(#[trigger] g[i][j])
}

/// A step from cell `(i, j)` to cell `(i2, j2)` is allowed: the target is
/// at most one higher.
pub open spec fn climb_ok(g: Seq<Seq<char>>, i: int, j: int, i2: int, j2: int) -> bool {
    spec_height(g[i2][j2]) - spec_height(g[i][j]) <= 1
}

/// The adjacency of cell `(i, j)` in the grid graph, in the order the
/// graph stores it: right, down, left, up, each present when in range and
/// allowed, each of weight one.
pub open spec fn cell_adj(g: Seq<Seq<char>>, i: int, j: int) -> Seq<(usize, u64)> {
    let n = g.len() as int;
    let m = g[0].len() as int;
    (if j + 1 < m && climb_ok(g, i, j, i, j + 1) {
        seq![((i * m + j + 1) as usize, 1u64)]
    } else {
        Seq::<(usize, u64)>::empty()
    }) + (if i + 1 < n && climb_ok(g, i, j, i + 1, j) {
        seq![(((i + 1) * m + j) as usize, 1u64)]
    } else {
        Seq::<(usize, u64)>::empty()
    }) + (if j > 0 && climb_ok(g, i, j, i, j - 1) {
        seq![((i * m + j - 1) as usize, 1u64)]
    } else {
        Seq::<(usize, u64)>::empty()
    }) + (if i > 0 && climb_ok(g, i, j, i - 1, j) {
        seq![(((i - 1) * m + j) as usize, 1u64)]
    } else {
        Seq::<(usize, u64)>::empty()
    })
}

/// The whole grid graph: cell `(i, j)` is node `i * m + j`.
pub open spec fn grid_adj(g: Seq<Seq<char>>) -> Seq<Seq<(usize, u64)>> {
    let m = g[0].len() as int;
    Seq::new((g.len() * g[0].len()) as nat, |u: int| cell_adj(g, u / m, u % m))
}

/// The rows of a vector of character rows, as sequences.
pub open spec fn grid_of(lines: Seq<Vec<char>>) -> Seq<Seq<char>> {
    Seq::new(lines.len(), |i: int| lines[i]@)
}

/// Exactly one cell holds `c`.
pub open spec fn unique_cell(g: Seq<Seq<char>>, c: char) -> bool {
    &&& exists|i: int, j: int| 0 <= i < g.len() && 0 <= j < g[0].len() && g[i][j] == c
    &&& forall|i: int, j: int, i2: int, j2: int|
        0 <= i < g.len() && 0 <= j < g[0].len() && 0 <= i2 < g.len() && 0 <= j2 < g[0].len()
            && #[trigger] g[i][j] == c && #[trigger] g[i2][j2] == c ==> i == i2 && j == j2
}

/// The height a grid character stands for; `'S'` counts as `'a'`, `'E'`
/// as `'z'`.
pub fn get_current_height(c: char) -> (h: i32)
    requires
        valid_height_char(c),
    ensures
        h == spec_height(c),
        0 <= h <= 25,
{
    if c == 'S' {
        0
    } else if c == 'E' {
        25
    } else {
        (c as u32 as i32) - 97
    }
}

/// Builds the grid graph, one node per cell in row-major order, an edge of
/// weight one for each allowed step, and returns it with the node ids of
/// the unique `'S'` and `'E'` cells.
#[verifier::rlimit(100)]
pub fn get_graph(lines: &Vec<Vec<char>>) -> (res: (DiGraph, usize, usize))
    requires
        grid_ok(grid_of(lines@)),
        grid_of(lines@).len() * grid_of(lines@)[0].len() < 0x4000_0000,
        unique_cell(grid_of(lines@), 'S'),
        unique_cell(grid_of(lines@), 'E'),
    ensures
        graph_adj(res.0) == grid_adj(grid_of(lines@)),
        ({
            let g = grid_of(lines@);
            let m = g[0].len() as int;
            &&& res.1 < g.len() * g[0].len()
            &&& 0 <= res.1 as int / m < g.len() && 0 <= res.1 as int % m < m
            &&& g[res.1 as int / m][res.1 as int % m] == 'S'
            &&& res.2 < g.len() * g[0].len()
            &&& 0 <= res.2 as int / m < g.len() && 0 <= res.2 as int % m < m
            &&& g[res.2 as int / m][res.2 as int % m] == 'E'
        }),
{
    let ghost gr = grid_of(lines@);
    let n = lines.len();
    let m = lines[0].len();
    proof {
        assert(gr.len() == n && gr[0].len() == m);
    }
    let mut g = graph_new();
    let mut start: usize = 0;
    let mut end: usize = 0;
    let mut found_s = false;
    let mut found_e = false;
    let mut i: usize = 0;
    while i < n
        invariant
            gr == grid_of(lines@),
            grid_ok(gr),
            n == lines@.len() == gr.len(),
            m == gr[0].len(),
            n * m < 0x4000_0000,
            i <= n,
            graph_adj(g).len() == i * m,
            total_edges(graph_adj(g)) == 0,
            forall|k: int| 0 <= k < i * m ==> (#[trigger] graph_adj(g)[k]).len() == 0,
            found_s ==> start < i * m && 0 <= start as int / (m as int) < n && 0 <= start as int
                % (m as int) < m && gr[start as int / (m as int)][start as int % (m as int)]
                == 'S',
            found_e ==> end < i * m && 0 <= end as int / (m as int) < n && 0 <= end as int % (
            m as int) < m && gr[end as int / (m as int)][end as int % (m as int)] == 'E',
            !found_s ==> forall|i2: int, j2: int|
                0 <= i2 < i && 0 <= j2 < m ==> #[trigger] gr[i2][j2] != 'S',
            !found_e ==> forall|i2: int, j2: int|
                0 <= i2 < i && 0 <= j2 < m ==> #[trigger] gr[i2][j2] != 'E',
        decreases n - i,
    {
        let mut j: usize = 0;
        proof {
            assert(i * m + m <= n * m) by (nonlinear_arith)
                requires
                    i < n,
                    m >= 1,
            ;
        }
        while j < m
            invariant
                gr == grid_of(lines@),
                grid_ok(gr),
                n == lines@.len() == gr.len(),
                m == gr[0].len(),
                n * m < 0x4000_0000,
                i < n,
                j <= m,
                i * m + m <= n * m,
                graph_adj(g).len() == i * m + j,
                total_edges(graph_adj(g)) == 0,
                forall|k: int| 0 <= k < i * m + j ==> (#[trigger] graph_adj(g)[k]).len() == 0,
                found_s ==> start < i * m + j && 0 <= start as int / (m as int) < n && 0
                    <= start as int % (m as int) < m && gr[start as int / (m as int)][start as int
                    % (m as int)] == 'S',
                found_e ==> end < i * m + j && 0 <= end as int / (m as int) < n && 0 <= end as int
                    % (m as int) < m && gr[end as int / (m as int)][end as int % (m as int)]
                    == 'E',
                !found_s ==> (forall|i2: int, j2: int|
                    0 <= i2 < i && 0 <= j2 < m ==> #[trigger] gr[i2][j2] != 'S') && (forall|j2: int|
                    0 <= j2 < j ==> #[trigger] gr[i as int][j2] != 'S'),
                !found_e ==> (forall|i2: int, j2: int|
                    0 <= i2 < i && 0 <= j2 < m ==> #[trigger] gr[i2][j2] != 'E') && (forall|j2: int|
                    0 <= j2 < j ==> #[trigger] gr[i as int][j2] != 'E'),
            decreases m - j,
        {
            let ghost adj0 = graph_adj(g);
            let id = graph_add_node(&mut g);
            proof {
                crate::graph::lemma_total_edges_push(adj0, Seq::<(usize, u64)>::empty());
                assert(gr[i as int] == lines@[i as int]@);
                vstd::arithmetic::div_mod::lemma_fundamental_div_mod_converse(
                    (i * m + j) as int,
                    m as int,
                    i as int,
                    j as int,
                );
            }
            let c = lines[i][j];
            if c == 'S' {
                start = id;
                found_s = true;
            } else if c == 'E' {
                end = id;
                found_e = true;
            }
            j = j + 1;
        }
        i = i + 1;
        proof {
            assert(i * m == (i - 1) * m + m) by (nonlinear_arith);
        }
    }
    proof {
        assert(found_s) by {
            if !found_s {
                let (i2, j2) = choose|i2: int, j2: int|
                    0 <= i2 < gr.len() && 0 <= j2 < gr[0].len() && gr[i2][j2] == 'S';
                assert(gr[i2][j2] != 'S');
            }
        }
        assert(found_e) by {
            if !found_e {
                let (i2, j2) = choose|i2: int, j2: int|
                    0 <= i2 < gr.len() && 0 <= j2 < gr[0].len() && gr[i2][j2] == 'E';
                assert(gr[i2][j2] != 'E');
            }
        }
    }
    let mut i: usize = 0;
    while i < n
        invariant
            gr == grid_of(lines@),
            grid_ok(gr),
            n == lines@.len() == gr.len(),
            m == gr[0].len(),
            n * m < 0x4000_0000,
            i <= n,
            graph_adj(g).len() == n * m,
            total_edges(graph_adj(g)) <= 4 * (i * m),
            i * m <= n * m,
            forall|k: int|
                0 <= k < i * m ==> #[trigger] graph_adj(g)[k] == cell_adj(
                    gr,
                    k / (m as int),
                    k % (m as int),
                ),
            forall|k: int| i * m <= k < n * m ==> (#[trigger] graph_adj(g)[k]).len() == 0,
        decreases n - i,
    {
        let mut j: usize = 0;
        proof {
            assert(i * m + m <= n * m && 4 * (i * m) + 4 * m <= 4 * (n * m)) by (nonlinear_arith)
                requires
                    i < n,
                    m >= 1,
            ;
        }
        while j < m
            invariant
                gr == grid_of(lines@),
                grid_ok(gr),
                n == lines@.len() == gr.len(),
                m == gr[0].len(),
                n * m < 0x4000_0000,
                i < n,
                j <= m,
                i * m + m <= n * m,
                graph_adj(g).len() == n * m,
                total_edges(graph_adj(g)) <= 4 * (i * m + j),
                forall|k: int|
                    0 <= k < i * m + j ==> #[trigger] graph_adj(g)[k] == cell_adj(
                        gr,
                        k / (m as int),
                        k % (m as int),
                    ),
                forall|k: int| i * m + j <= k < n * m ==> (#[trigger] graph_adj(g)[k]).len() == 0,
            decreases m - j,
        {
            let id = i * m + j;
            proof {
                assert(4 * (i * m + j) + 4 <= 4 * (n * m) && 4 * (n * m) < 0x1_0000_0000)
                    by (nonlinear_arith)
                    requires
                        i * m + j < i * m + m,
                        i * m + m <= n * m,
                        n * m < 0x4000_0000,
                ;
                vstd::arithmetic::div_mod::lemma_fundamental_div_mod_converse(
                    id as int,
                    m as int,
                    i as int,
                    j as int,
                );
            }
            proof {
                assert((i + 1) * (m as int) == i * m + m && (i >= 1 ==> (i - 1) * (m as int) == i
                    * m - m) && (i >= 1 ==> i * (m as int) >= m) && (i + 2 <= n ==> (i + 2) * (
                m as int) <= n * m)) by (nonlinear_arith)
                    requires
                        m >= 1,
                        i >= 0,
                        i < n,
                ;
                assert(gr[i as int] == lines@[i as int]@);
                assert(i >= 1 ==> gr[i - 1] == lines@[i - 1]@);
                assert(i + 1 < n ==> gr[i + 1] == lines@[i + 1]@);
            }
            let ghost adj0 = graph_adj(g);
            let h_cur = get_current_height(lines[i][j]);
            if i > 0 {
                let h_up = get_current_height(lines[i - 1][j]);
                if h_up - h_cur <= 1 {
                    graph_add_edge(&mut g, id, id - m, 1);
                    proof {
                        crate::graph::lemma_total_edges_update(adj0, id as int, ((id - m) as usize, 1u64));
                    }
                }
            }
            let ghost adj1 = graph_adj(g);
            if j > 0 {
                let h_left = get_current_height(lines[i][j - 1]);
                if h_left - h_cur <= 1 {
                    graph_add_edge(&mut g, id, id - 1, 1);
                    proof {
                        crate::graph::lemma_total_edges_update(adj1, id as int, ((id - 1) as usize, 1u64));
                    }
                }
            }
            let ghost adj2 = graph_adj(g);
            if i < n - 1 {
                let h_down = get_current_height(lines[i + 1][j]);
                if h_down - h_cur <= 1 {
                    proof {
                        assert(id + m < n * m) by (nonlinear_arith)
                            requires
                                id == i * m + j,
                                j < m,
                                i + 2 <= n,
                                m >= 1,
                        ;
                    }
                    graph_add_edge(&mut g, id, id + m, 1);
                    proof {
                        crate::graph::lemma_total_edges_update(adj2, id as int, ((id + m) as usize, 1u64));
                    }
                }
            }
            let ghost adj3 = graph_adj(g);
            if j < m - 1 {
                let h_right = get_current_height(lines[i][j + 1]);
                if h_right - h_cur <= 1 {
                    graph_add_edge(&mut g, id, id + 1, 1);
                    proof {
                        crate::graph::lemma_total_edges_update(adj3, id as int, ((id + 1) as usize, 1u64));
                    }
                }
            }
            proof {
                assert(graph_adj(g)[id as int] =~= cell_adj(gr, i as int, j as int));
                assert forall|k: int|
                    0 <= k < i * m + j + 1 implies #[trigger] graph_adj(g)[k] == cell_adj(
                    gr,
                    k / (m as int),
                    k % (m as int),
                ) by {
                    if k == id as int {
                        assert(graph_adj(g)[k] == cell_adj(gr, i as int, j as int));
                    } else {
                        assert(graph_adj(g)[k] == adj0[k]);
                    }
                }
            }
            j = j + 1;
        }
        i = i + 1;
        proof {
            assert(i * m == (i - 1) * m + m && 4 * (i * m) == 4 * ((i - 1) * m + m))
                by (nonlinear_arith);
        }
    }
    proof {
        assert(graph_adj(g) =~= grid_adj(gr));
    }
    (g, start, end)
}

/// The rows of a vector of input lines, as character sequences.
pub open spec fn str_grid(lines: Seq<String>) -> Seq<Seq<char>> {
    Seq::new(lines.len(), |i: int| lines[i]@)
}

/// The node id of the cell holding `c`, where that cell is unique.
pub open spec fn cell_id(g: Seq<Seq<char>>, c: char) -> int {
    let (i, j) = choose|i: int, j: int|
        0 <= i < g.len() && 0 <= j < g[0].len() && g[i][j] == c;
    i * g[0].len() + j
}

/// What every solver asks of its input lines: a well-formed grid, small
/// enough for `u32` node indices, with one `'S'` and one `'E'`.
pub open spec fn climb_input_ok(lines: Seq<String>) -> bool {
    &&& grid_ok(str_grid(lines))
    &&& str_grid(lines).len() * str_grid(lines)[0].len() < 0x4000_0000
    &&& unique_cell(str_grid(lines), 'S')
    &&& unique_cell(str_grid(lines), 'E')
}

/// Cell `(i, j)` is in range and at the lowest height `'a'`.
pub open spec fn a_cell(g: Seq<Seq<char>>, i: int, j: int) -> bool {
    0 <= i < g.len() && 0 <= j < g[0].len() && g[i][j] == 'a'
}

proof fn lemma_cell_id_matches(g: Seq<Seq<char>>, c: char, id: usize)
    requires
        grid_ok(g),
        unique_cell(g, c),
        id < g.len() * g[0].len(),
        0 <= id as int / (g[0].len() as int) < g.len(),
        0 <= id as int % (g[0].len() as int) < g[0].len(),
        g[id as int / (g[0].len() as int)][id as int % (g[0].len() as int)] == c,
    ensures
        id as int == cell_id(g, c),
{
    let m = g[0].len() as int;
    let (i, j) = choose|i: int, j: int|
        0 <= i < g.len() && 0 <= j < g[0].len() && g[i][j] == c;
    assert(g[i][j] == c);
    assert(g[id as int / m][id as int % m] == c);
    assert(i == id as int / m && j == id as int % m);
    vstd::arithmetic::div_mod::lemma_fundamental_div_mod(id as int, m);
    assert(id as int == m * (id as int / m) + id as int % m);
    assert((id as int / m) * m == m * (id as int / m)) by (nonlinear_arith);
    assert(cell_id(g, c) == i * m + j);
}

/// Fewest steps from `'S'` to `'E'`, by breadth-first search: the result
/// is the step count of an actual route, and no route takes fewer steps.
pub fn part1_bfs(lines: &Vec<String>) -> (r: u32)
    requires
        climb_input_ok(lines@),
        exists|hops: int|
            #[trigger] connects_hops(
                grid_adj(str_grid(lines@)),
                cell_id(str_grid(lines@), 'S') as usize,
                cell_id(str_grid(lines@), 'E') as usize,
                hops,
            ),
    ensures
        connects_hops(
            grid_adj(str_grid(lines@)),
            cell_id(str_grid(lines@), 'S') as usize,
            cell_id(str_grid(lines@), 'E') as usize,
            r as int,
        ),
        forall|hops: int|
            #[trigger] connects_hops(
                grid_adj(str_grid(lines@)),
                cell_id(str_grid(lines@), 'S') as usize,
                cell_id(str_grid(lines@), 'E') as usize,
                hops,
            ) ==> r as int <= hops,
{
    let ghost gspec = str_grid(lines@);
    let ghost adjg = grid_adj(gspec);
    let grid = to_char_grid(lines);
    proof {
        assert(grid_of(grid@) =~= gspec);
    }
    let (g, s, e) = get_graph(&grid);
    proof {
        lemma_cell_id_matches(gspec, 'S', s);
        lemma_cell_id_matches(gspec, 'E', e);
    }
    let dist = bfs(&g, s);
    proof {
        let hops = choose|hops: int| connects_hops(adjg, s, e, hops);
        let (nodes, weights) = choose|nodes: Seq<usize>, weights: Seq<u64>|
            is_walk(adjg, nodes, weights) && nodes.first() == s && nodes.last() == e
                && weights.len() == hops;
        lemma_closed_reaches_all(adjg, dist@, nodes, weights);
    }
    let d = match dist.get(&e) {
        Some(d) => *d,
        None => {
            proof {
                assert(false);
            }
            0
        },
    };
    proof {
        assert forall|hops: int|
            #[trigger] connects_hops(adjg, s, e, hops) implies d as int <= hops by {
            let (nodes, weights) = choose|nodes: Seq<usize>, weights: Seq<u64>|
                is_walk(adjg, nodes, weights) && nodes.first() == s && nodes.last() == e
                    && weights.len() == hops;
            lemma_hops_minimal(adjg, dist@, nodes, weights);
        }
    }
    d as u32
}

/// Fewest steps from `'S'` to `'E'`, by Dijkstra relaxation over unit
/// weights: the result is the cost of an actual route and no route whose
/// cost fits in a `u64` costs less.
pub fn part1_dijsktra(lines: &Vec<String>) -> (r: u32)
    requires
        climb_input_ok(lines@),
        exists|nodes: Seq<usize>, weights: Seq<u64>|
            is_walk(grid_adj(str_grid(lines@)), nodes, weights) && nodes.first() as int == cell_id(
                str_grid(lines@),
                'S',
            ) && nodes.last() as int == cell_id(str_grid(lines@), 'E') && walk_cost(weights)
                < 0x1_0000_0000,
    ensures
        connects(
            grid_adj(str_grid(lines@)),
            cell_id(str_grid(lines@), 'S') as usize,
            cell_id(str_grid(lines@), 'E') as usize,
            r as int,
        ),
        forall|nodes: Seq<usize>, weights: Seq<u64>|
            is_walk(grid_adj(str_grid(lines@)), nodes, weights) && nodes.first() as int == cell_id(
                str_grid(lines@),
                'S',
            ) && nodes.last() as int == cell_id(str_grid(lines@), 'E') && walk_cost(weights)
                < u64::MAX ==> r as int <= walk_cost(weights),
{
    let ghost gspec = str_grid(lines@);
    let ghost adjg = grid_adj(gspec);
    let grid = to_char_grid(lines);
    proof {
        assert(grid_of(grid@) =~= gspec);
    }
    let (g, s, e) = get_graph(&grid);
    proof {
        lemma_cell_id_matches(gspec, 'S', s);
        lemma_cell_id_matches(gspec, 'E', e);
    }
    let dist = dijkstra(&g, s);
    proof {
        let (nodes, weights) = choose|nodes: Seq<usize>, weights: Seq<u64>|
            is_walk(adjg, nodes, weights) && nodes.first() as int == cell_id(gspec, 'S')
                && nodes.last() as int == cell_id(gspec, 'E') && walk_cost(weights) < 0x1_0000_0000;
        assert(nodes.first() == s && nodes.last() == e);
        lemma_relaxed_is_minimal(adjg, dist@, nodes, weights);
    }
    let d = match dist.get(&e) {
        Some(d) => *d,
        None => {
            proof {
                assert(false);
            }
            0
        },
    };
    proof {
        assert forall|nodes: Seq<usize>, weights: Seq<u64>|
            is_walk(adjg, nodes, weights) && nodes.first() as int == cell_id(gspec, 'S')
                && nodes.last() as int == cell_id(gspec, 'E') && walk_cost(weights)
                < u64::MAX implies d as int <= walk_cost(weights) by {
            lemma_relaxed_is_minimal(adjg, dist@, nodes, weights);
        }
    }
    d as u32
}

/// Node `v` is an `'a'` cell of the grid.
pub open spec fn is_a_node(g: Seq<Seq<char>>, v: usize) -> bool {
    let m = g[0].len() as int;
    v < g.len() * g[0].len() && g[v as int / m][v as int % m] == 'a'
}

/// The smallest recorded distance over the `'a'` cells, or `None` when no
/// `'a'` cell was reached.
fn min_a_dist(grid: &Vec<Vec<char>>, dist: &HashMap<usize, u64>) -> (r: Option<u64>)
    requires
        grid_ok(grid_of(grid@)),
        grid_of(grid@).len() * grid_of(grid@)[0].len() < 0x4000_0000,
    ensures
        ({
            let g = grid_of(grid@);
            match r {
                None => forall|v: usize| is_a_node(g, v) ==> !(#[trigger] dist@.contains_key(v)),
                Some(b) => {
                    &&& exists|v: usize|
                        is_a_node(g, v) && #[trigger] dist@.contains_key(v) && dist@[v] == b
                    &&& forall|v: usize|
                        is_a_node(g, v) && #[trigger] dist@.contains_key(v) ==> b <= dist@[v]
                },
            }
        }),
{
    let ghost g = grid_of(grid@);
    let n = grid.len();
    let m = grid[0].len();
    let mut best: Option<u64> = None;
    let mut i: usize = 0;
    while i < n
        invariant
            g == grid_of(grid@),
            grid_ok(g),
            n == g.len(),
            m == g[0].len(),
            n * m < 0x4000_0000,
            i <= n,
            match best {
                None => forall|v: usize|
                    is_a_node(g, v) && v < i * m ==> !(#[trigger] dist@.contains_key(v)),
                Some(b) => {
                    &&& exists|v: usize|
                        is_a_node(g, v) && #[trigger] dist@.contains_key(v) && dist@[v] == b
                    &&& forall|v: usize|
                        is_a_node(g, v) && v < i * m && #[trigger] dist@.contains_key(v) ==> b
                            <= dist@[v]
                },
            },
        decreases n - i,
    {
        let mut j: usize = 0;
        proof {
            assert(i * m + m <= n * m) by (nonlinear_arith)
                requires
                    i < n,
                    m >= 1,
            ;
        }
        while j < m
            invariant
                g == grid_of(grid@),
                grid_ok(g),
                n == g.len(),
                m == g[0].len(),
                n * m < 0x4000_0000,
                i < n,
                j <= m,
                i * m + m <= n * m,
                match best {
                    None => forall|v: usize|
                        is_a_node(g, v) && v < i * m + j ==> !(#[trigger] dist@.contains_key(v)),
                    Some(b) => {
                        &&& exists|v: usize|
                            is_a_node(g, v) && #[trigger] dist@.contains_key(v) && dist@[v] == b
                        &&& forall|v: usize|
                            is_a_node(g, v) && v < i * m + j && #[trigger] dist@.contains_key(v)
                                ==> b <= dist@[v]
                    },
                },
            decreases m - j,
        {
            let id = i * m + j;
            proof {
                vstd::arithmetic::div_mod::lemma_fundamental_div_mod_converse(
                    id as int,
                    m as int,
                    i as int,
                    j as int,
                );
                assert(g[i as int] == grid@[i as int]@);
            }
            if grid[i][j] == 'a' {
                match dist.get(&id) {
                    Some(d) => {
                        let keep = match best {
                            None => true,
                            Some(b) => *d < b,
                        };
                        if keep {
                            best = Some(*d);
                        }
                    },
                    None => {},
                }
            }
            proof {
                match best {
                    None => {
                        assert forall|v: usize|
                            is_a_node(g, v) && v < i * m + j + 1 implies !(
                        #[trigger] dist@.contains_key(v)) by {
                            if v == id {
                                assert(!dist@.contains_key(id));
                            }
                        }
                    },
                    Some(b) => {
                        assert forall|v: usize|
                            is_a_node(g, v) && v < i * m + j + 1 && #[trigger] dist@.contains_key(
                            v,
                        ) implies b <= dist@[v] by {
                            if v == id {
                            }
                        }
                    },
                }
            }
            j = j + 1;
        }
        i = i + 1;
        proof {
            assert(i * m == (i - 1) * m + m) by (nonlinear_arith);
        }
    }
    proof {
        match best {
            None => {
                assert forall|v: usize| is_a_node(g, v) implies !(
                #[trigger] dist@.contains_key(v)) by {
                    assert(v < n * m);
                }
            },
            Some(b) => {
                assert forall|v: usize|
                    is_a_node(g, v) && #[trigger] dist@.contains_key(v) implies b <= dist@[v] by {
                    assert(v < n * m);
                }
            },
        }
    }
    best
}

/// The input lines as rows of characters.
pub fn to_char_grid(lines: &Vec<String>) -> (grid: Vec<Vec<char>>)
    ensures
        grid@.len() == lines@.len(),
        forall|i: int| 0 <= i < grid@.len() ==> (#[trigger] grid@[i])@ == lines@[i]@,
{
    let mut grid: Vec<Vec<char>> = Vec::new();
    let n = lines.len();
    let mut i: usize = 0;
    while i < n
        invariant
            n == lines@.len(),
            i <= n,
            grid@.len() == i,
            forall|i2: int| 0 <= i2 < i ==> (#[trigger] grid@[i2])@ == lines@[i2]@,
        decreases n - i,
    {
        let s: &String = &lines[i];
        let len = s.as_str().unicode_len();
        let mut row: Vec<char> = Vec::new();
        let mut j: usize = 0;
        while j < len
            invariant
                i < lines@.len(),
                s@ == lines@[i as int]@,
                len == s@.len(),
                j <= len,
                row@.len() == j,
                forall|k: int| 0 <= k < j ==> #[trigger] row@[k] == s@[k],
            decreases len - j,
        {
            row.push(s.as_str().get_char(j));
            j = j + 1;
        }
        proof {
            assert(row@ =~= lines@[i as int]@);
        }
        grid.push(row);
        i = i + 1;
    }
    grid
}

/// Fewest steps to `'E'` from the best-placed `'a'` cell, by breadth-first
/// search backward from `'E'` over the reversed graph: the result is the
/// step count of an actual route from some `'a'` cell, and no route from
/// any `'a'` cell takes fewer steps.
pub fn part2_bfs(lines: &Vec<String>) -> (r: i32)
    requires
        climb_input_ok(lines@),
        exists|v: usize, hops: int|
            is_a_node(str_grid(lines@), v) && #[trigger] connects_hops(
                grid_adj(str_grid(lines@)),
                v,
                cell_id(str_grid(lines@), 'E') as usize,
                hops,
            ),
    ensures
        exists|v: usize|
            is_a_node(str_grid(lines@), v) && #[trigger] connects_hops(
                grid_adj(str_grid(lines@)),
                v,
                cell_id(str_grid(lines@), 'E') as usize,
                r as int,
            ),
        forall|v: usize, hops: int|
            is_a_node(str_grid(lines@), v) && #[trigger] connects_hops(
                grid_adj(str_grid(lines@)),
                v,
                cell_id(str_grid(lines@), 'E') as usize,
                hops,
            ) ==> r as int <= hops,
{
    let ghost gspec = str_grid(lines@);
    let ghost oadj = grid_adj(gspec);
    let grid = to_char_grid(lines);
    proof {
        assert(grid_of(grid@) =~= gspec);
    }
    let (mut g, _start, e) = get_graph(&grid);
    proof {
        lemma_cell_id_matches(gspec, 'E', e);
    }
    graph_reverse(&mut g);
    let ghost radj = graph_adj(g);
    proof {
        assert(flipped(radj, oadj)) by {
            assert forall|a: int, b: usize, w: u64|
                0 <= a < radj.len() && b < radj.len() implies (#[trigger] radj[a].contains((b, w))
                <==> oadj[b as int].contains((a as usize, w))) by {
            }
        }
    }
    let dist = bfs(&g, e);
    proof {
        let (v0, hops) = choose|v0: usize, hops: int|
            is_a_node(gspec, v0) && #[trigger] connects_hops(oadj, v0, e, hops);
        let (nodes, weights) = choose|nodes: Seq<usize>, weights: Seq<u64>|
            is_walk(oadj, nodes, weights) && nodes.first() == v0 && nodes.last() == e
                && weights.len() == hops;
        lemma_flipped_symmetric(radj, oadj);
        lemma_flipped_walk(oadj, radj, nodes, weights);
        lemma_closed_reaches_all(radj, dist@, nodes.reverse(), weights.reverse());
        assert(dist@.contains_key(v0));
    }
    let best = min_a_dist(&grid, &dist);
    let b = match best {
        Some(b) => b,
        None => {
            proof {
                assert(false);
            }
            0
        },
    };
    proof {
        let v1 = choose|v1: usize|
            is_a_node(gspec, v1) && #[trigger] dist@.contains_key(v1) && dist@[v1] == b;
        let (nodes, weights) = choose|nodes: Seq<usize>, weights: Seq<u64>|
            is_walk(radj, nodes, weights) && nodes.first() == e && nodes.last() == v1
                && weights.len() == b as int;
        lemma_flipped_walk(radj, oadj, nodes, weights);
        assert(connects_hops(oadj, v1, e, b as int));
        assert forall|v2: usize, hops: int|
            is_a_node(gspec, v2) && #[trigger] connects_hops(oadj, v2, e, hops) implies b as int
            <= hops by {
            let (nodes2, weights2) = choose|nodes2: Seq<usize>, weights2: Seq<u64>|
                is_walk(oadj, nodes2, weights2) && nodes2.first() == v2 && nodes2.last() == e
                    && weights2.len() == hops;
            lemma_flipped_symmetric(radj, oadj);
            lemma_flipped_walk(oadj, radj, nodes2, weights2);
            lemma_hops_minimal(radj, dist@, nodes2.reverse(), weights2.reverse());
            assert(dist@.contains_key(v2));
        }
    }
    b as i32
}

/// Fewest steps to `'E'` from the best-placed `'a'` cell, by Dijkstra
/// relaxation backward from `'E'` over the reversed graph: the result is
/// the cost of an actual route from some `'a'` cell, and no route from any
/// `'a'` cell whose cost fits in a `u64` costs less.
pub fn part2_dijsktra(lines: &Vec<String>) -> (r: i32)
    requires
        climb_input_ok(lines@),
        exists|nodes: Seq<usize>, weights: Seq<u64>|
            is_walk(grid_adj(str_grid(lines@)), nodes, weights) && is_a_node(
                str_grid(lines@),
                nodes.first(),
            ) && nodes.last() as int == cell_id(str_grid(lines@), 'E') && walk_cost(weights)
                < 0x4000_0000,
    ensures
        exists|v: usize|
            is_a_node(str_grid(lines@), v) && #[trigger] connects(
                grid_adj(str_grid(lines@)),
                v,
                cell_id(str_grid(lines@), 'E') as usize,
                r as int,
            ),
        forall|nodes: Seq<usize>, weights: Seq<u64>|
            is_walk(grid_adj(str_grid(lines@)), nodes, weights) && is_a_node(
                str_grid(lines@),
                nodes.first(),
            ) && nodes.last() as int == cell_id(str_grid(lines@), 'E') && walk_cost(weights)
                < u64::MAX ==> r as int <= walk_cost(weights),
{
    let ghost gspec = str_grid(lines@);
    let ghost oadj = grid_adj(gspec);
    let grid = to_char_grid(lines);
    proof {
        assert(grid_of(grid@) =~= gspec);
    }
    let (mut g, _start, e) = get_graph(&grid);
    proof {
        lemma_cell_id_matches(gspec, 'E', e);
    }
    graph_reverse(&mut g);
    let ghost radj = graph_adj(g);
    proof {
        assert(flipped(radj, oadj)) by {
            assert forall|a: int, b: usize, w: u64|
                0 <= a < radj.len() && b < radj.len() implies (#[trigger] radj[a].contains((b, w))
                <==> oadj[b as int].contains((a as usize, w))) by {
            }
        }
    }
    let dist = dijkstra(&g, e);
    proof {
        let (nodes, weights) = choose|nodes: Seq<usize>, weights: Seq<u64>|
            is_walk(oadj, nodes, weights) && is_a_node(gspec, nodes.first())
                && nodes.last() as int == cell_id(gspec, 'E') && walk_cost(weights) < 0x4000_0000;
        lemma_flipped_symmetric(radj, oadj);
        lemma_flipped_walk(oadj, radj, nodes, weights);
        lemma_relaxed_is_minimal(radj, dist@, nodes.reverse(), weights.reverse());
        assert(dist@.contains_key(nodes.first()));
        assert(dist@[nodes.first()] < 0x4000_0000);
    }
    let best = min_a_dist(&grid, &dist);
    let b = match best {
        Some(b) => b,
        None => {
            proof {
                assert(false);
            }
            0
        },
    };
    proof {
        let v1 = choose|v1: usize|
            is_a_node(gspec, v1) && #[trigger] dist@.contains_key(v1) && dist@[v1] == b;
        let (nodes, weights) = choose|nodes: Seq<usize>, weights: Seq<u64>|
            is_walk(radj, nodes, weights) && nodes.first() == e && nodes.last() == v1
                && walk_cost(weights) == dist@[v1] as int;
        lemma_flipped_walk(radj, oadj, nodes, weights);
        assert(connects(oadj, v1, e, b as int));
        assert forall|nodes2: Seq<usize>, weights2: Seq<u64>|
            is_walk(oadj, nodes2, weights2) && is_a_node(gspec, nodes2.first())
                && nodes2.last() as int == cell_id(gspec, 'E') && walk_cost(weights2)
                < u64::MAX implies b as int <= walk_cost(weights2) by {
            lemma_flipped_symmetric(radj, oadj);
            lemma_flipped_walk(oadj, radj, nodes2, weights2);
            lemma_relaxed_is_minimal(radj, dist@, nodes2.reverse(), weights2.reverse());
        }
    }
    b as i32
}

} // verus!
