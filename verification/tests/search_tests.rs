use graph_search::graph::Graph;
use graph_search::grid::GridMaze;
use graph_search::pathfinding::{depth_first_search, dijkstra, get_path_from_connections, PathNotFound};

/// The total weight of a walk, reading each step's weight off the adjacency
/// list (first matching edge).
fn walk_weight(g: &Graph, walk: &[usize]) -> u64 {
    let mut total = 0u64;
    for i in 0..walk.len().saturating_sub(1) {
        let (u, v) = (walk[i], walk[i + 1]);
        let w = g.adj[u]
            .iter()
            .find(|e| e.0 == v)
            .expect("walk steps along an edge")
            .1;
        total += w;
    }
    total
}

fn full_walk(start: usize, intermediate: &[usize], end: usize) -> Vec<usize> {
    let mut walk = vec![start];
    walk.extend_from_slice(intermediate);
    if end != start {
        walk.push(end);
    }
    walk
}

/// Exhaustive minimum weight over all simple paths, for checking the engine
/// against small synthetic graphs.
fn brute_force_min(g: &Graph, current: usize, end: usize, seen: &mut Vec<bool>) -> Option<u64> {
    if current == end {
        return Some(0);
    }
    seen[current] = true;
    let mut best: Option<u64> = None;
    for &(v, w) in &g.adj[current] {
        if !seen[v] {
            if let Some(rest) = brute_force_min(g, v, end, seen) {
                let cand = w + rest;
                if best.is_none() || cand < best.unwrap() {
                    best = Some(cand);
                }
            }
        }
    }
    seen[current] = false;
    best
}

fn line_graph() -> Graph {
    // three vertices in a row, unit weights, edges both ways
    Graph { adj: vec![vec![(1, 1)], vec![(0, 1), (2, 1)], vec![(1, 1)]] }
}

fn four_cycle() -> Graph {
    Graph {
        adj: vec![
            vec![(1, 1), (3, 1)],
            vec![(0, 1), (2, 1)],
            vec![(1, 1), (3, 1)],
            vec![(2, 1), (0, 1)],
        ],
    }
}

#[test]
fn line_graph_shortest_path() {
    let g = line_graph();
    let p = dijkstra(&g, 0, 2).unwrap();
    assert_eq!(p, vec![1]);
    assert_eq!(walk_weight(&g, &full_walk(0, &p, 2)), 2);
}

#[test]
fn line_graph_dfs_path() {
    let g = line_graph();
    let p = depth_first_search(&g, 0, 2).unwrap();
    assert_eq!(p, vec![1]);
}

#[test]
fn start_equals_end_is_empty_for_both_engines() {
    let g = line_graph();
    assert_eq!(dijkstra(&g, 1, 1).unwrap(), Vec::<usize>::new());
    assert_eq!(depth_first_search(&g, 1, 1).unwrap(), Vec::<usize>::new());
}

#[test]
fn unreachable_end_gives_path_not_found() {
    // an isolated third vertex
    let g = Graph { adj: vec![vec![(1, 1)], vec![(0, 1)], vec![]] };
    assert_eq!(dijkstra(&g, 0, 2), Err(PathNotFound));
    assert_eq!(depth_first_search(&g, 0, 2), Err(PathNotFound));
}

#[test]
fn edges_into_unreachable_start_do_not_help() {
    // the end points at the start, but nothing leads to the end
    let g = Graph { adj: vec![vec![], vec![(0, 1)]] };
    assert_eq!(dijkstra(&g, 0, 1), Err(PathNotFound));
    assert_eq!(depth_first_search(&g, 0, 1), Err(PathNotFound));
}

#[test]
fn engines_are_deterministic_across_calls() {
    let g = four_cycle();
    assert_eq!(dijkstra(&g, 0, 2), dijkstra(&g, 0, 2));
    assert_eq!(depth_first_search(&g, 0, 2), depth_first_search(&g, 0, 2));
}

#[test]
fn four_cycle_shortest_has_one_intermediate() {
    let g = four_cycle();
    let p = dijkstra(&g, 0, 2).unwrap();
    assert_eq!(p.len(), 1);
    assert!(p[0] == 1 || p[0] == 3);
    assert_eq!(walk_weight(&g, &full_walk(0, &p, 2)), 2);
}

#[test]
fn diamond_prefers_cheap_route_regardless_of_discovery_order() {
    // route via vertex 1 costs 5 with one intermediate; route via 2 and 3
    // costs 2 with two intermediates; the expensive route is listed first
    let g = Graph {
        adj: vec![vec![(1, 2), (2, 1)], vec![(4, 3)], vec![(3, 0)], vec![(4, 1)], vec![]],
    };
    let p = dijkstra(&g, 0, 4).unwrap();
    assert_eq!(p, vec![2, 3]);
    assert_eq!(walk_weight(&g, &full_walk(0, &p, 4)), 2);
}

#[test]
fn shortest_weight_matches_brute_force_on_small_graphs() {
    let graphs = vec![
        line_graph(),
        four_cycle(),
        Graph {
            adj: vec![
                vec![(1, 4), (2, 1), (3, 7)],
                vec![(3, 1), (4, 2)],
                vec![(1, 1), (4, 9)],
                vec![(4, 1)],
                vec![],
            ],
        },
    ];
    for g in &graphs {
        let n = g.adj.len();
        for s in 0..n {
            for e in 0..n {
                let mut seen = vec![false; n];
                let expected = brute_force_min(g, s, e, &mut seen);
                match dijkstra(g, s, e) {
                    Ok(p) => {
                        let full = full_walk(s, &p, e);
                        assert_eq!(Some(walk_weight(g, &full)), expected);
                    }
                    Err(PathNotFound) => assert_eq!(expected, None),
                }
            }
        }
    }
}

#[test]
fn reconstruction_reverses_known_insertions() {
    // the chain 0 <- 1 <- 2 <- 3 was inserted link by link; walking it back
    // from 3 and reversing yields the interior of the chain
    let pred = vec![None, Some(0), Some(1), Some(2)];
    let p = get_path_from_connections(3, &pred).unwrap();
    assert_eq!(p, vec![1, 2]);
}

#[test]
fn reconstruction_of_a_root_is_empty() {
    let pred: Vec<Option<usize>> = vec![None, None];
    assert_eq!(get_path_from_connections(0, &pred).unwrap(), Vec::<usize>::new());
}

#[test]
fn reconstruction_of_single_link_is_empty() {
    // target's predecessor is the root itself: nothing lies strictly between
    let pred = vec![None, Some(0)];
    assert_eq!(get_path_from_connections(1, &pred).unwrap(), Vec::<usize>::new());
}

fn maze(width: usize, height: usize, walls: &[(usize, usize)]) -> GridMaze {
    let mut open = vec![true; width * height];
    for &(x, y) in walls {
        open[y * width + x] = false;
    }
    GridMaze { width, height, open }
}

#[test]
fn grid_neighbor_edges_order_and_weights() {
    // a fully open grid: neighbors come out right, left, down, up, weight 1
    let m = maze(3, 3, &[]);
    let edges = m.neighbor_edges(1, 1);
    assert_eq!(edges, vec![(m.vertex(2, 1), 1), (m.vertex(0, 1), 1), (m.vertex(1, 2), 1), (m.vertex(1, 0), 1)]);
}

#[test]
fn grid_neighbor_edges_skip_walls_and_borders() {
    let m = maze(3, 3, &[(1, 0)]);
    let edges = m.neighbor_edges(0, 0);
    // right neighbor is a wall, left and up are outside; only down is open
    assert_eq!(edges, vec![(m.vertex(0, 1), 1)]);
}

#[test]
fn grid_start_scan_skips_border_rows_and_walls() {
    let m = maze(4, 5, &[(0, 1), (0, 2)]);
    // rows 0 and 4 are border rows; rows 1 and 2 of column 0 are walls
    assert_eq!(m.find_open_in_column(0), Some(3));
    let all_walled = maze(2, 4, &[(1, 1), (1, 2)]);
    assert_eq!(all_walled.find_open_in_column(1), None);
}

#[test]
fn walled_grid_is_unsolvable_for_both_engines() {
    // a wall column fully separates the left and right edges
    let m = maze(5, 3, &[(2, 0), (2, 1), (2, 2)]);
    let g = m.to_graph();
    let start = m.vertex(0, m.find_open_in_column(0).unwrap());
    let end = m.vertex(4, m.find_open_in_column(4).unwrap());
    assert_eq!(dijkstra(&g, start, end), Err(PathNotFound));
    assert_eq!(depth_first_search(&g, start, end), Err(PathNotFound));
}

#[test]
fn open_grid_is_solved_by_both_engines() {
    let m = maze(4, 3, &[(1, 0), (1, 2), (3, 0), (3, 2), (0, 0), (0, 2), (2, 0), (2, 2)]);
    // only the middle row is open: a straight corridor
    let g = m.to_graph();
    let start = m.vertex(0, 1);
    let end = m.vertex(3, 1);
    let p = dijkstra(&g, start, end).unwrap();
    assert_eq!(p, vec![m.vertex(1, 1), m.vertex(2, 1)]);
    let q = depth_first_search(&g, start, end).unwrap();
    assert_eq!(q, vec![m.vertex(1, 1), m.vertex(2, 1)]);
}
