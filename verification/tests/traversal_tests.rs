use social_graph::graph::create_graph;
use social_graph::traversal::bfs;
use social_graph::traversal::bounded_bfs;
use social_graph::traversal::sixdegrees;
use std::collections::HashMap;
use std::collections::HashSet;

fn distances(items: &[(usize, usize)]) -> HashMap<usize, usize> {
    items.iter().copied().collect()
}

fn chain_of(nodes: usize) -> Vec<(usize, usize)> {
    (1..nodes).map(|i| (i, i + 1)).collect()
}

/// Shortest distances by repeated relaxation over all edges.
fn shortest_by_relaxation(edges: &[(usize, usize)], start: usize) -> HashMap<usize, usize> {
    let mut best: HashMap<usize, usize> = HashMap::new();
    best.insert(start, 0);
    let mut changed = true;
    while changed {
        changed = false;
        for &(a, b) in edges {
            for (from, to) in [(a, b), (b, a)] {
                if let Some(&d) = best.get(&from) {
                    if best.get(&to).map_or(true, |&old| d + 1 < old) {
                        best.insert(to, d + 1);
                        changed = true;
                    }
                }
            }
        }
    }
    best
}

#[test]
fn chain_six_degrees() {
    let graph = create_graph(vec![(1, 2), (2, 3), (3, 4)]);
    assert_eq!(sixdegrees(&graph, 1), distances(&[(1, 0), (2, 1), (3, 2), (4, 3)]));
}

#[test]
fn six_degrees_stops_after_six_hops() {
    let graph = create_graph(chain_of(10));
    let degrees = sixdegrees(&graph, 1);
    assert_eq!(
        degrees,
        distances(&[(1, 0), (2, 1), (3, 2), (4, 3), (5, 4), (6, 5), (7, 6)]),
    );
    assert!(!degrees.contains_key(&8));
}

#[test]
fn six_degrees_of_absent_start_is_empty() {
    let graph = create_graph(vec![(1, 2), (2, 3)]);
    assert!(sixdegrees(&graph, 9).is_empty());
}

#[test]
fn six_degrees_leaves_out_other_components() {
    let graph = create_graph(vec![(1, 2), (3, 4)]);
    assert_eq!(sixdegrees(&graph, 1), distances(&[(1, 0), (2, 1)]));
}

#[test]
fn six_degrees_takes_the_shortcut() {
    let graph = create_graph(vec![(1, 2), (2, 3), (3, 4), (4, 5), (1, 5), (5, 6)]);
    assert_eq!(
        sixdegrees(&graph, 1),
        distances(&[(1, 0), (2, 1), (5, 1), (3, 2), (4, 2), (6, 2)]),
    );
}

#[test]
fn six_degrees_matches_shortest_by_relaxation() {
    let edges = vec![
        (0, 1), (0, 2), (1, 3), (2, 3), (3, 4), (4, 5), (5, 6), (6, 7), (7, 8), (8, 9),
        (2, 6), (9, 0), (10, 11), (4, 4), (5, 3),
    ];
    let graph = create_graph(edges.clone());
    for start in 0..12 {
        let expected: HashMap<usize, usize> =
            shortest_by_relaxation(&edges, start).into_iter().filter(|&(_, d)| d <= 6).collect();
        assert_eq!(sixdegrees(&graph, start), expected);
    }
}

#[test]
fn six_degrees_on_a_cycle_ends() {
    let graph = create_graph(vec![(1, 2), (2, 3), (3, 1)]);
    assert_eq!(sixdegrees(&graph, 2), distances(&[(2, 0), (1, 1), (3, 1)]));
}

#[test]
fn cap_zero_finds_the_start_alone() {
    let graph = create_graph(vec![(1, 2), (2, 3)]);
    assert_eq!(bounded_bfs(&graph, 2, 0), distances(&[(2, 0)]));
}

#[test]
fn cap_one_finds_direct_neighbors() {
    let graph = create_graph(vec![(1, 2), (2, 3), (3, 4)]);
    assert_eq!(bounded_bfs(&graph, 2, 1), distances(&[(2, 0), (1, 1), (3, 1)]));
}

#[test]
fn larger_cap_reaches_further() {
    let graph = create_graph(chain_of(10));
    let degrees = bounded_bfs(&graph, 1, 9);
    assert_eq!(degrees.len(), 10);
    assert_eq!(degrees[&10], 9);
    assert_eq!(bounded_bfs(&graph, 1, usize::MAX), degrees);
}

#[test]
fn bounded_search_follows_arcs_of_a_one_way_map() {
    let mut graph: HashMap<usize, HashSet<usize>> = HashMap::new();
    graph.insert(1, [2].into_iter().collect());
    graph.insert(2, [3].into_iter().collect());
    assert_eq!(bounded_bfs(&graph, 1, 6), distances(&[(1, 0), (2, 1), (3, 2)]));
    assert_eq!(bounded_bfs(&graph, 2, 6), distances(&[(2, 0), (3, 1)]));
    assert!(bounded_bfs(&graph, 3, 6).is_empty());
}

#[test]
fn chain_bfs_visits_each_node_once() {
    let graph = create_graph(vec![(1, 2), (2, 3), (3, 4)]);
    let order = bfs(&graph, 1);
    assert_eq!(order.len(), 4);
    let visited: HashSet<usize> = order.iter().copied().collect();
    assert_eq!(visited, [1, 2, 3, 4].into_iter().collect());
    assert_eq!(order[0], 1);
}

#[test]
fn bfs_of_absent_start_visits_start_alone() {
    let graph = create_graph(vec![(1, 2), (2, 3)]);
    assert_eq!(bfs(&graph, 0), vec![0]);
}

#[test]
fn bfs_stays_in_the_component_of_start() {
    let graph = create_graph(vec![(1, 2), (2, 3), (3, 1), (4, 5)]);
    let visited: HashSet<usize> = bfs(&graph, 4).into_iter().collect();
    assert_eq!(visited, [4, 5].into_iter().collect());
}

#[test]
fn bfs_has_no_depth_cap() {
    let graph = create_graph(chain_of(20));
    assert_eq!(bfs(&graph, 1), (1..=20).collect::<Vec<usize>>());
}

#[test]
fn bfs_visits_nearer_nodes_first() {
    let edges = vec![
        (0, 1), (0, 2), (0, 3), (1, 4), (2, 4), (3, 5), (4, 6), (5, 6), (6, 7), (7, 0),
        (8, 9),
    ];
    let graph = create_graph(edges.clone());
    let shortest = shortest_by_relaxation(&edges, 0);
    let order = bfs(&graph, 0);
    let visited: HashSet<usize> = order.iter().copied().collect();
    assert_eq!(visited.len(), order.len());
    assert_eq!(visited, shortest.keys().copied().collect());
    assert_eq!(order[0], 0);
    for pair in order.windows(2) {
        assert!(shortest[&pair[0]] <= shortest[&pair[1]]);
    }
}

#[test]
fn bfs_on_a_self_loop_visits_once() {
    let graph = create_graph(vec![(3, 3)]);
    assert_eq!(bfs(&graph, 3), vec![3]);
}
