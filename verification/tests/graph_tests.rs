use social_graph::graph::create_graph;
use std::collections::HashMap;
use std::collections::HashSet;

fn set_of(items: &[usize]) -> HashSet<usize> {
    items.iter().copied().collect()
}

fn chain() -> Vec<(usize, usize)> {
    vec![(1, 2), (2, 3), (3, 4)]
}

#[test]
fn chain_neighbors_of_inner_node() {
    let graph = create_graph(chain());
    assert_eq!(graph.get(&2), Some(&set_of(&[1, 3])));
}

#[test]
fn chain_has_exactly_its_four_nodes() {
    let graph = create_graph(chain());
    let mut expected: HashMap<usize, HashSet<usize>> = HashMap::new();
    expected.insert(1, set_of(&[2]));
    expected.insert(2, set_of(&[1, 3]));
    expected.insert(3, set_of(&[2, 4]));
    expected.insert(4, set_of(&[3]));
    assert_eq!(graph, expected);
}

#[test]
fn every_ingested_edge_is_present_both_ways() {
    let edges = vec![(10, 20), (20, 30), (30, 10), (7, 10), (5, 5), (0, 99)];
    let graph = create_graph(edges.clone());
    for (a, b) in edges {
        assert!(graph[&a].contains(&b));
        assert!(graph[&b].contains(&a));
    }
}

#[test]
fn neighbor_relation_is_symmetric() {
    let graph = create_graph(vec![(1, 2), (3, 1), (4, 2), (2, 5), (6, 7)]);
    for (a, neighbors) in &graph {
        for b in neighbors {
            assert!(graph[b].contains(a));
        }
    }
}

#[test]
fn same_edge_twice_is_same_graph() {
    let once = create_graph(vec![(1, 2), (2, 3)]);
    let twice = create_graph(vec![(1, 2), (2, 3), (1, 2)]);
    let twice_in_front = create_graph(vec![(1, 2), (1, 2), (2, 3)]);
    assert_eq!(once, twice);
    assert_eq!(once, twice_in_front);
}

#[test]
fn reversed_duplicate_is_same_graph() {
    let once = create_graph(vec![(1, 2), (2, 3)]);
    let with_reverse = create_graph(vec![(1, 2), (2, 3), (2, 1)]);
    let reverse_first = create_graph(vec![(3, 2), (1, 2), (2, 3)]);
    assert_eq!(once, with_reverse);
    assert_eq!(once, reverse_first);
}

#[test]
fn order_of_edges_is_irrelevant() {
    let forward = create_graph(vec![(1, 2), (2, 3), (3, 4), (4, 1)]);
    let shuffled = create_graph(vec![(3, 4), (1, 2), (4, 1), (2, 3)]);
    assert_eq!(forward, shuffled);
}

#[test]
fn no_edges_no_nodes() {
    let graph = create_graph(Vec::new());
    assert!(graph.is_empty());
}

#[test]
fn node_without_edge_has_no_entry() {
    let graph = create_graph(chain());
    assert_eq!(graph.len(), 4);
    assert!(!graph.contains_key(&0));
    assert!(!graph.contains_key(&5));
}

#[test]
fn no_entry_is_empty() {
    let graph = create_graph(vec![(1, 2), (3, 3), (2, 4)]);
    for neighbors in graph.values() {
        assert!(!neighbors.is_empty());
    }
}

#[test]
fn self_loop_is_kept() {
    let graph = create_graph(vec![(8, 8)]);
    assert_eq!(graph.len(), 1);
    assert_eq!(graph[&8], set_of(&[8]));
}

#[test]
fn largest_node_id_is_accepted() {
    let graph = create_graph(vec![(usize::MAX, 0)]);
    assert_eq!(graph[&usize::MAX], set_of(&[0]));
    assert_eq!(graph[&0], set_of(&[usize::MAX]));
}
