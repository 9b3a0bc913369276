use social_graph::friends::friends_of_friends;
use social_graph::graph::create_graph;
use std::collections::HashMap;
use std::collections::HashSet;

fn ids(items: &[usize]) -> HashSet<usize> {
    items.iter().copied().collect()
}

#[test]
fn chain_friend_of_friend() {
    let graph = create_graph(vec![(1, 2), (2, 3), (3, 4)]);
    assert_eq!(friends_of_friends(&graph, 1), ids(&[3]));
}

#[test]
fn chain_inner_node_sees_both_sides() {
    let graph = create_graph(vec![(1, 2), (2, 3), (3, 4), (4, 5)]);
    assert_eq!(friends_of_friends(&graph, 3), ids(&[1, 5]));
}

#[test]
fn absent_user_has_no_friends_of_friends() {
    let graph = create_graph(vec![(1, 2), (2, 3), (3, 4)]);
    assert_eq!(friends_of_friends(&graph, 42), HashSet::new());
}

#[test]
fn empty_graph_has_no_friends_of_friends() {
    let graph: HashMap<usize, HashSet<usize>> = HashMap::new();
    assert!(friends_of_friends(&graph, 0).is_empty());
}

#[test]
fn triangle_has_only_direct_friends() {
    let graph = create_graph(vec![(1, 2), (2, 3), (3, 1)]);
    assert!(friends_of_friends(&graph, 1).is_empty());
}

#[test]
fn result_excludes_origin_and_direct_friends() {
    let graph = create_graph(
        vec![(1, 2), (1, 3), (2, 3), (2, 4), (3, 5), (4, 5), (5, 6), (1, 7), (7, 4)],
    );
    for user in 0..9 {
        let result = friends_of_friends(&graph, user);
        assert!(!result.contains(&user));
        if let Some(direct) = graph.get(&user) {
            for friend in direct {
                assert!(!result.contains(friend));
            }
        }
    }
    assert_eq!(friends_of_friends(&graph, 1), ids(&[4, 5]));
}

#[test]
fn star_leaves_are_friends_of_friends() {
    let graph = create_graph(vec![(0, 1), (0, 2), (0, 3)]);
    assert_eq!(friends_of_friends(&graph, 1), ids(&[2, 3]));
    assert!(friends_of_friends(&graph, 0).is_empty());
}

#[test]
fn self_loop_does_not_return_origin() {
    let graph = create_graph(vec![(1, 1), (1, 2), (2, 3)]);
    assert_eq!(friends_of_friends(&graph, 1), ids(&[3]));
}

#[test]
fn friend_without_entry_introduces_nobody() {
    let mut graph: HashMap<usize, HashSet<usize>> = HashMap::new();
    graph.insert(1, ids(&[2, 3]));
    graph.insert(3, ids(&[4]));
    assert_eq!(friends_of_friends(&graph, 1), ids(&[4]));
}

#[test]
fn friends_of_friends_are_two_hops_away() {
    let graph = create_graph(
        vec![(1, 2), (1, 3), (2, 3), (2, 4), (3, 5), (4, 5), (5, 6), (1, 7), (7, 4), (6, 6)],
    );
    for user in 1..8 {
        let two_hops: HashSet<usize> = social_graph::traversal::bounded_bfs(&graph, user, 2)
            .into_iter()
            .filter(|&(_, hops)| hops == 2)
            .map(|(node, _)| node)
            .collect();
        assert_eq!(friends_of_friends(&graph, user), two_hops);
    }
}
