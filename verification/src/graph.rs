//! The adjacency structure and its construction from an edge list.

use std::collections::HashMap;
use std::collections::HashSet;
use vstd::prelude::*;

verus! {

broadcast use vstd::std_specs::hash::group_hash_axioms;

/// The mathematical content of an adjacency structure: every node that has an
/// entry, mapped to the set of its neighbours.
pub open spec fn adjacency(graph: HashMap<usize, HashSet<usize>>) -> Map<usize, Set<usize>> {
    Map::new(|a: usize| graph@.contains_key(a), |a: usize| graph@[a]@)
}

/// `b` is listed as a neighbour of `a`.
pub open spec fn has_edge(adj: Map<usize, Set<usize>>, a: usize, b: usize) -> bool {
    adj.contains_key(a) && adj[a].contains(b)
}

/// The neighbours of `a`; empty for a node without an entry.
pub open spec fn neighbors(adj: Map<usize, Set<usize>>, a: usize) -> Set<usize> {
    if adj.contains_key(a) {
        adj[a]
    } else {
        Set::empty()
    }
}

/// Some pair of `edges` joins `a` and `b`, in either orientation.
pub open spec fn joins(edges: Seq<(usize, usize)>, a: usize, b: usize) -> bool {
    exists|i: int| 0 <= i < edges.len() && (edges[i] == (a, b) || edges[i] == (b, a))
}

/// Some pair of `edges` has `a` as an endpoint.
pub open spec fn touches(edges: Seq<(usize, usize)>, a: usize) -> bool {
    exists|i: int| 0 <= i < edges.len() && (edges[i].0 == a || edges[i].1 == a)
}

/// The undirected graph of an edge list: a node has an entry exactly when it
/// is an endpoint of some pair, and its neighbours are the nodes that some
/// pair joins it to.
pub open spec fn edge_graph(edges: Seq<(usize, usize)>) -> Map<usize, Set<usize>> {
    Map::new(|a: usize| touches(edges, a), |a: usize| Set::new(|b: usize| joins(edges, a, b)))
}

/// `adj` with `to` added to the neighbours of `from`.
spec fn with_arc(adj: Map<usize, Set<usize>>, from: usize, to: usize) -> Map<usize, Set<usize>> {
    adj.insert(from, neighbors(adj, from).insert(to))
}

/// Puts `to` among the neighbours of `from`, with a new entry where `from`
/// has none yet.
fn add_arc(graph: &mut HashMap<usize, HashSet<usize>>, from: usize, to: usize)
    ensures
        adjacency(*final(graph)) == with_arc(adjacency(*old(graph)), from, to),
{
    let slot = graph.entry(from).or_insert(HashSet::new());
    slot.insert(to);
}

/// Appending one pair to an edge list adds its two arcs to the graph.
proof fn lemma_edge_graph_push(edges: Seq<(usize, usize)>, a: usize, b: usize)
    ensures
        edge_graph(edges.push((a, b))) == with_arc(with_arc(edge_graph(edges), a, b), b, a),
{
    let longer = edges.push((a, b));
    let built = with_arc(with_arc(edge_graph(edges), a, b), b, a);
    assert(longer =~= edges.insert(edges.len() as int, (a, b)));
    lemma_insert_joins(edges, edges.len() as int, a, b);
    assert forall|x: usize| touches(longer, x) <==> touches(edges, x) || x == a || x == b by {
        lemma_touches_is_joined(longer, x);
        lemma_touches_is_joined(edges, x);
        if x == a {
            assert(joins(longer, x, b));
        }
        if x == b {
            assert(joins(longer, x, a));
        }
        if touches(edges, x) {
            let y = choose|y: usize| joins(edges, x, y);
            assert(joins(longer, x, y));
        }
    }
    assert forall|x: usize| #[trigger] built.contains_key(x) implies built[x] =~= edge_graph(
        longer,
    )[x] by {
        assert forall|y: usize| built[x].contains(y) <==> joins(longer, x, y) by {}
    }
    assert(built =~= edge_graph(longer));
}

/// Every ingested pair is an edge of the graph in both directions.
pub proof fn lemma_ingested_edge_present(edges: Seq<(usize, usize)>, i: int)
    requires
        0 <= i < edges.len(),
    ensures
        has_edge(edge_graph(edges), edges[i].0, edges[i].1),
        has_edge(edge_graph(edges), edges[i].1, edges[i].0),
{
    let (a, b) = edges[i];
    assert(touches(edges, a) && touches(edges, b));
    assert(joins(edges, a, b) && joins(edges, b, a));
}

/// The graph of an edge list is symmetric: `b` is a neighbour of `a` exactly
/// when `a` is a neighbour of `b`. Every neighbour has an entry of its own.
pub proof fn lemma_edge_graph_symmetric(edges: Seq<(usize, usize)>, a: usize, b: usize)
    ensures
        has_edge(edge_graph(edges), a, b) == has_edge(edge_graph(edges), b, a),
        has_edge(edge_graph(edges), a, b) ==> edge_graph(edges).contains_key(b),
{
    if joins(edges, a, b) {
        let i = choose|i: int| 0 <= i < edges.len() && (edges[i] == (a, b) || edges[i] == (b, a));
        lemma_ingested_edge_present(edges, i);
    }
    if joins(edges, b, a) {
        let i = choose|i: int| 0 <= i < edges.len() && (edges[i] == (b, a) || edges[i] == (a, b));
        lemma_ingested_edge_present(edges, i);
    }
}

/// No entry is empty: a node of the graph has at least one neighbour.
pub proof fn lemma_edge_graph_no_isolated_node(edges: Seq<(usize, usize)>, a: usize)
    requires
        edge_graph(edges).contains_key(a),
    ensures
        exists|b: usize| has_edge(edge_graph(edges), a, b),
{
    let i = choose|i: int| 0 <= i < edges.len() && (edges[i].0 == a || edges[i].1 == a);
    lemma_ingested_edge_present(edges, i);
    let b = if edges[i].0 == a {
        edges[i].1
    } else {
        edges[i].0
    };
    assert(has_edge(edge_graph(edges), a, b));
}

/// The graph depends only on which nodes the list joins: two lists that join
/// the same nodes give the same graph, whatever the order, orientation or
/// multiplicity of their pairs.
pub proof fn lemma_edge_graph_extensional(first: Seq<(usize, usize)>, second: Seq<(usize, usize)>)
    requires
        forall|a: usize, b: usize| joins(first, a, b) == joins(second, a, b),
    ensures
        edge_graph(first) == edge_graph(second),
{
    assert forall|a: usize| touches(first, a) == touches(second, a) by {
        lemma_touches_is_joined(first, a);
        lemma_touches_is_joined(second, a);
    }
    assert forall|a: usize| #[trigger]
        edge_graph(first).contains_key(a) implies edge_graph(first)[a] =~= edge_graph(second)[a] by {}
    assert(edge_graph(first) =~= edge_graph(second));
}

/// A node is an endpoint of some pair exactly when the list joins it to some node.
proof fn lemma_touches_is_joined(edges: Seq<(usize, usize)>, a: usize)
    ensures
        touches(edges, a) <==> exists|b: usize| joins(edges, a, b),
{
    if touches(edges, a) {
        let i = choose|i: int| 0 <= i < edges.len() && (edges[i].0 == a || edges[i].1 == a);
        let b = if edges[i].0 == a {
            edges[i].1
        } else {
            edges[i].0
        };
        assert(joins(edges, a, b));
    }
    if exists|b: usize| joins(edges, a, b) {
        let b = choose|b: usize| joins(edges, a, b);
        let i = choose|i: int| 0 <= i < edges.len() && (edges[i] == (a, b) || edges[i] == (b, a));
        assert(edges[i].0 == a || edges[i].1 == a);
    }
}

/// Ingestion is idempotent: feeding a pair that the list already holds once
/// more, at any position and in either orientation, leaves the graph as it was.
pub proof fn lemma_repeated_edge_ignored(edges: Seq<(usize, usize)>, i: int, at: int)
    requires
        0 <= i < edges.len(),
        0 <= at <= edges.len(),
    ensures
        edge_graph(edges.insert(at, edges[i])) == edge_graph(edges),
        edge_graph(edges.insert(at, (edges[i].1, edges[i].0))) == edge_graph(edges),
{
    let (a, b) = edges[i];
    lemma_insert_joins(edges, at, a, b);
    lemma_insert_joins(edges, at, b, a);
    assert(joins(edges, a, b) && joins(edges, b, a));
    lemma_edge_graph_extensional(edges.insert(at, (a, b)), edges);
    lemma_edge_graph_extensional(edges.insert(at, (b, a)), edges);
}

/// What a list joins after one more pair is put in at position `at`.
proof fn lemma_insert_joins(edges: Seq<(usize, usize)>, at: int, a: usize, b: usize)
    requires
        0 <= at <= edges.len(),
    ensures
        forall|x: usize, y: usize|
            #![trigger joins(edges.insert(at, (a, b)), x, y)]
            joins(edges.insert(at, (a, b)), x, y) <==> joins(edges, x, y) || (x == a && y == b)
                || (x == b && y == a),
{
    let longer = edges.insert(at, (a, b));
    assert(longer[at] == (a, b));
    assert forall|x: usize, y: usize| joins(longer, x, y) <==> joins(edges, x, y) || (x == a && y
        == b) || (x == b && y == a) by {
        if joins(edges, x, y) {
            let i = choose|i: int| 0 <= i < edges.len() && (edges[i] == (x, y) || edges[i] == (y, x));
            if i < at {
                assert(longer[i] == edges[i]);
            } else {
                assert(longer[i + 1] == edges[i]);
            }
        }
        if joins(longer, x, y) {
            let i = choose|i: int|
                0 <= i < longer.len() && (longer[i] == (x, y) || longer[i] == (y, x));
            if i < at {
                assert(edges[i] == longer[i]);
            } else if i > at {
                assert(edges[i - 1] == longer[i]);
            }
        }
    }
}

/// The order of the pairs is irrelevant: a rearrangement of the list gives
/// the same graph.
pub proof fn lemma_edge_order_irrelevant(first: Seq<(usize, usize)>, second: Seq<(usize, usize)>)
    requires
        first.to_multiset() == second.to_multiset(),
    ensures
        edge_graph(first) == edge_graph(second),
{
    broadcast use vstd::seq_lib::group_to_multiset_ensures;

    assert forall|a: usize, b: usize| joins(first, a, b) == joins(second, a, b) by {
        lemma_joins_is_membership(first, a, b);
        lemma_joins_is_membership(second, a, b);
        assert(first.contains((a, b)) <==> first.to_multiset().count((a, b)) > 0);
        assert(second.contains((a, b)) <==> second.to_multiset().count((a, b)) > 0);
        assert(first.contains((b, a)) <==> first.to_multiset().count((b, a)) > 0);
        assert(second.contains((b, a)) <==> second.to_multiset().count((b, a)) > 0);
    }
    lemma_edge_graph_extensional(first, second);
}

/// A list joins two nodes exactly when it holds their pair in one orientation.
proof fn lemma_joins_is_membership(edges: Seq<(usize, usize)>, a: usize, b: usize)
    ensures
        joins(edges, a, b) <==> edges.contains((a, b)) || edges.contains((b, a)),
{
    if edges.contains((a, b)) {
        let i = choose|i: int| 0 <= i < edges.len() && edges[i] == (a, b);
        assert(joins(edges, a, b));
    }
    if edges.contains((b, a)) {
        let i = choose|i: int| 0 <= i < edges.len() && edges[i] == (b, a);
        assert(joins(edges, a, b));
    }
}

/// Builds the undirected adjacency structure of an edge list: every pair
/// `(a, b)` puts `b` among the neighbours of `a` and `a` among those of `b`.
/// A node has an entry exactly when it is an endpoint of some pair.
pub fn create_graph(edges: Vec<(usize, usize)>) -> (graph: HashMap<usize, HashSet<usize>>)
    ensures
        adjacency(graph) == edge_graph(edges@),
        forall|i: int|
            0 <= i < edges@.len() ==> has_edge(adjacency(graph), (#[trigger] edges@[i]).0, edges@[i].1)
                && has_edge(adjacency(graph), edges@[i].1, edges@[i].0),
        forall|a: usize, b: usize| #[trigger]
            has_edge(adjacency(graph), a, b) ==> has_edge(adjacency(graph), b, a),
{
    let mut graph: HashMap<usize, HashSet<usize>> = HashMap::new();
    assert(adjacency(graph) =~= edge_graph(edges@.take(0)));
    for i in 0..edges.len()
        invariant
            adjacency(graph) == edge_graph(edges@.take(i as int)),
    {
        let (a, b) = edges[i];
        add_arc(&mut graph, a, b);
        add_arc(&mut graph, b, a);
        proof {
            lemma_edge_graph_push(edges@.take(i as int), a, b);
            assert(edges@.take(i as int).push((a, b)) =~= edges@.take(i + 1));
        }
    }
    proof {
        assert(edges@.take(edges.len() as int) =~= edges@);
        assert forall|i: int| 0 <= i < edges@.len() implies has_edge(
            edge_graph(edges@),
            (#[trigger] edges@[i]).0,
            edges@[i].1,
        ) && has_edge(edge_graph(edges@), edges@[i].1, edges@[i].0) by {
            lemma_ingested_edge_present(edges@, i);
        }
        assert forall|a: usize, b: usize| #[trigger]
            has_edge(edge_graph(edges@), a, b) implies has_edge(edge_graph(edges@), b, a) by {
            lemma_edge_graph_symmetric(edges@, a, b);
        }
    }
    graph
}

} // verus!
