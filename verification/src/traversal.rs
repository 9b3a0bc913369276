//! Breadth-first searches over an adjacency structure: hop distances within
//! a depth cap, and the visit order of everything that can be reached.

use crate::graph::adjacency;
use crate::graph::has_edge;
use crate::iteration::covered_or_ahead;
use crate::paths::hop_distance;
use crate::paths::is_hop_distance;
use crate::paths::lemma_hop_distance_across_edge;
use crate::paths::lemma_hop_distance_attained;
use crate::paths::lemma_hop_distance_predecessor;
use crate::paths::lemma_hop_distance_zero;
use crate::paths::reachable;
use std::collections::HashMap;
use std::collections::HashSet;
use std::collections::VecDeque;
use vstd::prelude::*;
use vstd::set_lib::lemma_int_range;
use vstd::set_lib::set_int_range;

verus! {

broadcast use vstd::std_specs::hash::group_hash_axioms;

/// A node at hop distance `d` belongs to the search. `None` is no cap.
spec fn admits(cap: Option<nat>, d: nat) -> bool {
    match cap {
        Some(c) => d <= c,
        None => true,
    }
}

/// The neighbours of a node at hop distance `d` belong to the search.
spec fn expands(cap: Option<nat>, d: nat) -> bool {
    match cap {
        Some(c) => d < c,
        None => true,
    }
}

/// The frontier is in order of hop distance and spans at most two levels.
spec fn levelled(adj: Map<usize, Set<usize>>, origin: usize, frontier: Seq<usize>) -> bool {
    forall|i: int, j: int|
        #![trigger frontier[i], frontier[j]]
        0 <= i <= j < frontier.len() ==> {
            let near = hop_distance(adj, origin, frontier[i]);
            let far = hop_distance(adj, origin, frontier[j]);
            near <= far <= near + 1
        }
}

/// What a search knows at every moment: `found` are the nodes discovered so
/// far, `frontier` those of them that wait for their turn, in order, and
/// `done` those that had it.
spec fn search_state(
    adj: Map<usize, Set<usize>>,
    origin: usize,
    cap: Option<nat>,
    found: Set<usize>,
    frontier: Seq<usize>,
    done: Set<usize>,
) -> bool {
    &&& found.contains(origin)
    &&& forall|v: usize| #[trigger]
        found.contains(v) ==> reachable(adj, origin, v) && admits(cap, hop_distance(adj, origin, v))
    &&& forall|i: int|
        0 <= i < frontier.len() ==> found.contains(#[trigger] frontier[i]) && !done.contains(
            frontier[i],
        )
    &&& frontier.no_duplicates()
    &&& levelled(adj, origin, frontier)
    &&& forall|u: usize| #[trigger] done.contains(u) ==> found.contains(u)
    &&& forall|u: usize, w: usize|
        #![trigger done.contains(u), has_edge(adj, u, w)]
        done.contains(u) && expands(cap, hop_distance(adj, origin, u)) && has_edge(adj, u, w)
            ==> found.contains(w)
}

/// Every node that can be reached within `level` hops is found, and every
/// node that had its turn is within `level` hops.
spec fn settled_up_to(
    adj: Map<usize, Set<usize>>,
    origin: usize,
    found: Set<usize>,
    done: Set<usize>,
    level: nat,
) -> bool {
    &&& forall|v: usize| #[trigger]
        reachable(adj, origin, v) && hop_distance(adj, origin, v) <= level ==> found.contains(v)
    &&& forall|u: usize| #[trigger] done.contains(u) ==> hop_distance(adj, origin, u) <= level
}

/// What a search knows between two turns.
spec fn between_turns(
    adj: Map<usize, Set<usize>>,
    origin: usize,
    cap: Option<nat>,
    found: Set<usize>,
    frontier: Seq<usize>,
    done: Set<usize>,
) -> bool {
    &&& search_state(adj, origin, cap, found, frontier, done)
    &&& forall|v: usize| #[trigger] found.contains(v) ==> done.contains(v) || frontier.contains(v)
    &&& frontier.len() > 0 ==> settled_up_to(
        adj,
        origin,
        found,
        done,
        hop_distance(adj, origin, frontier[0]),
    )
}

/// What a search knows while node `current` has its turn.
spec fn during_turn(
    adj: Map<usize, Set<usize>>,
    origin: usize,
    cap: Option<nat>,
    found: Set<usize>,
    frontier: Seq<usize>,
    done: Set<usize>,
    current: usize,
) -> bool {
    &&& search_state(adj, origin, cap, found, frontier, done)
    &&& found.contains(current)
    &&& !done.contains(current)
    &&& forall|i: int|
        0 <= i < frontier.len() ==> {
            let here = hop_distance(adj, origin, current);
            &&& #[trigger] frontier[i] != current
            &&& here <= hop_distance(adj, origin, frontier[i]) <= here + 1
        }
    &&& forall|v: usize| #[trigger]
        found.contains(v) ==> done.contains(v) || v == current || frontier.contains(v)
    &&& settled_up_to(adj, origin, found, done, hop_distance(adj, origin, current))
}

/// A search starts with the origin alone, waiting for its turn.
proof fn lemma_search_start(adj: Map<usize, Set<usize>>, origin: usize, cap: Option<nat>)
    ensures
        between_turns(adj, origin, cap, set![origin], seq![origin], Set::empty()),
{
    lemma_hop_distance_zero(adj, origin, origin);
    assert forall|v: usize| #[trigger]
        reachable(adj, origin, v) && hop_distance(adj, origin, v) <= 0 implies v == origin by {
        lemma_hop_distance_zero(adj, origin, v);
    }
    assert(seq![origin][0] == origin);
}

/// The first node of the frontier takes its turn.
proof fn lemma_search_take(
    adj: Map<usize, Set<usize>>,
    origin: usize,
    cap: Option<nat>,
    found: Set<usize>,
    frontier: Seq<usize>,
    done: Set<usize>,
)
    requires
        between_turns(adj, origin, cap, found, frontier, done),
        frontier.len() > 0,
    ensures
        during_turn(adj, origin, cap, found, frontier.drop_first(), done, frontier[0]),
{
    let rest = frontier.drop_first();
    assert forall|i: int| 0 <= i < rest.len() implies #[trigger] rest[i] == frontier[i + 1] by {}
    assert forall|v: usize| #[trigger] found.contains(v) implies done.contains(v) || v
        == frontier[0] || rest.contains(v) by {
        if !done.contains(v) && v != frontier[0] {
            let i = choose|i: int| 0 <= i < frontier.len() && frontier[i] == v;
            assert(rest[i - 1] == v);
        }
    }
}

/// During the turn of `current`, a neighbour that was not found yet is
/// found one hop further out and joins the end of the frontier.
proof fn lemma_search_discover(
    adj: Map<usize, Set<usize>>,
    origin: usize,
    cap: Option<nat>,
    found: Set<usize>,
    frontier: Seq<usize>,
    done: Set<usize>,
    current: usize,
    next: usize,
)
    requires
        during_turn(adj, origin, cap, found, frontier, done, current),
        expands(cap, hop_distance(adj, origin, current)),
        has_edge(adj, current, next),
        !found.contains(next),
    ensures
        during_turn(adj, origin, cap, found.insert(next), frontier.push(next), done, current),
        reachable(adj, origin, next),
        hop_distance(adj, origin, next) == hop_distance(adj, origin, current) + 1,
{
    lemma_hop_distance_across_edge(adj, origin, current, next);
    let longer = frontier.push(next);
    assert forall|i: int| 0 <= i < frontier.len() implies #[trigger] longer[i] == frontier[i] by {}
    assert(longer[frontier.len() as int] == next);
    assert forall|v: usize| #[trigger] found.insert(next).contains(v) implies done.contains(v) || v
        == current || longer.contains(v) by {
        if v != next && !done.contains(v) && v != current {
            let i = choose|i: int| 0 <= i < frontier.len() && frontier[i] == v;
            assert(longer[i] == v);
        }
    }
}

/// The turn of `current` ends once all the neighbours that belong to the
/// search are found.
proof fn lemma_search_close(
    adj: Map<usize, Set<usize>>,
    origin: usize,
    cap: Option<nat>,
    found: Set<usize>,
    frontier: Seq<usize>,
    done: Set<usize>,
    current: usize,
)
    requires
        during_turn(adj, origin, cap, found, frontier, done, current),
        forall|w: usize|
            expands(cap, hop_distance(adj, origin, current)) && #[trigger] has_edge(adj, current, w)
                ==> found.contains(w),
    ensures
        between_turns(adj, origin, cap, found, frontier, done.insert(current)),
{
    let closed = done.insert(current);
    if frontier.len() > 0 {
        let here = hop_distance(adj, origin, current);
        let level = hop_distance(adj, origin, frontier[0]);
        assert forall|v: usize| #[trigger]
            reachable(adj, origin, v) && hop_distance(adj, origin, v) <= level implies found.contains(
            v,
        ) by {
            if hop_distance(adj, origin, v) > here {
                let before = lemma_hop_distance_predecessor(adj, origin, v);
                assert(found.contains(before));
                if frontier.contains(before) {
                    let i = choose|i: int| 0 <= i < frontier.len() && frontier[i] == before;
                    assert(level <= hop_distance(adj, origin, frontier[i]));
                }
                assert(closed.contains(before));
                assert(found.contains(frontier[0]));
                assert(has_edge(adj, before, v));
            }
        }
    }
    assert forall|u: usize, w: usize|
        #![trigger closed.contains(u), has_edge(adj, u, w)]
        closed.contains(u) && expands(cap, hop_distance(adj, origin, u)) && has_edge(adj, u, w)
        implies found.contains(w) by {
        if u != current {
            assert(done.contains(u));
        }
    }
}

/// With nothing on the frontier every node that belongs to the search is found.
proof fn lemma_search_complete(
    adj: Map<usize, Set<usize>>,
    origin: usize,
    cap: Option<nat>,
    found: Set<usize>,
    done: Set<usize>,
    v: usize,
    d: nat,
)
    requires
        between_turns(adj, origin, cap, found, Seq::empty(), done),
        reachable(adj, origin, v),
        hop_distance(adj, origin, v) == d,
        admits(cap, d),
    ensures
        found.contains(v),
    decreases d,
{
    if d == 0 {
        lemma_hop_distance_zero(adj, origin, v);
    } else {
        let before = lemma_hop_distance_predecessor(adj, origin, v);
        lemma_search_complete(adj, origin, cap, found, done, before, (d - 1) as nat);
        assert(!Seq::<usize>::empty().contains(before));
        assert(done.contains(before));
        assert(has_edge(adj, before, v));
    }
}

/// With nothing on the frontier the search has found exactly the nodes that
/// belong to it.
proof fn lemma_search_finish(
    adj: Map<usize, Set<usize>>,
    origin: usize,
    cap: Option<nat>,
    found: Set<usize>,
    done: Set<usize>,
)
    requires
        between_turns(adj, origin, cap, found, Seq::empty(), done),
    ensures
        forall|v: usize|
            found.contains(v) <==> reachable(adj, origin, v) && admits(
                cap,
                hop_distance(adj, origin, v),
            ),
{
    assert forall|v: usize|
        reachable(adj, origin, v) && admits(cap, hop_distance(adj, origin, v))
        implies found.contains(v) by {
        lemma_search_complete(adj, origin, cap, found, done, v, hop_distance(adj, origin, v));
    }
}

/// How many nodes a search has not found yet.
spec fn unfound(found: Set<usize>) -> nat {
    Set::<usize>::full().difference(found).len()
}

/// Node IDs are machine words, so there are finitely many of them.
proof fn lemma_nodes_finite()
    ensures
        Set::<usize>::full().finite(),
{
    let words = set_int_range(0, usize::MAX + 1);
    let as_node = |i: int| i as usize;
    lemma_int_range(0, usize::MAX + 1);
    words.lemma_map_finite(as_node);
    assert forall|v: usize| words.map(as_node).contains(v) by {
        assert(words.contains(v as int) && as_node(v as int) == v);
    }
    assert(words.map(as_node) =~= Set::<usize>::full());
}

/// Each node that is found leaves one node less to find.
proof fn lemma_unfound_shrinks(found: Set<usize>, next: usize)
    requires
        !found.contains(next),
    ensures
        unfound(found.insert(next)) + 1 == unfound(found),
{
    lemma_nodes_finite();
    let before = Set::<usize>::full().difference(found);
    assert(Set::<usize>::full().difference(found.insert(next)) =~= before.remove(next));
    assert(before.contains(next));
}

/// The nodes of a queue of (node, depth) entries, in order.
spec fn waiting(queue: Seq<(usize, usize)>) -> Seq<usize> {
    Seq::new(queue.len(), |i: int| queue[i].0)
}

/// Every depth that the search has recorded, in the result or in the queue,
/// is the hop distance of its node.
spec fn recorded(
    adj: Map<usize, Set<usize>>,
    origin: usize,
    degrees: Map<usize, usize>,
    queue: Seq<(usize, usize)>,
) -> bool {
    &&& forall|v: usize| #[trigger]
        degrees.contains_key(v) ==> degrees[v] == hop_distance(adj, origin, v)
    &&& forall|i: int|
        0 <= i < queue.len() ==> (#[trigger] queue[i]).1 == hop_distance(adj, origin, queue[i].0)
}

/// The hop distance of every node within `cap` hops of `origin`. A node
/// further out, or one that cannot be reached, has no entry; an origin that
/// is not a node of the graph reaches nothing.
pub open spec fn hop_distances(adj: Map<usize, Set<usize>>, origin: usize, cap: usize) -> Map<
    usize,
    usize,
> {
    Map::new(
        |v: usize|
            adj.contains_key(origin) && reachable(adj, origin, v) && hop_distance(adj, origin, v)
                <= cap,
        |v: usize| hop_distance(adj, origin, v) as usize,
    )
}

/// Breadth-first search from `start` that stops `depth_cap` hops out. The
/// result maps every node within the cap to its hop distance from `start`,
/// which is the length of a shortest walk to it. A node further out, or one
/// that cannot be reached, has no entry. The result is empty where `start`
/// has no entry in the graph.
pub fn bounded_bfs(graph: &HashMap<usize, HashSet<usize>>, start: usize, depth_cap: usize) -> (degrees:
    HashMap<usize, usize>)
    ensures
        degrees@ == hop_distances(adjacency(*graph), start, depth_cap),
        forall|v: usize| #[trigger]
            degrees@.contains_key(v) ==> degrees@[v] <= depth_cap && is_hop_distance(
                adjacency(*graph),
                start,
                v,
                degrees@[v] as nat,
            ),
{
    let mut degrees: HashMap<usize, usize> = HashMap::new();
    if !graph.contains_key(&start) {
        assert(degrees@ =~= hop_distances(adjacency(*graph), start, depth_cap));
        return degrees;
    }
    let mut queue: VecDeque<(usize, usize)> = VecDeque::new();
    degrees.insert(start, 0);
    queue.push_back((start, 0));

    let ghost adj = adjacency(*graph);
    let ghost cap = Some(depth_cap as nat);
    let ghost mut done: Set<usize> = Set::empty();
    proof {
        lemma_search_start(adj, start, cap);
        lemma_hop_distance_zero(adj, start, start);
        assert(degrees@.dom() =~= set![start]);
        assert(waiting(queue@) =~= seq![start]);
    }
    while queue.len() > 0
        invariant
            adj == adjacency(*graph),
            cap == Some(depth_cap as nat),
            adj.contains_key(start),
            between_turns(adj, start, cap, degrees@.dom(), waiting(queue@), done),
            recorded(adj, start, degrees@, queue@),
        decreases unfound(degrees@.dom()) + queue@.len(),
    {
        let ghost before = queue@;
        let (node, depth) = queue.pop_front().unwrap();
        proof {
            lemma_search_take(adj, start, cap, degrees@.dom(), waiting(before), done);
            assert(waiting(queue@) =~= waiting(before).drop_first());
        }
        if depth < depth_cap {
            match graph.get(&node) {
                Some(neighbor_nodes) => {
                    let ghost budget = unfound(degrees@.dom()) + queue@.len();
                    for neighbor in it: neighbor_nodes.iter()
                        invariant
                            adj == adjacency(*graph),
                            cap == Some(depth_cap as nat),
                            depth < depth_cap,
                            depth == hop_distance(adj, start, node),
                            adj.contains_key(node),
                            adj[node] == neighbor_nodes@,
                            during_turn(adj, start, cap, degrees@.dom(), waiting(queue@), done, node),
                            recorded(adj, start, degrees@, queue@),
                            covered_or_ahead(neighbor_nodes@, degrees@.dom(), it.seq(), it.index()),
                            unfound(degrees@.dom()) + queue@.len() == budget,
                    {
                        if !degrees.contains_key(neighbor) {
                            proof {
                                lemma_search_discover(
                                    adj,
                                    start,
                                    cap,
                                    degrees@.dom(),
                                    waiting(queue@),
                                    done,
                                    node,
                                    *neighbor,
                                );
                                lemma_unfound_shrinks(degrees@.dom(), *neighbor);
                                assert(waiting(queue@.push((*neighbor, (depth + 1) as usize)))
                                    =~= waiting(queue@).push(*neighbor));
                                assert(degrees@.insert(*neighbor, (depth + 1) as usize).dom()
                                    =~= degrees@.dom().insert(*neighbor));
                            }
                            queue.push_back((*neighbor, depth + 1));
                            degrees.insert(*neighbor, depth + 1);
                        }
                    }
                    assert forall|w: usize| #[trigger]
                        has_edge(adj, node, w) implies degrees@.contains_key(w) by {
                        assert(neighbor_nodes@.contains(w));
                    }
                },
                None => {},
            }
        }
        proof {
            lemma_search_close(adj, start, cap, degrees@.dom(), waiting(queue@), done, node);
            done = done.insert(node);
        }
    }
    proof {
        assert(waiting(queue@) =~= Seq::<usize>::empty());
        lemma_search_finish(adj, start, cap, degrees@.dom(), done);
        assert forall|v: usize| #[trigger] degrees@.contains_key(v) implies degrees@[v]
            <= depth_cap && is_hop_distance(adj, start, v, degrees@[v] as nat) by {
            lemma_hop_distance_attained(adj, start, v);
        }
        assert(degrees@ =~= hop_distances(adj, start, depth_cap));
    }
    degrees
}

/// The hop distance from `start` of every node at most six hops away.
pub fn sixdegrees(graph: &HashMap<usize, HashSet<usize>>, start: usize) -> (degrees: HashMap<
    usize,
    usize,
>)
    ensures
        degrees@ == hop_distances(adjacency(*graph), start, 6),
        forall|v: usize| #[trigger]
            degrees@.contains_key(v) ==> degrees@[v] <= 6 && is_hop_distance(
                adjacency(*graph),
                start,
                v,
                degrees@[v] as nat,
            ),
{
    bounded_bfs(graph, start, 6)
}

/// The visits are in order of hop distance from `origin`.
pub open spec fn nearest_first(adj: Map<usize, Set<usize>>, origin: usize, order: Seq<usize>) -> bool {
    forall|i: int, j: int|
        #![trigger order[i], order[j]]
        0 <= i <= j < order.len() ==> hop_distance(adj, origin, order[i]) <= hop_distance(
            adj,
            origin,
            order[j],
        )
}

/// Breadth-first search from `start` without a depth cap. The result lists
/// every node that can be reached from `start`, each exactly once, `start`
/// first and then in order of hop distance. In which order the nodes of one
/// distance come is left open: it follows the iteration order of the
/// neighbour sets, which is not fixed. A `start` without an entry in the
/// graph is visited alone.
pub fn bfs(graph: &HashMap<usize, HashSet<usize>>, start: usize) -> (order: Vec<usize>)
    ensures
        order@.len() > 0,
        order@[0] == start,
        order@.no_duplicates(),
        forall|v: usize| order@.contains(v) <==> reachable(adjacency(*graph), start, v),
        nearest_first(adjacency(*graph), start, order@),
{
    let mut visit_history: HashSet<usize> = HashSet::new();
    let mut line: VecDeque<usize> = VecDeque::new();
    let mut order: Vec<usize> = Vec::new();
    visit_history.insert(start);
    line.push_back(start);

    let ghost adj = adjacency(*graph);
    proof {
        lemma_search_start(adj, start, None);
        assert(visit_history@ =~= set![start]);
        assert(line@ =~= seq![start]);
        assert(order@.to_set() =~= Set::empty());
    }
    while line.len() > 0
        invariant
            adj == adjacency(*graph),
            between_turns(adj, start, None, visit_history@, line@, order@.to_set()),
            order@.no_duplicates(),
            nearest_first(adj, start, order@),
            order@.len() > 0 ==> order@[0] == start,
            order@.len() == 0 ==> line@.len() > 0 && line@[0] == start,
        decreases unfound(visit_history@) + line@.len(),
    {
        let ghost before = line@;
        let ghost visited = order@;
        let node = line.pop_front().unwrap();
        order.push(node);
        proof {
            lemma_search_take(adj, start, None, visit_history@, before, visited.to_set());
            assert(line@ =~= before.drop_first());
            assert(order@.no_duplicates()) by {
                assert forall|i: int| 0 <= i < visited.len() implies visited[i] != node by {
                    assert(visited.to_set().contains(visited[i]));
                }
            }
            assert(nearest_first(adj, start, order@)) by {
                assert forall|i: int| 0 <= i < visited.len() implies hop_distance(
                    adj,
                    start,
                    #[trigger] visited[i],
                ) <= hop_distance(adj, start, node) by {
                    assert(visited.to_set().contains(visited[i]));
                }
            }
        }
        match graph.get(&node) {
            Some(neighbor_nodes) => {
                let ghost budget = unfound(visit_history@) + line@.len();
                for neighbor in it: neighbor_nodes.iter()
                    invariant
                        adj == adjacency(*graph),
                        adj.contains_key(node),
                        adj[node] == neighbor_nodes@,
                        during_turn(adj, start, None, visit_history@, line@, visited.to_set(), node),
                        covered_or_ahead(neighbor_nodes@, visit_history@, it.seq(), it.index()),
                        unfound(visit_history@) + line@.len() == budget,
                {
                    if !visit_history.contains(neighbor) {
                        proof {
                            lemma_search_discover(
                                adj,
                                start,
                                None,
                                visit_history@,
                                line@,
                                visited.to_set(),
                                node,
                                *neighbor,
                            );
                            lemma_unfound_shrinks(visit_history@, *neighbor);
                        }
                        visit_history.insert(*neighbor);
                        line.push_back(*neighbor);
                    }
                }
                assert forall|w: usize| #[trigger]
                    has_edge(adj, node, w) implies visit_history@.contains(w) by {
                    assert(neighbor_nodes@.contains(w));
                }
            },
            None => {},
        }
        proof {
            lemma_search_close(adj, start, None, visit_history@, line@, visited.to_set(), node);
            visited.lemma_push_to_set_commute(node);
        }
    }
    proof {
        assert(line@ =~= Seq::<usize>::empty());
        lemma_search_finish(adj, start, None, visit_history@, order@.to_set());
        assert forall|v: usize| order@.contains(v) <==> reachable(adj, start, v) by {
            assert(order@.contains(v) <==> order@.to_set().contains(v));
            assert(visit_history@.contains(v) <==> order@.to_set().contains(v)) by {
                assert(!line@.contains(v));
            }
        }
    }
    order
}

} // verus!
