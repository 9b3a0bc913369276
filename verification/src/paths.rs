//! Walks through an adjacency map, reachability and hop distance.

use crate::graph::has_edge;
use vstd::prelude::*;

verus! {

/// Positions `i` and `i + 1` of `path` are joined by an edge.
pub open spec fn hop(adj: Map<usize, Set<usize>>, path: Seq<usize>, i: int) -> bool {
    has_edge(adj, path[i], path[i + 1])
}

/// `path` is a walk of `n` edges that leads from `from` to `to`.
pub open spec fn is_walk(
    adj: Map<usize, Set<usize>>,
    from: usize,
    to: usize,
    n: nat,
    path: Seq<usize>,
) -> bool {
    &&& path.len() == n + 1
    &&& path[0] == from
    &&& path[n as int] == to
    &&& forall|i: int| 0 <= i < n ==> #[trigger] hop(adj, path, i)
}

/// Some walk of exactly `n` edges leads from `from` to `to`.
pub open spec fn reachable_in(adj: Map<usize, Set<usize>>, from: usize, to: usize, n: nat) -> bool {
    exists|path: Seq<usize>| is_walk(adj, from, to, n, path)
}

/// Some walk leads from `from` to `to`. Every node reaches itself, by the
/// walk without edges.
pub open spec fn reachable(adj: Map<usize, Set<usize>>, from: usize, to: usize) -> bool {
    exists|n: nat| reachable_in(adj, from, to, n)
}

/// `d` is the number of edges on a shortest walk from `from` to `to`.
pub open spec fn is_hop_distance(
    adj: Map<usize, Set<usize>>,
    from: usize,
    to: usize,
    d: nat,
) -> bool {
    &&& reachable_in(adj, from, to, d)
    &&& forall|k: nat| k < d ==> !reachable_in(adj, from, to, k)
}

/// The hop distance from `from` to `to`; meaningful where `to` is reachable.
pub open spec fn hop_distance(adj: Map<usize, Set<usize>>, from: usize, to: usize) -> nat {
    choose|d: nat| is_hop_distance(adj, from, to, d)
}

/// The walk without edges leads from a node to itself and nowhere else.
pub proof fn lemma_reach_zero(adj: Map<usize, Set<usize>>, from: usize, to: usize)
    ensures
        reachable_in(adj, from, to, 0) <==> from == to,
{
    if from == to {
        assert(is_walk(adj, from, to, 0, seq![from]));
    }
}

/// A walk can be extended by one edge at its end.
pub proof fn lemma_reach_extend(
    adj: Map<usize, Set<usize>>,
    from: usize,
    mid: usize,
    to: usize,
    n: nat,
)
    requires
        reachable_in(adj, from, mid, n),
        has_edge(adj, mid, to),
    ensures
        reachable_in(adj, from, to, n + 1),
{
    let shorter = choose|path: Seq<usize>| is_walk(adj, from, mid, n, path);
    let longer = shorter.push(to);
    assert forall|i: int| 0 <= i < n + 1 implies #[trigger] hop(adj, longer, i) by {
        if i < n {
            assert(hop(adj, shorter, i));
        }
    }
    assert(is_walk(adj, from, to, n + 1, longer));
}

/// A walk of at least one edge ends with an edge from a node that is
/// reached with one edge less.
pub proof fn lemma_reach_last_edge(
    adj: Map<usize, Set<usize>>,
    from: usize,
    to: usize,
    n: nat,
) -> (mid: usize)
    requires
        n > 0,
        reachable_in(adj, from, to, n),
    ensures
        reachable_in(adj, from, mid, (n - 1) as nat),
        has_edge(adj, mid, to),
{
    let longer = choose|path: Seq<usize>| is_walk(adj, from, to, n, path);
    let shorter = longer.drop_last();
    let mid = longer[n - 1];
    assert(hop(adj, longer, n - 1));
    assert forall|i: int| 0 <= i < n - 1 implies #[trigger] hop(adj, shorter, i) by {
        assert(hop(adj, longer, i));
    }
    assert(is_walk(adj, from, mid, (n - 1) as nat, shorter));
    mid
}

/// Among the lengths of the walks between two nodes there is a least one.
proof fn lemma_least_length(adj: Map<usize, Set<usize>>, from: usize, to: usize, n: nat) -> (d: nat)
    requires
        reachable_in(adj, from, to, n),
    ensures
        d <= n,
        is_hop_distance(adj, from, to, d),
    decreases n,
{
    if exists|k: nat| k < n && reachable_in(adj, from, to, k) {
        let k = choose|k: nat| k < n && reachable_in(adj, from, to, k);
        lemma_least_length(adj, from, to, k)
    } else {
        n
    }
}

/// The hop distance to a reachable node is the length of a shortest walk,
/// and so at most the length of any walk.
pub proof fn lemma_hop_distance_least(adj: Map<usize, Set<usize>>, from: usize, to: usize, n: nat)
    requires
        reachable_in(adj, from, to, n),
    ensures
        reachable(adj, from, to),
        is_hop_distance(adj, from, to, hop_distance(adj, from, to)),
        hop_distance(adj, from, to) <= n,
{
    let d = lemma_least_length(adj, from, to, n);
}

/// To a reachable node there is a walk of exactly the hop distance, and none shorter.
pub proof fn lemma_hop_distance_attained(adj: Map<usize, Set<usize>>, from: usize, to: usize)
    requires
        reachable(adj, from, to),
    ensures
        is_hop_distance(adj, from, to, hop_distance(adj, from, to)),
{
    let n = choose|n: nat| reachable_in(adj, from, to, n);
    lemma_hop_distance_least(adj, from, to, n);
}

/// The length of a shortest walk is the hop distance: there is only one such number.
pub proof fn lemma_hop_distance_unique(adj: Map<usize, Set<usize>>, from: usize, to: usize, d: nat)
    requires
        is_hop_distance(adj, from, to, d),
    ensures
        reachable(adj, from, to),
        hop_distance(adj, from, to) == d,
{
    lemma_hop_distance_least(adj, from, to, d);
}

/// A node is at distance zero from itself, and no other node is.
pub proof fn lemma_hop_distance_zero(adj: Map<usize, Set<usize>>, from: usize, to: usize)
    ensures
        reachable(adj, from, from),
        hop_distance(adj, from, from) == 0,
        reachable(adj, from, to) && hop_distance(adj, from, to) == 0 ==> to == from,
{
    lemma_reach_zero(adj, from, from);
    lemma_hop_distance_least(adj, from, from, 0);
    if reachable(adj, from, to) && hop_distance(adj, from, to) == 0 {
        lemma_hop_distance_attained(adj, from, to);
        lemma_reach_zero(adj, from, to);
    }
}

/// Following one edge raises the hop distance by at most one.
pub proof fn lemma_hop_distance_across_edge(
    adj: Map<usize, Set<usize>>,
    from: usize,
    mid: usize,
    to: usize,
)
    requires
        reachable(adj, from, mid),
        has_edge(adj, mid, to),
    ensures
        reachable(adj, from, to),
        hop_distance(adj, from, to) <= hop_distance(adj, from, mid) + 1,
{
    lemma_hop_distance_attained(adj, from, mid);
    let d = hop_distance(adj, from, mid);
    lemma_reach_extend(adj, from, mid, to, d);
    lemma_hop_distance_least(adj, from, to, d + 1);
}

/// A reachable node other than the origin has a neighbour that is one hop
/// closer to the origin.
pub proof fn lemma_hop_distance_predecessor(
    adj: Map<usize, Set<usize>>,
    from: usize,
    to: usize,
) -> (mid: usize)
    requires
        reachable(adj, from, to),
        hop_distance(adj, from, to) > 0,
    ensures
        reachable(adj, from, mid),
        has_edge(adj, mid, to),
        hop_distance(adj, from, mid) + 1 == hop_distance(adj, from, to),
{
    lemma_hop_distance_attained(adj, from, to);
    let d = hop_distance(adj, from, to);
    let mid = lemma_reach_last_edge(adj, from, to, d);
    lemma_hop_distance_least(adj, from, mid, (d - 1) as nat);
    lemma_hop_distance_across_edge(adj, from, mid, to);
    mid
}

} // verus!
