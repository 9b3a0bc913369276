//! Second-degree neighbours: the friends of a user's friends.

use crate::graph::adjacency;
use crate::graph::has_edge;
use crate::graph::neighbors;
use crate::iteration::ahead_within;
use crate::iteration::covered_or_ahead;
use crate::iteration::lemma_walk_within;
use crate::paths::is_hop_distance;
use crate::paths::lemma_reach_extend;
use crate::paths::lemma_reach_last_edge;
use crate::paths::lemma_reach_zero;
use crate::paths::reachable_in;
use std::collections::HashMap;
use std::collections::HashSet;
use vstd::prelude::*;

verus! {

broadcast use vstd::std_specs::hash::group_hash_axioms;

/// The nodes two hops from `user` by way of a neighbour, without `user`
/// itself and without the neighbours of `user`.
pub open spec fn second_degree(adj: Map<usize, Set<usize>>, user: usize) -> Set<usize> {
    Set::new(
        |g: usize|
            g != user && !has_edge(adj, user, g) && exists|f: usize|
                has_edge(adj, user, f) && has_edge(adj, f, g),
    )
}

/// `g` may stand in the result for `user`: it is neither `user` nor one of
/// its neighbours.
spec fn eligible(adj: Map<usize, Set<usize>>, user: usize, g: usize) -> bool {
    g != user && !has_edge(adj, user, g)
}

/// The eligible nodes that have a neighbour among `via`.
spec fn introduced_by(adj: Map<usize, Set<usize>>, user: usize, via: Set<usize>) -> Set<usize> {
    Set::new(
        |g: usize| eligible(adj, user, g) && exists|f: usize| via.contains(f) && has_edge(adj, f, g),
    )
}

/// The eligible nodes among `seen`.
spec fn eligible_among(adj: Map<usize, Set<usize>>, user: usize, seen: Set<usize>) -> Set<usize> {
    Set::new(|g: usize| eligible(adj, user, g) && seen.contains(g))
}

/// The friends of the friends of `user_id`: every node that is a neighbour
/// of a neighbour of `user_id`, except `user_id` itself and its neighbours.
/// A user without an entry in the graph has none.
pub fn friends_of_friends(graph: &HashMap<usize, HashSet<usize>>, user_id: usize) -> (result:
    HashSet<usize>)
    ensures
        result@ == second_degree(adjacency(*graph), user_id),
        !result@.contains(user_id),
        forall|f: usize| has_edge(adjacency(*graph), user_id, f) ==> !result@.contains(f),
        !graph@.contains_key(user_id) ==> result@ == Set::<usize>::empty(),
{
    let mut friends_of_friends: HashSet<usize> = HashSet::new();
    let ghost adj = adjacency(*graph);
    match graph.get(&user_id) {
        Some(friends) => {
            let ghost mut asked: Set<usize> = Set::empty();
            proof {
                assert(friends_of_friends@ =~= introduced_by(adj, user_id, asked));
                lemma_walk_within(friends);
            }
            for friend in outer: friends.iter()
                invariant
                    adj == adjacency(*graph),
                    adj.contains_key(user_id),
                    adj[user_id] == friends@,
                    friends_of_friends@ == introduced_by(adj, user_id, asked),
                    asked.subset_of(friends@),
                    covered_or_ahead(friends@, asked, outer.seq(), outer.index()),
                    ahead_within(friends@, outer.seq(), outer.index()),
            {
                match graph.get(friend) {
                    Some(friends_of_friend) => {
                        let ghost mut seen: Set<usize> = Set::empty();
                        proof {
                            assert(friends_of_friends@ =~= introduced_by(adj, user_id, asked).union(
                                eligible_among(adj, user_id, seen),
                            ));
                            lemma_walk_within(friends_of_friend);
                        }
                        for f_o_f in inner: friends_of_friend.iter()
                            invariant
                                adj == adjacency(*graph),
                                adj.contains_key(user_id),
                                adj[user_id] == friends@,
                                adj.contains_key(*friend),
                                adj[*friend] == friends_of_friend@,
                                friends_of_friends@ == introduced_by(adj, user_id, asked).union(
                                    eligible_among(adj, user_id, seen),
                                ),
                                seen.subset_of(friends_of_friend@),
                                covered_or_ahead(
                                    friends_of_friend@,
                                    seen,
                                    inner.seq(),
                                    inner.index(),
                                ),
                                ahead_within(friends_of_friend@, inner.seq(), inner.index()),
                        {
                            if *f_o_f != user_id && !friends.contains(f_o_f) {
                                friends_of_friends.insert(*f_o_f);
                            }
                            proof {
                                let earlier = introduced_by(adj, user_id, asked);
                                let before = earlier.union(eligible_among(adj, user_id, seen));
                                seen = seen.insert(*f_o_f);
                                assert(earlier.union(eligible_among(adj, user_id, seen))
                                    =~= if eligible(adj, user_id, *f_o_f) {
                                    before.insert(*f_o_f)
                                } else {
                                    before
                                });
                            }
                        }
                        proof {
                            assert(seen =~= friends_of_friend@);
                            lemma_asked_one_more(adj, user_id, asked, *friend);
                        }
                    },
                    None => {
                        proof {
                            lemma_asked_one_more(adj, user_id, asked, *friend);
                            assert(introduced_by(adj, user_id, asked).union(
                                eligible_among(adj, user_id, Set::empty()),
                            ) =~= introduced_by(adj, user_id, asked));
                        }
                    },
                }
                proof {
                    asked = asked.insert(*friend);
                }
            }
            proof {
                assert(asked =~= friends@);
                assert(introduced_by(adj, user_id, asked) =~= second_degree(adj, user_id));
            }
        },
        None => {
            assert(friends_of_friends@ =~= second_degree(adj, user_id));
        },
    }
    friends_of_friends
}

/// The friends of friends of a user are the nodes at hop distance two: a
/// walk of two edges leads to them, and none of fewer.
pub proof fn lemma_second_degree_is_two_hops(adj: Map<usize, Set<usize>>, user: usize, g: usize)
    ensures
        second_degree(adj, user).contains(g) <==> is_hop_distance(adj, user, g, 2),
{
    lemma_reach_zero(adj, user, user);
    lemma_reach_zero(adj, user, g);
    if has_edge(adj, user, g) {
        lemma_reach_extend(adj, user, user, g, 0);
    }
    if reachable_in(adj, user, g, 1) {
        let before = lemma_reach_last_edge(adj, user, g, 1);
        lemma_reach_zero(adj, user, before);
    }
    if second_degree(adj, user).contains(g) {
        let f = choose|f: usize| has_edge(adj, user, f) && has_edge(adj, f, g);
        lemma_reach_extend(adj, user, user, f, 0);
        lemma_reach_extend(adj, user, f, g, 1);
        assert forall|k: nat| k < 2 implies !reachable_in(adj, user, g, k) by {
            assert(k == 0 || k == 1);
        }
    }
    if is_hop_distance(adj, user, g, 2) {
        let f = lemma_reach_last_edge(adj, user, g, 2);
        let first = lemma_reach_last_edge(adj, user, f, 1);
        lemma_reach_zero(adj, user, first);
        assert(has_edge(adj, user, f) && has_edge(adj, f, g));
    }
}

/// Asking one more friend adds the eligible nodes among its neighbours.
proof fn lemma_asked_one_more(
    adj: Map<usize, Set<usize>>,
    user: usize,
    asked: Set<usize>,
    friend: usize,
)
    ensures
        introduced_by(adj, user, asked.insert(friend)) == introduced_by(adj, user, asked).union(
            eligible_among(adj, user, neighbors(adj, friend)),
        ),
{
    let more = introduced_by(adj, user, asked.insert(friend));
    let sum = introduced_by(adj, user, asked).union(
        eligible_among(adj, user, neighbors(adj, friend)),
    );
    assert forall|g: usize| more.contains(g) <==> sum.contains(g) by {
        if more.contains(g) {
            let f = choose|f: usize| asked.insert(friend).contains(f) && has_edge(adj, f, g);
            if f != friend {
                assert(asked.contains(f) && has_edge(adj, f, g));
            }
        }
        if introduced_by(adj, user, asked).contains(g) {
            let f = choose|f: usize| asked.contains(f) && has_edge(adj, f, g);
            assert(asked.insert(friend).contains(f) && has_edge(adj, f, g));
        }
        if eligible_among(adj, user, neighbors(adj, friend)).contains(g) {
            assert(asked.insert(friend).contains(friend) && has_edge(adj, friend, g));
        }
    }
    assert(more =~= sum);
}

} // verus!
