//! Walking a hash set: what a loop over its iterator may rely on, whatever
//! order the items come in.

use std::collections::HashSet;
use vstd::prelude::*;
use vstd::std_specs::hash::spec_hash_keys_iter;
use vstd::std_specs::iter::IteratorSpec;

verus! {

broadcast use vstd::std_specs::hash::group_hash_axioms;

/// Every item of `items` is either in `covered` or still to come in `walk`,
/// at position `at` or later.
pub open spec fn covered_or_ahead(
    items: Set<usize>,
    covered: Set<usize>,
    walk: Seq<&usize>,
    at: int,
) -> bool {
    forall|w: usize| #[trigger]
        items.contains(w) ==> covered.contains(w) || exists|j: int|
            at <= j < walk.len() && *#[trigger] walk[j] == w
}

/// What is still to come in `walk`, at position `at` or later, is in `items`.
pub open spec fn ahead_within(items: Set<usize>, walk: Seq<&usize>, at: int) -> bool {
    forall|j: int| at <= j < walk.len() ==> items.contains(*#[trigger] walk[j])
}

/// Whatever order a set is walked in, every item of the walk is in the set.
pub proof fn lemma_walk_within(set: &HashSet<usize>)
    ensures
        ahead_within(set@, spec_hash_keys_iter(set).remaining(), 0),
{
    let walk = spec_hash_keys_iter(set).remaining();
    assert forall|j: int| 0 <= j < walk.len() implies set@.contains(*#[trigger] walk[j]) by {
        assert(walk.unref()[j] == *walk[j]);
        assert(walk.unref().to_set().contains(walk.unref()[j]));
    }
}

} // verus!
