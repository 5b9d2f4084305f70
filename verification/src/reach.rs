//! Bounded reachability over the adjacency model, and the facts about it that
//! the traversal and its callers rely on.

use crate::graph::has_arc;
use vstd::prelude::*;

verus! {

/// Whether `v` can be reached from `start` by following at most `d` arcs of `g`.
pub open spec fn within(g: Map<u32, Seq<u32>>, start: u32, v: u32, d: nat) -> bool
    decreases d,
{
    if d == 0 {
        v == start
    } else {
        within(g, start, v, (d - 1) as nat) || exists|u: u32|
            #[trigger] has_arc(g, u, v) && within(g, start, u, (d - 1) as nat)
    }
}

/// All nodes at most `d` hops from `start`, `start` included.
pub open spec fn reachable_set(g: Map<u32, Seq<u32>>, start: u32, d: nat) -> Set<u32> {
    Set::new(|v: u32| within(g, start, v, d))
}

/// A larger hop bound never loses a node.
pub proof fn lemma_within_monotone(g: Map<u32, Seq<u32>>, start: u32, v: u32, d1: nat, d2: nat)
    requires
        d1 <= d2,
        within(g, start, v, d1),
    ensures
        within(g, start, v, d2),
    decreases d2,
{
    if d1 < d2 {
        lemma_within_monotone(g, start, v, d1, (d2 - 1) as nat);
    }
}

/// With no hops allowed, only the start node is reached, whether or not the
/// graph has an entry for it.
pub proof fn lemma_zero_hops_is_start(g: Map<u32, Seq<u32>>, start: u32)
    ensures
        reachable_set(g, start, 0) == set![start],
{
    assert(reachable_set(g, start, 0) =~= set![start]);
}

/// Raising the hop bound can only grow the reachable set.
pub proof fn lemma_reachable_set_monotone(g: Map<u32, Seq<u32>>, start: u32, d1: nat, d2: nat)
    requires
        d1 <= d2,
    ensures
        reachable_set(g, start, d1).subset_of(reachable_set(g, start, d2)),
{
    assert forall|v: u32| reachable_set(g, start, d1).contains(v) implies reachable_set(
        g,
        start,
        d2,
    ).contains(v) by {
        lemma_within_monotone(g, start, v, d1, d2);
    }
}

/// The start node is reached under every hop bound.
pub proof fn lemma_start_is_reached(g: Map<u32, Seq<u32>>, start: u32, d: nat)
    ensures
        reachable_set(g, start, d).contains(start),
{
    lemma_within_monotone(g, start, start, 0, d);
}

} // verus!
