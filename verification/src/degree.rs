//! Arc counts per node, over arc sequences and over arc sets.

use crate::graph::Edge;
use std::collections::HashMap;
use vstd::prelude::*;

verus! {

/// The endpoint of `e` that a count looks at: its origin or its target.
pub open spec fn endpoint(e: Edge, origin: bool) -> u32 {
    if origin {
        e.from
    } else {
        e.to
    }
}

/// How many arcs of the sequence have `v` at the chosen end. An arc that
/// occurs twice counts twice.
pub open spec fn end_count(arcs: Seq<Edge>, origin: bool, v: u32) -> nat {
    arcs.filter(|e: Edge| endpoint(e, origin) == v).len()
}

/// How many arcs of the sequence leave `v`.
pub open spec fn out_degree(arcs: Seq<Edge>, v: u32) -> nat {
    end_count(arcs, true, v)
}

/// The arcs of the set that have `v` at the chosen end.
pub open spec fn arcs_at(edges: Set<Edge>, origin: bool, v: u32) -> Set<Edge> {
    edges.filter(|e: Edge| endpoint(e, origin) == v)
}

/// Arcs leaving `v` plus arcs entering `v`. A self-loop counts twice.
pub open spec fn degree(edges: Set<Edge>, v: u32) -> nat {
    arcs_at(edges, true, v).len() + arcs_at(edges, false, v).len()
}

/// The count a tally holds for `v`; zero where it has no entry.
pub open spec fn tally_at(counts: Map<u32, usize>, v: u32) -> nat {
    if counts.contains_key(v) {
        counts[v] as nat
    } else {
        0
    }
}

/// No arc, no count.
pub proof fn lemma_end_count_empty(origin: bool, v: u32)
    ensures
        end_count(Seq::<Edge>::empty(), origin, v) == 0,
{
    reveal(Seq::filter);
}

/// One more arc raises the count of its endpoint by one and no other.
pub proof fn lemma_end_count_push(arcs: Seq<Edge>, e: Edge, origin: bool, v: u32)
    ensures
        end_count(arcs.push(e), origin, v) == end_count(arcs, origin, v) + if endpoint(e, origin)
            == v {
            1nat
        } else {
            0nat
        },
        end_count(arcs, origin, v) <= arcs.len(),
{
    let p = |e: Edge| endpoint(e, origin) == v;
    arcs.lemma_filter_len_push(p, e);
    arcs.lemma_filter_len(p);
}

/// A prefix never counts more than the whole sequence.
pub proof fn lemma_end_count_prefix(arcs: Seq<Edge>, i: int, origin: bool, v: u32)
    requires
        0 <= i <= arcs.len(),
    ensures
        end_count(arcs.take(i), origin, v) <= end_count(arcs, origin, v),
        end_count(arcs.take(i), origin, v) <= i,
{
    let p = |e: Edge| endpoint(e, origin) == v;
    arcs.lemma_filter_take_len(p, i);
    arcs.take(i).lemma_filter_len(p);
}

/// In a sequence without repeats, counting arcs is counting members of its set.
pub proof fn lemma_end_count_of_set(arcs: Seq<Edge>, origin: bool, v: u32)
    requires
        arcs.no_duplicates(),
    ensures
        arcs.to_set().finite(),
        arcs_at(arcs.to_set(), origin, v).finite(),
        end_count(arcs, origin, v) == arcs_at(arcs.to_set(), origin, v).len(),
    decreases arcs.len(),
{
    broadcast use vstd::seq_lib::seq_to_set_is_finite;

    let p = |e: Edge| endpoint(e, origin) == v;
    arcs.to_set().lemma_len_filter(p);
    if arcs.len() == 0 {
        lemma_end_count_empty(origin, v);
        assert(arcs =~= Seq::<Edge>::empty());
        assert(arcs_at(arcs.to_set(), origin, v) =~= Set::<Edge>::empty());
    } else {
        let init = arcs.drop_last();
        let last = arcs.last();
        assert(arcs =~= init.push(last));
        lemma_end_count_of_set(init, origin, v);
        lemma_end_count_push(init, last, origin, v);
        assert(!init.to_set().contains(last)) by {
            if init.contains(last) {
                let k = choose|k: int| 0 <= k < init.len() && init[k] == last;
                assert(arcs[k] == arcs[arcs.len() - 1]);
            }
        }
        assert(arcs.to_set() =~= init.to_set().insert(last)) by {
            assert forall|e: Edge| arcs.to_set().contains(e) <==> init.to_set().insert(
                last,
            ).contains(e) by {
                if arcs.contains(e) {
                    let k = choose|k: int| 0 <= k < arcs.len() && arcs[k] == e;
                    if k < init.len() {
                        assert(init[k] == e);
                    }
                }
                if init.contains(e) {
                    let k = choose|k: int| 0 <= k < init.len() && init[k] == e;
                    assert(arcs[k] == e);
                }
                if e == last {
                    assert(arcs[arcs.len() - 1] == e);
                }
            }
        }
        if endpoint(last, origin) == v {
            assert(arcs_at(arcs.to_set(), origin, v) =~= arcs_at(init.to_set(), origin, v).insert(
                last,
            ));
        } else {
            assert(arcs_at(arcs.to_set(), origin, v) =~= arcs_at(init.to_set(), origin, v));
        }
    }
}

/// Counts, for every node, the arcs of `arcs` that have it at the chosen end.
/// Nodes that no arc has there get no entry.
pub fn tally(arcs: &[Edge], origin: bool) -> (counts: HashMap<u32, usize>)
    ensures
        forall|v: u32| counts@.contains_key(v) <==> end_count(arcs@, origin, v) > 0,
        forall|v: u32| tally_at(counts@, v) == end_count(arcs@, origin, v),
{
    broadcast use vstd::std_specs::hash::group_hash_axioms;

    let mut counts: HashMap<u32, usize> = HashMap::new();
    let mut i: usize = 0;
    proof {
        assert(arcs@.take(0) =~= Seq::<Edge>::empty());
        assert forall|v: u32| end_count(arcs@.take(0), origin, v) == 0 by {
            lemma_end_count_empty(origin, v);
        }
    }
    while i < arcs.len()
        invariant
            i <= arcs.len(),
            forall|v: u32|
                counts@.contains_key(v) <==> end_count(arcs@.take(i as int), origin, v) > 0,
            forall|v: u32| tally_at(counts@, v) == end_count(arcs@.take(i as int), origin, v),
        decreases arcs.len() - i,
    {
        let key = if origin {
            arcs[i].from
        } else {
            arcs[i].to
        };
        let seen: usize = match counts.get(&key) {
            Some(c) => *c,
            None => 0,
        };
        let ghost before = counts@;
        let ghost prefix = arcs@.take(i as int);
        proof {
            assert(seen == tally_at(before, key));
            lemma_end_count_prefix(arcs@, i as int, origin, key);
        }
        counts.insert(key, seen + 1);
        proof {
            let longer = arcs@.take(i + 1);
            assert(longer =~= prefix.push(arcs@[i as int]));
            assert forall|v: u32| tally_at(counts@, v) == end_count(longer, origin, v) by {
                lemma_end_count_push(prefix, arcs@[i as int], origin, v);
                assert(tally_at(before, v) == end_count(prefix, origin, v));
            }
            assert forall|v: u32| counts@.contains_key(v) <==> end_count(longer, origin, v)
                > 0 by {
                lemma_end_count_push(prefix, arcs@[i as int], origin, v);
                assert(before.contains_key(v) <==> end_count(prefix, origin, v) > 0);
            }
        }
        i += 1;
    }
    proof {
        assert(arcs@.take(i as int) =~= arcs@);
    }
    counts
}

} // verus!
