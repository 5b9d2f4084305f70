//! The order in which nodes are ranked by out-degree, and the selection of the
//! first-ranked entries.

use crate::degree::{lemma_end_count_empty, lemma_end_count_push, out_degree};
use crate::graph::Edge;
use crate::graph_analysis::NodeConnection;
use std::collections::HashMap;
use vstd::prelude::*;
use vstd::std_specs::iter::IteratorSpec;

verus! {

/// Whether `a` is ranked strictly before `b`: by greater count, and by smaller
/// node identifier among equal counts.
pub open spec fn ranks_before(a: NodeConnection, b: NodeConnection) -> bool {
    a.count > b.count || (a.count == b.count && a.node < b.node)
}

/// The nodes that at least one arc of the sequence leaves.
pub open spec fn origins(arcs: Seq<Edge>) -> Set<u32> {
    Set::new(|v: u32| out_degree(arcs, v) > 0)
}

/// Whether the ranking has an entry for node `v`.
pub open spec fn listed(ranking: Seq<NodeConnection>, v: u32) -> bool {
    exists|i: int| 0 <= i < ranking.len() && (#[trigger] ranking[i]).node == v
}

/// No two entries name the same node.
pub open spec fn distinct_nodes(ranking: Seq<NodeConnection>) -> bool {
    forall|i: int, j: int|
        0 <= i < j < ranking.len() ==> (#[trigger] ranking[i]).node != (#[trigger] ranking[j]).node
}

/// The sum of the counts of all entries.
pub open spec fn total_count(ranking: Seq<NodeConnection>) -> nat
    decreases ranking.len(),
{
    if ranking.len() == 0 {
        0
    } else {
        total_count(ranking.drop_last()) + ranking.last().count as nat
    }
}

/// Whether `ranking` is the list of the `k` first-ranked origins of `arcs`:
/// each entry holds an origin with its out-degree, the entries stand in rank
/// order, every origin left out is ranked after every entry, and the list is
/// shorter than `k` only where there are fewer than `k` origins.
pub open spec fn is_top_ranking(arcs: Seq<Edge>, k: nat, ranking: Seq<NodeConnection>) -> bool {
    &&& ranking.len() == if k <= origins(arcs).len() {
        k
    } else {
        origins(arcs).len()
    }
    &&& forall|i: int|
        0 <= i < ranking.len() ==> (#[trigger] ranking[i]).count > 0 && ranking[i].count
            == out_degree(arcs, ranking[i].node)
    &&& forall|i: int, j: int|
        0 <= i < j < ranking.len() ==> ranks_before(#[trigger] ranking[i], #[trigger] ranking[j])
    &&& forall|i: int, v: u32|
        0 <= i < ranking.len() && out_degree(arcs, v) > 0 && !listed(ranking, v) ==> ranks_before(
            #[trigger] ranking[i],
            NodeConnection { node: v, count: #[trigger] out_degree(arcs, v) as usize },
        )
}

/// The entries are the entries of the tally `counts`, each key once.
pub open spec fn lists_exactly(entries: Seq<NodeConnection>, counts: Map<u32, usize>) -> bool {
    &&& forall|i: int|
        0 <= i < entries.len() ==> counts.contains_key((#[trigger] entries[i]).node)
            && counts[entries[i].node] == entries[i].count
    &&& distinct_nodes(entries)
    &&& forall|v: u32| counts.contains_key(v) ==> listed(entries, v)
}

/// The sum of the out-degrees of the given nodes.
pub open spec fn degree_sum(arcs: Seq<Edge>, nodes: Seq<u32>) -> nat
    decreases nodes.len(),
{
    if nodes.len() == 0 {
        0
    } else {
        degree_sum(arcs, nodes.drop_last()) + out_degree(arcs, nodes.last())
    }
}

proof fn lemma_degree_sum_no_arcs(nodes: Seq<u32>)
    ensures
        degree_sum(Seq::<Edge>::empty(), nodes) == 0,
    decreases nodes.len(),
{
    if nodes.len() > 0 {
        lemma_degree_sum_no_arcs(nodes.drop_last());
        lemma_end_count_empty(true, nodes.last());
    }
}

/// One more arc adds one to the sum where its origin is among the nodes.
proof fn lemma_degree_sum_push(arcs: Seq<Edge>, e: Edge, nodes: Seq<u32>)
    requires
        nodes.no_duplicates(),
    ensures
        degree_sum(arcs.push(e), nodes) == degree_sum(arcs, nodes) + if nodes.contains(e.from) {
            1nat
        } else {
            0nat
        },
    decreases nodes.len(),
{
    if nodes.len() > 0 {
        let init = nodes.drop_last();
        let last = nodes.last();
        lemma_degree_sum_push(arcs, e, init);
        lemma_end_count_push(arcs, e, true, last);
        if init.contains(e.from) {
            let k = choose|k: int| 0 <= k < init.len() && init[k] == e.from;
            assert(nodes[k] == e.from);
            assert(last != e.from);
        }
        if nodes.contains(e.from) {
            let k = choose|k: int| 0 <= k < nodes.len() && nodes[k] == e.from;
            if k < init.len() {
                assert(init[k] == e.from);
            }
        }
        if last == e.from {
            assert(nodes[nodes.len() - 1] == e.from);
        }
    }
}

/// Distinct nodes cannot have more out-arcs in total than there are arcs.
pub proof fn lemma_degree_sum_bounded(arcs: Seq<Edge>, nodes: Seq<u32>)
    requires
        nodes.no_duplicates(),
    ensures
        degree_sum(arcs, nodes) <= arcs.len(),
    decreases arcs.len(),
{
    if arcs.len() == 0 {
        assert(arcs =~= Seq::<Edge>::empty());
        lemma_degree_sum_no_arcs(nodes);
    } else {
        let init = arcs.drop_last();
        assert(arcs =~= init.push(arcs.last()));
        lemma_degree_sum_bounded(init, nodes);
        lemma_degree_sum_push(init, arcs.last(), nodes);
    }
}

/// The node identifiers of a ranking, in order.
pub open spec fn nodes_of(ranking: Seq<NodeConnection>) -> Seq<u32> {
    Seq::new(ranking.len(), |i: int| ranking[i].node)
}

proof fn lemma_total_is_degree_sum(arcs: Seq<Edge>, ranking: Seq<NodeConnection>)
    requires
        forall|i: int|
            0 <= i < ranking.len() ==> (#[trigger] ranking[i]).count == out_degree(
                arcs,
                ranking[i].node,
            ),
    ensures
        total_count(ranking) == degree_sum(arcs, nodes_of(ranking)),
    decreases ranking.len(),
{
    if ranking.len() > 0 {
        let init = ranking.drop_last();
        assert forall|i: int| 0 <= i < init.len() implies (#[trigger] init[i]).count
            == out_degree(arcs, init[i].node) by {
            assert(init[i] == ranking[i]);
        }
        lemma_total_is_degree_sum(arcs, init);
        assert(nodes_of(ranking).drop_last() =~= nodes_of(init));
        assert(nodes_of(ranking).last() == ranking.last().node);
    }
}

/// A ranking of the first-ranked origins has at most `k` entries, stands in
/// descending order of count, and its counts add up to no more than the number
/// of arcs.
pub proof fn lemma_top_ranking_bounds(arcs: Seq<Edge>, k: nat, ranking: Seq<NodeConnection>)
    requires
        is_top_ranking(arcs, k, ranking),
    ensures
        ranking.len() <= k,
        forall|i: int, j: int|
            0 <= i < j < ranking.len() ==> (#[trigger] ranking[i]).count >= (
            #[trigger] ranking[j]).count,
        distinct_nodes(ranking),
        total_count(ranking) <= arcs.len(),
{
    assert forall|i: int, j: int| 0 <= i < j < ranking.len() implies (#[trigger] ranking[i]).count
        >= (#[trigger] ranking[j]).count by {
        assert(ranks_before(ranking[i], ranking[j]));
    }
    assert forall|i: int, j: int| 0 <= i < j < ranking.len() implies (#[trigger] ranking[i]).node
        != (#[trigger] ranking[j]).node by {
        assert(ranks_before(ranking[i], ranking[j]));
    }
    let nodes = nodes_of(ranking);
    assert forall|i: int, j: int| 0 <= i < nodes.len() && 0 <= j < nodes.len() && i != j implies nodes[i]
        != nodes[j] by {
        if i < j {
            assert(ranking[i].node != ranking[j].node);
        } else {
            assert(ranking[j].node != ranking[i].node);
        }
    }
    lemma_total_is_degree_sum(arcs, ranking);
    lemma_degree_sum_bounded(arcs, nodes);
}

/// The arcs and the limit determine the ranking.
pub proof fn lemma_top_ranking_unique(
    arcs: Seq<Edge>,
    k: nat,
    r1: Seq<NodeConnection>,
    r2: Seq<NodeConnection>,
)
    requires
        is_top_ranking(arcs, k, r1),
        is_top_ranking(arcs, k, r2),
    ensures
        r1 == r2,
{
    assert(r1.len() == r2.len());
    assert forall|n: int| 0 <= n < r1.len() implies r1[n] == r2[n] by {
        lemma_rankings_agree(arcs, k, r1, r2, n);
    }
    assert(r1 =~= r2);
}

/// Where `r` and `other` agree below index `n` and differ at `n`, the entry of
/// `other` at `n` is ranked before the entry of `r` at `n`.
proof fn lemma_other_entry_first(
    arcs: Seq<Edge>,
    k: nat,
    r: Seq<NodeConnection>,
    other: Seq<NodeConnection>,
    n: int,
)
    requires
        is_top_ranking(arcs, k, r),
        is_top_ranking(arcs, k, other),
        0 <= n < r.len(),
        forall|i: int| 0 <= i < n ==> r[i] == other[i],
        r[n] != other[n],
    ensures
        ranks_before(other[n], r[n]),
{
    let a = r[n];
    assert(a.count == out_degree(arcs, a.node));
    assert(other[n].count == out_degree(arcs, other[n].node));
    if listed(other, a.node) {
        let j = choose|j: int| 0 <= j < other.len() && (#[trigger] other[j]).node == a.node;
        assert(other[j].count == out_degree(arcs, other[j].node));
        assert(other[j] == a);
        if j < n {
            assert(r[j] == other[j]);
            assert(ranks_before(r[j], r[n]));
        } else {
            assert(j != n);
            assert(ranks_before(other[n], other[j]));
        }
    } else {
        assert(ranks_before(
            other[n],
            NodeConnection { node: a.node, count: out_degree(arcs, a.node) as usize },
        ));
    }
}

proof fn lemma_rankings_agree(
    arcs: Seq<Edge>,
    k: nat,
    r1: Seq<NodeConnection>,
    r2: Seq<NodeConnection>,
    n: int,
)
    requires
        is_top_ranking(arcs, k, r1),
        is_top_ranking(arcs, k, r2),
        0 <= n < r1.len(),
    ensures
        r1[n] == r2[n],
    decreases n,
{
    assert forall|i: int| 0 <= i < n implies r1[i] == r2[i] by {
        lemma_rankings_agree(arcs, k, r1, r2, i);
    }
    if r1[n] != r2[n] {
        lemma_other_entry_first(arcs, k, r1, r2, n);
        lemma_other_entry_first(arcs, k, r2, r1, n);
    }
}

/// The entries of a tally, each key once with its count, in the order the map
/// yields them.
pub fn entries_of(counts: &HashMap<u32, usize>) -> (entries: Vec<NodeConnection>)
    ensures
        lists_exactly(entries@, counts@),
        entries@.len() == counts@.dom().len(),
{
    broadcast use vstd::std_specs::hash::group_hash_axioms;

    let mut entries: Vec<NodeConnection> = Vec::new();
    let ghost pairs = vstd::std_specs::hash::spec_hash_map_iter(counts).remaining();
    for pair in it: counts.iter()
        invariant
            it.seq() == pairs,
            pairs.no_duplicates(),
            entries@.len() == it.index(),
            forall|k: int|
                0 <= k < entries@.len() ==> #[trigger] entries@[k] == (NodeConnection {
                    node: *pairs[k].0,
                    count: *pairs[k].1,
                }),
    {
        entries.push(NodeConnection { node: *pair.0, count: *pair.1 });
    }
    proof {
        assert(entries@.len() == pairs.len());
        assert forall|i: int| 0 <= i < entries@.len() implies counts@.contains_key(
            (#[trigger] entries@[i]).node,
        ) && counts@[entries@[i].node] == entries@[i].count by {
            assert(counts@.contains_key(*pairs[i].0));
        }
        assert forall|i: int, j: int| 0 <= i < j < entries@.len() implies (
        #[trigger] entries@[i]).node != (#[trigger] entries@[j]).node by {
            assert(counts@.contains_key(*pairs[i].0));
            assert(counts@.contains_key(*pairs[j].0));
            if entries@[i].node == entries@[j].node {
                assert(pairs[i] == pairs[j]);
            }
        }
        assert forall|v: u32| counts@.contains_key(v) implies listed(entries@, v) by {
            assert(pairs.contains((&v, &counts@[v])));
            let i = choose|i: int| 0 <= i < pairs.len() && pairs[i] == (&v, &counts@[v]);
            assert(entries@[i].node == v);
        }
    }
    entries
}

/// Whether `a` is ranked strictly before `b`.
pub fn comes_before(a: &NodeConnection, b: &NodeConnection) -> (first: bool)
    ensures
        first == ranks_before(*a, *b),
{
    a.count > b.count || (a.count == b.count && a.node < b.node)
}

/// Brings the `limit` first-ranked entries to the front, in rank order. The
/// entries behind them stay in the vector, in no particular order.
pub fn select_top(entries: &mut Vec<NodeConnection>, limit: usize)
    requires
        distinct_nodes(old(entries)@),
    ensures
        final(entries)@.len() == old(entries)@.len(),
        distinct_nodes(final(entries)@),
        forall|e: NodeConnection| final(entries)@.contains(e) <==> old(entries)@.contains(e),
        forall|i: int, j: int|
            0 <= i < j < final(entries)@.len() && i < limit ==> ranks_before(
                #[trigger] final(entries)@[i],
                #[trigger] final(entries)@[j],
            ),
{
    let n = entries.len();
    let mut pos: usize = 0;
    while pos < limit && pos < n
        invariant
            n == entries@.len(),
            n == old(entries)@.len(),
            pos <= n,
            distinct_nodes(entries@),
            forall|e: NodeConnection| entries@.contains(e) <==> old(entries)@.contains(e),
            forall|i: int, j: int|
                0 <= i < j < n && i < pos ==> ranks_before(
                    #[trigger] entries@[i],
                    #[trigger] entries@[j],
                ),
        decreases n - pos,
    {
        let mut first: usize = pos;
        let mut j: usize = pos + 1;
        while j < n
            invariant
                n == entries@.len(),
                pos <= first < j <= n,
                distinct_nodes(entries@),
                forall|m: int|
                    pos <= m < j && m != first ==> ranks_before(
                        entries@[first as int],
                        #[trigger] entries@[m],
                    ),
            decreases n - j,
        {
            if comes_before(&entries[j], &entries[first]) {
                proof {
                    assert forall|m: int| pos <= m < j + 1 && m != j implies ranks_before(
                        entries@[j as int],
                        #[trigger] entries@[m],
                    ) by {
                        if m != first {
                            assert(ranks_before(entries@[first as int], entries@[m]));
                        }
                    }
                }
                first = j;
            } else {
                proof {
                    if first < j {
                        assert(entries@[first as int].node != entries@[j as int].node);
                    }
                }
            }
            j += 1;
        }
        let ghost before = entries@;
        let front = entries[pos];
        let chosen = entries[first];
        entries.set(pos, chosen);
        entries.set(first, front);
        proof {
            let after = entries@;
            assert forall|e: NodeConnection| after.contains(e) <==> before.contains(e) by {
                if before.contains(e) {
                    let m = choose|m: int| 0 <= m < before.len() && before[m] == e;
                    if m == pos {
                        assert(after[first as int] == e);
                    } else if m == first {
                        assert(after[pos as int] == e);
                    } else {
                        assert(after[m] == e);
                    }
                }
                if after.contains(e) {
                    let m = choose|m: int| 0 <= m < after.len() && after[m] == e;
                    if m == pos {
                        assert(before[first as int] == e);
                    } else if m == first {
                        assert(before[pos as int] == e);
                    } else {
                        assert(before[m] == e);
                    }
                }
            }
            assert forall|i: int, j: int| 0 <= i < j < after.len() implies (#[trigger] after[i]).node
                != (#[trigger] after[j]).node by {
                let bi = if i == pos {
                    first as int
                } else if i == first {
                    pos as int
                } else {
                    i
                };
                let bj = if j == pos {
                    first as int
                } else if j == first {
                    pos as int
                } else {
                    j
                };
                assert(after[i] == before[bi]);
                assert(after[j] == before[bj]);
                if bi < bj {
                    assert(before[bi].node != before[bj].node);
                } else {
                    assert(before[bj].node != before[bi].node);
                }
            }
            assert forall|i: int, j: int| 0 <= i < j < n && i < pos + 1 implies ranks_before(
                #[trigger] after[i],
                #[trigger] after[j],
            ) by {
                let bj = if j == pos {
                    first as int
                } else if j == first {
                    pos as int
                } else {
                    j
                };
                assert(after[j] == before[bj]);
                if i < pos {
                    assert(after[i] == before[i]);
                    assert(ranks_before(before[i], before[bj]));
                } else {
                    assert(after[i] == before[first as int]);
                    assert(ranks_before(before[first as int], before[bj]));
                }
            }
        }
        pos += 1;
    }
}

} // verus!
