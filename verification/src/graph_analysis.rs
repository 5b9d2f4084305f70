//! Density of a node set, the greedy peeling search for a dense subgraph
//! around an anchor node, and the ranking of nodes by out-degree.

use crate::degree::{
    degree, end_count, lemma_end_count_of_set, out_degree, tally, tally_at,
};
use crate::edge_set::{arcs_avoiding, hash_set_to_vec, EdgeSet};
use crate::facts::lemma_id_set_bounded;
use crate::graph::{Density, Edge, Graph, Subgraph};
use crate::graph_operations::{bfs, find_edges, induced_arcs};
use crate::ranking::{
    entries_of, is_top_ranking, lemma_top_ranking_bounds, listed, origins, ranks_before,
    select_top, total_count,
};
use crate::reach::{lemma_start_is_reached, reachable_set};
use std::collections::{HashMap, HashSet};
use vstd::prelude::*;

verus! {

/// A node with the number of arcs that leave it.
#[derive(Debug, Clone, Copy, PartialEq, Eq, Structural)]
pub struct NodeConnection {
    pub node: u32,
    pub count: usize,
}

/// What the analysis passes around: a list of arcs, or a ranking of nodes.
#[derive(Debug)]
pub enum GraphData {
    Edges(Vec<Edge>),
    TopNodes(Vec<NodeConnection>),
}

/// Ranks the origins of `edges` by out-degree and returns the first
/// `top_count` of them, or all of them where there are fewer.
///
/// The count of a node is the number of arcs of `edges` that leave it; an arc
/// listed twice counts twice. Nodes stand in descending order of count, and in
/// ascending order of identifier among equal counts.
pub fn calculate_top_nodes(edges: &[Edge], top_count: usize) -> (data: GraphData)
    ensures
        data matches GraphData::TopNodes(ranking) && is_top_ranking(
            edges@,
            top_count as nat,
            ranking@,
        ),
        data matches GraphData::TopNodes(ranking) && ranking@.len() <= top_count && total_count(
            ranking@,
        ) <= edges@.len(),
        data matches GraphData::TopNodes(ranking) && forall|i: int, j: int|
            0 <= i < j < ranking@.len() ==> (#[trigger] ranking@[i]).count >= (
            #[trigger] ranking@[j]).count,
{
    broadcast use vstd::std_specs::hash::group_hash_axioms;

    let node_connections = tally(edges, true);
    let mut sorted_nodes = entries_of(&node_connections);
    let ghost unsorted = sorted_nodes@;
    select_top(&mut sorted_nodes, top_count);
    let ghost full = sorted_nodes@;
    sorted_nodes.truncate(top_count);
    proof {
        let counts = node_connections@;
        let ranking = sorted_nodes@;
        assert(counts.dom() =~= origins(edges@));
        assert forall|i: int| 0 <= i < full.len() implies counts.contains_key(
            (#[trigger] full[i]).node,
        ) && counts[full[i].node] == full[i].count by {
            assert(full.contains(full[i]));
            assert(unsorted.contains(full[i]));
            let m = choose|m: int| 0 <= m < unsorted.len() && unsorted[m] == full[i];
            assert(counts.contains_key(unsorted[m].node));
        }
        assert forall|i: int| 0 <= i < ranking.len() implies (#[trigger] ranking[i]).count > 0
            && ranking[i].count == out_degree(edges@, ranking[i].node) by {
            assert(ranking[i] == full[i]);
            assert(tally_at(counts, full[i].node) == out_degree(edges@, full[i].node));
        }
        assert forall|i: int, j: int| 0 <= i < j < ranking.len() implies ranks_before(
            #[trigger] ranking[i],
            #[trigger] ranking[j],
        ) by {
            assert(ranking[i] == full[i] && ranking[j] == full[j]);
        }
        assert forall|i: int, v: u32|
            0 <= i < ranking.len() && out_degree(edges@, v) > 0 && !listed(
                ranking,
                v,
            ) implies ranks_before(
            #[trigger] ranking[i],
            NodeConnection { node: v, count: #[trigger] out_degree(edges@, v) as usize },
        ) by {
            assert(counts.contains_key(v));
            assert(tally_at(counts, v) == out_degree(edges@, v));
            assert(listed(unsorted, v));
            let m = choose|m: int| 0 <= m < unsorted.len() && (#[trigger] unsorted[m]).node == v;
            assert(unsorted.contains(unsorted[m]));
            assert(full.contains(unsorted[m]));
            let j = choose|j: int| 0 <= j < full.len() && full[j] == unsorted[m];
            if j < ranking.len() {
                assert(ranking[j] == full[j]);
                assert(ranking[j].node == v);
            }
            assert(ranking[i] == full[i]);
        }
        assert(is_top_ranking(edges@, top_count as nat, ranking));
        lemma_top_ranking_bounds(edges@, top_count as nat, ranking);
    }
    GraphData::TopNodes(sorted_nodes)
}

/// The denominator of a density over `node_count` nodes: twice the count, and
/// 1 where that would be 0.
pub open spec fn density_scale(node_count: nat) -> nat {
    if node_count == 0 {
        1
    } else {
        2 * node_count
    }
}

/// The density of `edges` over `nodes`: the number of arcs divided by
/// `density_scale` of the number of nodes.
pub open spec fn density_of(nodes: Set<u32>, edges: Set<Edge>) -> Density {
    Density {
        numerator: edges.len() as u64,
        denominator: density_scale(nodes.len()) as u64,
    }
}

/// Whether `v` goes before `w` when nodes are removed: by smaller degree, and
/// by smaller identifier among nodes of equal degree.
pub open spec fn goes_first(edges: Set<Edge>, v: u32, w: u32) -> bool {
    degree(edges, v) < degree(edges, w) || (degree(edges, v) == degree(edges, w) && v <= w)
}

/// Whether `v` is the node that the peeling removes next: the member other
/// than the anchor that goes before every other such member.
pub open spec fn is_weakest(nodes: Set<u32>, edges: Set<Edge>, anchor: u32, v: u32) -> bool {
    &&& nodes.contains(v)
    &&& v != anchor
    &&& forall|w: u32| nodes.contains(w) && w != anchor ==> #[trigger] goes_first(edges, v, w)
}

/// The node that the peeling removes next, if any member besides the anchor is left.
pub open spec fn weakest(nodes: Set<u32>, edges: Set<Edge>, anchor: u32) -> Option<u32> {
    if exists|v: u32| is_weakest(nodes, edges, anchor, v) {
        Some(choose|v: u32| is_weakest(nodes, edges, anchor, v))
    } else {
        None
    }
}

/// The best candidate that the peeling ends with, started from the node set
/// `nodes` with arcs `edges` and the best candidate so far `best`.
///
/// Each round removes the weakest node and the arcs that touch it. The
/// reduced set replaces the best candidate where its density is strictly
/// greater. The peeling stops at a single node, or when only the anchor is left
/// to remove.
pub open spec fn peel_best(
    nodes: Set<u32>,
    edges: Set<Edge>,
    anchor: u32,
    best: (Set<u32>, Density),
) -> (Set<u32>, Density)
    decreases nodes.len(),
    when nodes.finite()
{
    if nodes.len() <= 1 {
        best
    } else {
        match weakest(nodes, edges, anchor) {
            None => best,
            Some(v) => {
                let fewer = nodes.remove(v);
                let kept = arcs_avoiding(edges, v);
                let density = density_of(fewer, kept);
                peel_best(
                    fewer,
                    kept,
                    anchor,
                    if density.exceeds(best.1) {
                        (fewer, density)
                    } else {
                        best
                    },
                )
            },
        }
    }
}

/// The densest candidate around `start`: the peeling applied to the nodes
/// within `max_depth` hops of `start` and the arcs among them, with that whole
/// set as the first candidate.
pub open spec fn densest_around(g: Map<u32, Seq<u32>>, start: u32, max_depth: nat) -> (
    Set<u32>,
    Density,
) {
    let nodes = reachable_set(g, start, max_depth);
    let edges = induced_arcs(g, nodes);
    peel_best(nodes, edges, start, (nodes, density_of(nodes, edges)))
}

/// At most one node is the weakest.
pub proof fn lemma_weakest_unique(
    nodes: Set<u32>,
    edges: Set<Edge>,
    anchor: u32,
    v1: u32,
    v2: u32,
)
    requires
        is_weakest(nodes, edges, anchor, v1),
        is_weakest(nodes, edges, anchor, v2),
    ensures
        v1 == v2,
{
    assert(goes_first(edges, v1, v2));
    assert(goes_first(edges, v2, v1));
}

/// The peeling never drops the anchor from the best candidate and never
/// lowers the best density.
pub proof fn lemma_peel_best_keeps_anchor(
    nodes: Set<u32>,
    edges: Set<Edge>,
    anchor: u32,
    best: (Set<u32>, Density),
)
    requires
        nodes.contains(anchor),
        best.0.contains(anchor),
        best.1.denominator > 0,
    ensures
        peel_best(nodes, edges, anchor, best).0.contains(anchor),
        peel_best(nodes, edges, anchor, best).1.at_least(best.1),
        peel_best(nodes, edges, anchor, best).1.denominator > 0,
    decreases nodes.len(),
{
    lemma_id_set_bounded(nodes);
    if nodes.len() > 1 {
        match weakest(nodes, edges, anchor) {
            None => {},
            Some(v) => {
                assert(is_weakest(nodes, edges, anchor, v));
                let fewer = nodes.remove(v);
                let kept = arcs_avoiding(edges, v);
                let density = density_of(fewer, kept);
                lemma_id_set_bounded(fewer);
                assert(density.denominator > 0);
                let next = if density.exceeds(best.1) {
                    (fewer, density)
                } else {
                    best
                };
                lemma_peel_best_keeps_anchor(fewer, kept, anchor, next);
                let last = peel_best(fewer, kept, anchor, next);
                if density.exceeds(best.1) {
                    lemma_at_least_after_exceeds(last.1, next.1, best.1);
                }
            },
        }
    }
}

/// Being at least a density that exceeds a third one means being at least
/// that third one.
proof fn lemma_at_least_after_exceeds(a: Density, b: Density, c: Density)
    requires
        a.denominator > 0,
        b.denominator > 0,
        c.denominator > 0,
        a.at_least(b),
        b.exceeds(c),
    ensures
        a.at_least(c),
{
    let an = a.numerator as int;
    let ad = a.denominator as int;
    let bn = b.numerator as int;
    let bd = b.denominator as int;
    let cn = c.numerator as int;
    let cd = c.denominator as int;
    assert(an * cd >= cn * ad) by (nonlinear_arith)
        requires
            ad > 0,
            bd > 0,
            cd > 0,
            an >= 0,
            bn >= 0,
            cn >= 0,
            an * bd >= bn * ad,
            bn * cd > cn * bd,
    {
        assert((an * bd) * cd >= (bn * ad) * cd);
        assert((bn * cd) * ad >= (cn * bd) * ad);
        assert((an * cd) * bd >= (cn * ad) * bd);
    }
}

/// The densest candidate around `start` contains `start`, and is at least as
/// dense as the whole neighbourhood it was peeled from.
pub proof fn lemma_densest_around_anchored(g: Map<u32, Seq<u32>>, start: u32, max_depth: nat)
    ensures
        densest_around(g, start, max_depth).0.contains(start),
        densest_around(g, start, max_depth).1.at_least(
            density_of(
                reachable_set(g, start, max_depth),
                induced_arcs(g, reachable_set(g, start, max_depth)),
            ),
        ),
{
    let nodes = reachable_set(g, start, max_depth);
    let edges = induced_arcs(g, nodes);
    lemma_start_is_reached(g, start, max_depth);
    lemma_id_set_bounded(nodes);
    lemma_peel_best_keeps_anchor(nodes, edges, start, (nodes, density_of(nodes, edges)));
}

/// The density of `edges` over `nodes`: the arc count divided by twice the
/// node count, with a denominator of 1 for an empty node set.
pub fn calculate_graph_density(nodes: &HashSet<u32>, edges: &EdgeSet) -> (density: Density)
    ensures
        density == density_of(nodes@, edges@),
        density.numerator == edges@.len(),
        density.denominator == density_scale(nodes@.len()),
        density.denominator >= 1,
        edges@.len() == 0 ==> density.numerator == 0,
{
    broadcast use vstd::std_specs::hash::group_hash_axioms;

    proof {
        lemma_id_set_bounded(nodes@);
    }
    let node_count: u64 = nodes.len() as u64;
    let arc_count: u64 = edges.len() as u64;
    let scale: u64 = if node_count == 0 {
        1
    } else {
        2 * node_count
    };
    Density { numerator: arc_count, denominator: scale }
}

/// A hash set with the same members as `nodes`.
fn copy_of(nodes: &HashSet<u32>) -> (copy: HashSet<u32>)
    ensures
        copy@ == nodes@,
{
    broadcast use vstd::std_specs::hash::group_hash_axioms;

    let members = hash_set_to_vec(nodes);
    let mut copy: HashSet<u32> = HashSet::new();
    let mut i: usize = 0;
    while i < members.len()
        invariant
            i <= members.len(),
            copy@ == members@.take(i as int).to_set(),
        decreases members.len() - i,
    {
        copy.insert(members[i]);
        proof {
            assert(members@.take(i + 1) =~= members@.take(i as int).push(members@[i as int]));
            members@.take(i as int).lemma_push_to_set_commute(members@[i as int]);
        }
        i += 1;
    }
    proof {
        assert(members@.take(i as int) =~= members@);
    }
    copy
}

/// The count that a tally holds for `v`, zero where it has no entry.
fn count_in(counts: &HashMap<u32, usize>, v: u32) -> (n: usize)
    ensures
        n == tally_at(counts@, v),
{
    broadcast use vstd::std_specs::hash::group_hash_axioms;

    match counts.get(&v) {
        Some(c) => *c,
        None => 0,
    }
}

/// Finds the node to remove next: among the members other than `anchor`, the
/// one of least degree, and of least identifier among those.
pub fn pick_weakest(nodes: &HashSet<u32>, edges: &EdgeSet, anchor: u32) -> (pick: Option<u32>)
    ensures
        pick == weakest(nodes@, edges@, anchor),
        pick matches Some(v) ==> is_weakest(nodes@, edges@, anchor, v),
{
    broadcast use vstd::std_specs::hash::group_hash_axioms;

    let arcs = edges.to_vec();
    let leaving = tally(arcs.as_slice(), true);
    let entering = tally(arcs.as_slice(), false);
    let members = hash_set_to_vec(nodes);
    let mut pick: Option<(u32, u128)> = None;
    let mut i: usize = 0;
    while i < members.len()
        invariant
            i <= members.len(),
            arcs@.no_duplicates(),
            arcs@.to_set() == edges@,
            members@.to_set() == nodes@,
            forall|v: u32| tally_at(leaving@, v) == end_count(arcs@, true, v),
            forall|v: u32| tally_at(entering@, v) == end_count(arcs@, false, v),
            match pick {
                None => forall|k: int| 0 <= k < i ==> members@[k] == anchor,
                Some((best, least)) => {
                    &&& nodes@.contains(best)
                    &&& best != anchor
                    &&& least == degree(edges@, best)
                    &&& forall|k: int|
                        0 <= k < i && members@[k] != anchor ==> #[trigger] goes_first(
                            edges@,
                            best,
                            members@[k],
                        )
                },
            },
        decreases members.len() - i,
    {
        let node = members[i];
        if node != anchor {
            let out = count_in(&leaving, node);
            let inn = count_in(&entering, node);
            let total: u128 = out as u128 + inn as u128;
            proof {
                lemma_end_count_of_set(arcs@, true, node);
                lemma_end_count_of_set(arcs@, false, node);
                assert(total == degree(edges@, node));
                assert(members@.to_set().contains(members@[i as int]));
            }
            match pick {
                None => {
                    pick = Some((node, total));
                },
                Some((best, least)) => {
                    if total < least || (total == least && node < best) {
                        pick = Some((node, total));
                        proof {
                            assert forall|k: int|
                                0 <= k < i + 1 && members@[k] != anchor implies #[trigger] goes_first(
                                edges@,
                                node,
                                members@[k],
                            ) by {
                                if k < i {
                                    assert(goes_first(edges@, best, members@[k]));
                                }
                            }
                        }
                    }
                },
            }
        }
        i += 1;
    }
    match pick {
        Some((best, _)) => {
            proof {
                assert forall|w: u32| nodes@.contains(w) && w != anchor implies #[trigger] goes_first(
                    edges@,
                    best,
                    w,
                ) by {
                    assert(members@.to_set().contains(w));
                    let k = choose|k: int| 0 <= k < members@.len() && members@[k] == w;
                    assert(goes_first(edges@, best, members@[k]));
                }
                assert(is_weakest(nodes@, edges@, anchor, best));
                let chosen = choose|v: u32| is_weakest(nodes@, edges@, anchor, v);
                lemma_weakest_unique(nodes@, edges@, anchor, best, chosen);
            }
            Some(best)
        },
        None => {
            proof {
                assert forall|v: u32| !is_weakest(nodes@, edges@, anchor, v) by {
                    if nodes@.contains(v) && v != anchor {
                        assert(members@.to_set().contains(v));
                        let k = choose|k: int| 0 <= k < members@.len() && members@[k] == v;
                    }
                }
            }
            None
        },
    }
}

/// Searches for a dense subgraph around `start_node`.
///
/// The search starts from the nodes within `max_depth` hops of `start_node`
/// and the arcs among them, and removes one node per round: the node of least
/// degree other than `start_node`, the one with the smallest identifier among
/// equals. It returns the node set of the greatest density seen, the earliest
/// such set where several are equally dense. The start node is never removed,
/// so every candidate contains it.
pub fn find_highest_density_subgraph_with_start_node(
    graph: &Graph,
    start_node: u32,
    max_depth: usize,
) -> (best: Subgraph)
    ensures
        best.nodes@ == densest_around(graph@, start_node, max_depth as nat).0,
        best.density == densest_around(graph@, start_node, max_depth as nat).1,
        best.nodes@.contains(start_node),
        best.density.at_least(
            density_of(
                reachable_set(graph@, start_node, max_depth as nat),
                induced_arcs(graph@, reachable_set(graph@, start_node, max_depth as nat)),
            ),
        ),
{
    broadcast use vstd::std_specs::hash::group_hash_axioms;

    let bfs_nodes = bfs(graph, start_node, max_depth);
    let mut subgraph_edges = find_edges(graph, &bfs_nodes);
    let mut best = Subgraph {
        nodes: copy_of(&bfs_nodes),
        density: calculate_graph_density(&bfs_nodes, &subgraph_edges),
    };
    let mut current_nodes = bfs_nodes;
    let ghost goal = densest_around(graph@, start_node, max_depth as nat);
    let mut exhausted = false;
    proof {
        lemma_id_set_bounded(current_nodes@);
        lemma_densest_around_anchored(graph@, start_node, max_depth as nat);
    }

    while !exhausted && current_nodes.len() > 1
        invariant
            current_nodes@.finite(),
            exhausted ==> weakest(current_nodes@, subgraph_edges@, start_node) is None,
            peel_best(
                current_nodes@,
                subgraph_edges@,
                start_node,
                (best.nodes@, best.density),
            ) == goal,
        decreases current_nodes@.len() + if exhausted { 0nat } else { 1nat },
    {
        match pick_weakest(&current_nodes, &subgraph_edges, start_node) {
            Some(node) => {
                current_nodes.remove(&node);
                subgraph_edges = subgraph_edges.without_node(node);
                let new_density = calculate_graph_density(&current_nodes, &subgraph_edges);
                if new_density.is_greater_than(&best.density) {
                    best = Subgraph { nodes: copy_of(&current_nodes), density: new_density };
                }
            },
            None => {
                exhausted = true;
            },
        }
    }
    best
}

} // verus!
