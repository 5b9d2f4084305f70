//! Analyses that start from a node chosen at random.

use crate::graph::{Graph, GraphOperationResult, Subgraph};
use crate::graph_analysis::{densest_around, find_highest_density_subgraph_with_start_node};
use rand::Rng;
use vstd::prelude::*;

verus! {

/// One analysis of a sampled start node: the node and hop bound that were
/// drawn, and the dense subgraph around the node where the graph has it.
#[derive(Debug)]
pub struct Sample {
    pub start_node: u32,
    pub max_depth: usize,
    pub subgraph: Option<Subgraph>,
}

/// Whether `found` is what an analysis around `start` owes: nothing where the
/// graph has no entry for `start`, the densest candidate otherwise.
pub open spec fn is_analysis_of(
    g: Map<u32, Seq<u32>>,
    start: u32,
    max_depth: nat,
    found: Option<Subgraph>,
) -> bool {
    match found {
        None => !g.contains_key(start),
        Some(best) => {
            &&& g.contains_key(start)
            &&& best.nodes@ == densest_around(g, start, max_depth).0
            &&& best.density == densest_around(g, start, max_depth).1
        },
    }
}

/// Draws a number from `low..=high` with `rand::Rng::gen_range` on the
/// thread-local generator `rand::thread_rng`.
///
/// `gen_range` panics on an empty range, which `low <= high` rules out. The
/// contract claims only that the number drawn lies in the range; which number
/// it is differs from call to call.
#[verifier::external_body]
fn draw_in_range(low: u32, high: u32) -> (drawn: u32)
    requires
        low <= high,
    ensures
        low <= drawn <= high,
{
    rand::thread_rng().gen_range(low..=high)
}

/// Searches for a dense subgraph around `start_node` where the graph has an
/// entry for it.
pub fn analyse_if_present(graph: &Graph, start_node: u32, max_depth: usize) -> (found: Option<
    Subgraph,
>)
    ensures
        is_analysis_of(graph@, start_node, max_depth as nat, found),
{
    match graph.find_node(start_node) {
        GraphOperationResult::Success => Some(
            find_highest_density_subgraph_with_start_node(graph, start_node, max_depth),
        ),
        GraphOperationResult::NodeNotFound(_) => None,
    }
}

/// Draws a start node from `1..=max_node_id` and a hop bound from
/// `min_depth..=max_depth`, and searches for a dense subgraph around that node.
pub fn analyse_random_start(graph: &Graph, max_node_id: u32, min_depth: u32, max_depth: u32) -> (sample:
    Sample)
    requires
        1 <= max_node_id,
        min_depth <= max_depth,
    ensures
        1 <= sample.start_node <= max_node_id,
        min_depth <= sample.max_depth <= max_depth,
        is_analysis_of(graph@, sample.start_node, sample.max_depth as nat, sample.subgraph),
{
    let start_node = draw_in_range(1, max_node_id);
    let depth = draw_in_range(min_depth, max_depth) as usize;
    let subgraph = analyse_if_present(graph, start_node, depth);
    Sample { start_node, max_depth: depth, subgraph }
}

} // verus!
