use dense_subgraph::degree::tally;
use dense_subgraph::graph::Edge;
use dense_subgraph::graph_analysis::{calculate_top_nodes, GraphData, NodeConnection};
use dense_subgraph::ranking::{comes_before, entries_of, select_top};
use std::collections::HashMap;

fn arcs(pairs: &[(u32, u32)]) -> Vec<Edge> {
    pairs.iter().map(|&(a, b)| Edge { from: a, to: b }).collect()
}

fn ranking(edges: &[Edge], k: usize) -> Vec<(u32, usize)> {
    match calculate_top_nodes(edges, k) {
        GraphData::TopNodes(top) => top.iter().map(|c| (c.node, c.count)).collect(),
        _ => panic!("expected a ranking"),
    }
}

fn path_with_chord() -> Vec<Edge> {
    arcs(&[(1, 2), (2, 1), (2, 3), (3, 2), (1, 3), (3, 1), (3, 4), (4, 3)])
}

#[test]
fn top_node_of_path_with_chord() {
    assert_eq!(ranking(&path_with_chord(), 1), vec![(3, 3)]);
}

#[test]
fn full_ranking_of_path_with_chord() {
    let expected = vec![(3, 3), (1, 2), (2, 2), (4, 1)];
    assert_eq!(ranking(&path_with_chord(), 4), expected);
    assert_eq!(ranking(&path_with_chord(), 10), expected);
    assert_eq!(ranking(&path_with_chord(), usize::MAX), expected);
    assert_eq!(ranking(&path_with_chord(), 2), vec![(3, 3), (1, 2)]);
    assert_eq!(ranking(&path_with_chord(), 3), vec![(3, 3), (1, 2), (2, 2)]);
}

#[test]
fn ranking_does_not_depend_on_arc_order() {
    let mut reversed = path_with_chord();
    reversed.reverse();
    assert_eq!(ranking(&reversed, 4), vec![(3, 3), (1, 2), (2, 2), (4, 1)]);
}

#[test]
fn ranking_of_nothing_is_empty() {
    assert_eq!(ranking(&[], 5), vec![]);
    assert_eq!(ranking(&path_with_chord(), 0), vec![]);
}

#[test]
fn ranking_counts_origins_only() {
    assert_eq!(ranking(&arcs(&[(1, 2)]), 5), vec![(1, 1)]);
    assert_eq!(ranking(&arcs(&[(5, 1), (6, 1), (7, 1)]), 5), vec![(5, 1), (6, 1), (7, 1)]);
}

#[test]
fn ranking_counts_repeated_arcs_and_self_loops() {
    assert_eq!(ranking(&arcs(&[(1, 2), (1, 2), (2, 1)]), 5), vec![(1, 2), (2, 1)]);
    assert_eq!(ranking(&arcs(&[(4, 4), (4, 4), (4, 5), (9, 4)]), 5), vec![(4, 3), (9, 1)]);
}

#[test]
fn ranking_breaks_ties_by_lowest_identifier() {
    let edges = arcs(&[(9, 1), (3, 1), (7, 1), (3, 2), (9, 2), (5, 1)]);
    assert_eq!(ranking(&edges, 1), vec![(3, 2)]);
    assert_eq!(ranking(&edges, 3), vec![(3, 2), (9, 2), (5, 1)]);
    assert_eq!(ranking(&edges, 4), vec![(3, 2), (9, 2), (5, 1), (7, 1)]);
}

#[test]
fn ranking_is_bounded_sorted_and_sums_to_at_most_the_arc_count() {
    let edges = arcs(&[
        (1, 6), (6, 1), (1, 7), (7, 1), (1, 8), (8, 1), (2, 10), (10, 2), (7, 10), (10, 7),
        (7, 12), (12, 7), (8, 10), (10, 8), (10, 12), (12, 10), (3, 3), (1, 6),
    ]);
    for k in 0..=12usize {
        let top = ranking(&edges, k);
        assert!(top.len() <= k);
        for pair in top.windows(2) {
            assert!(pair[0].1 >= pair[1].1);
            assert!(pair[0].0 != pair[1].0);
        }
        let sum: usize = top.iter().map(|entry| entry.1).sum();
        assert!(sum <= edges.len());
        for entry in &top {
            let count = edges.iter().filter(|e| e.from == entry.0).count();
            assert_eq!(entry.1, count);
        }
    }
    let everything: usize = ranking(&edges, 12).iter().map(|entry| entry.1).sum();
    assert_eq!(everything, edges.len());
}

#[test]
fn tally_counts_each_end() {
    let edges = arcs(&[(1, 2), (1, 3), (2, 3), (3, 3), (1, 2)]);
    let leaving = tally(&edges, true);
    let mut expected_out = HashMap::new();
    expected_out.insert(1u32, 3usize);
    expected_out.insert(2, 1);
    expected_out.insert(3, 1);
    assert_eq!(leaving, expected_out);
    let entering = tally(&edges, false);
    let mut expected_in = HashMap::new();
    expected_in.insert(2u32, 2usize);
    expected_in.insert(3, 3);
    assert_eq!(entering, expected_in);
    assert!(tally(&[], true).is_empty());
}

#[test]
fn entries_of_lists_every_key_once() {
    let mut counts = HashMap::new();
    counts.insert(4u32, 2usize);
    counts.insert(1, 7);
    counts.insert(9, 2);
    let mut entries: Vec<(u32, usize)> =
        entries_of(&counts).iter().map(|c| (c.node, c.count)).collect();
    entries.sort();
    assert_eq!(entries, vec![(1, 7), (4, 2), (9, 2)]);
    assert!(entries_of(&HashMap::new()).is_empty());
}

#[test]
fn comes_before_orders_by_count_then_identifier() {
    let a = NodeConnection { node: 1, count: 5 };
    let b = NodeConnection { node: 2, count: 5 };
    let c = NodeConnection { node: 0, count: 4 };
    assert!(comes_before(&a, &b));
    assert!(!comes_before(&b, &a));
    assert!(comes_before(&b, &c));
    assert!(!comes_before(&c, &a));
    assert!(!comes_before(&a, &a));
}

#[test]
fn select_top_orders_the_front_and_keeps_the_rest() {
    let start = vec![
        NodeConnection { node: 5, count: 1 },
        NodeConnection { node: 2, count: 3 },
        NodeConnection { node: 8, count: 3 },
        NodeConnection { node: 1, count: 2 },
        NodeConnection { node: 7, count: 9 },
    ];
    let mut two = start.clone();
    select_top(&mut two, 2);
    assert_eq!(two.len(), 5);
    assert_eq!((two[0].node, two[1].node), (7, 2));
    let mut rest: Vec<u32> = two[2..].iter().map(|c| c.node).collect();
    rest.sort();
    assert_eq!(rest, vec![1, 5, 8]);

    let mut all = start.clone();
    select_top(&mut all, 100);
    let order: Vec<(u32, usize)> = all.iter().map(|c| (c.node, c.count)).collect();
    assert_eq!(order, vec![(7, 9), (2, 3), (8, 3), (1, 2), (5, 1)]);

    let mut none = start.clone();
    select_top(&mut none, 0);
    assert_eq!(none, start);

    let mut empty: Vec<NodeConnection> = Vec::new();
    select_top(&mut empty, 3);
    assert!(empty.is_empty());
}
