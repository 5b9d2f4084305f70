use dense_subgraph::file_operations::edges_from_lines;
use dense_subgraph::graph::Graph;
use dense_subgraph::graph_analysis::{
    calculate_graph_density, calculate_top_nodes, find_highest_density_subgraph_with_start_node,
    GraphData,
};
use dense_subgraph::graph_operations::{bfs, find_edges};
use std::collections::HashSet;

// Twelve nodes: a cluster of eight around node 1 and four nodes hanging off it.
fn fixture_lines() -> Vec<String> {
    [
        "# undirected connections, one per line",
        "1 6", "1 7", "1 8", "1 9", "1 11", "2 10", "3 11", "4 10", "5 10", "6 9", "7 10",
        "7 12", "8 10", "8 12", "10 11", "10 12",
    ]
    .iter()
    .map(|line| line.to_string())
    .collect()
}

fn fixture_graph() -> Graph {
    let graph_data = edges_from_lines(&fixture_lines()).expect("Failed to read graph data");
    let mut graph = Graph::new();
    if let GraphData::Edges(edges) = graph_data {
        for edge in edges {
            graph.add_edge(edge);
        }
    } else {
        panic!("Invalid graph data format");
    }
    graph
}

fn set_of(nodes: &[u32]) -> HashSet<u32> {
    nodes.iter().cloned().collect()
}

#[test]
fn test_densest_subgraph_density() {
    let graph = fixture_graph();

    let start_node = 1;
    let max_depth = 2;
    let subgraph = find_highest_density_subgraph_with_start_node(&graph, start_node, max_depth);

    let density = subgraph.density.numerator as f64 / subgraph.density.denominator as f64;
    assert_eq!(density, 1.5, "Density of the densest subgraph did not match expected value.");
}

#[test]
fn test_top_node_and_connections() {
    let graph = fixture_graph();

    let start_node = 1;
    let max_depth = 2;
    let reachable_nodes = bfs(&graph, start_node, max_depth);
    let edges_set = find_edges(&graph, &reachable_nodes);

    match calculate_top_nodes(&edges_set.to_vec(), 1) {
        GraphData::TopNodes(top_nodes) => {
            assert_eq!(top_nodes.len(), 1, "Expected only one top node.");
            let top_node = &top_nodes[0];
            assert_eq!(top_node.node, 1, "Expected top node to be node 1.");
            assert_eq!(top_node.count, 5, "Expected node 1 to have 5 connections.");
        }
        _ => panic!("Invalid top nodes data"),
    }
}

#[test]
fn test_nodes_in_densest_subgraph() {
    let graph = fixture_graph();

    let start_node = 9;
    let max_depth = 4;
    let subgraph = find_highest_density_subgraph_with_start_node(&graph, start_node, max_depth);

    let expected_nodes: HashSet<u32> = [12, 8, 6, 11, 10, 9, 1, 7].iter().cloned().collect();
    let subgraph_nodes: HashSet<u32> = subgraph.nodes;

    assert_eq!(
        subgraph_nodes, expected_nodes,
        "The nodes in the densest subgraph do not match the expected set."
    );
}

#[test]
fn fixture_neighbourhoods_by_depth() {
    let graph = fixture_graph();
    assert_eq!(bfs(&graph, 1, 0), set_of(&[1]));
    assert_eq!(bfs(&graph, 1, 1), set_of(&[1, 6, 7, 8, 9, 11]));
    assert_eq!(bfs(&graph, 1, 2), set_of(&[1, 3, 6, 7, 8, 9, 10, 11, 12]));
    assert_eq!(bfs(&graph, 1, 3), set_of(&[1, 2, 3, 4, 5, 6, 7, 8, 9, 10, 11, 12]));
    assert_eq!(bfs(&graph, 2, 1), set_of(&[2, 10]));
    assert_eq!(bfs(&graph, 2, 2), set_of(&[2, 4, 5, 7, 8, 10, 11, 12]));
}

#[test]
fn fixture_neighbourhood_density_is_exact() {
    let graph = fixture_graph();
    let nodes = bfs(&graph, 1, 2);
    let edges = find_edges(&graph, &nodes);
    assert_eq!(edges.len(), 26);
    let density = calculate_graph_density(&nodes, &edges);
    assert_eq!(density.numerator, 26);
    assert_eq!(density.denominator, 18);
}

#[test]
fn fixture_densest_subgraph_fields() {
    let graph = fixture_graph();
    let best = find_highest_density_subgraph_with_start_node(&graph, 1, 2);
    assert_eq!(best.nodes, set_of(&[1, 6, 7, 8, 9, 10, 11, 12]));
    assert_eq!(best.density.numerator, 24);
    assert_eq!(best.density.denominator, 16);

    let wider = find_highest_density_subgraph_with_start_node(&graph, 1, 3);
    assert_eq!(wider.nodes, set_of(&[1, 6, 7, 8, 9, 10, 11, 12]));
    assert_eq!(wider.density.numerator, 24);
    assert_eq!(wider.density.denominator, 16);

    let side = find_highest_density_subgraph_with_start_node(&graph, 2, 2);
    assert_eq!(side.nodes, set_of(&[2, 7, 8, 10, 12]));
    assert_eq!(side.density.numerator, 12);
    assert_eq!(side.density.denominator, 10);
}

#[test]
fn fixture_ranking_of_three() {
    let graph = fixture_graph();
    let nodes = bfs(&graph, 1, 2);
    let edges = find_edges(&graph, &nodes).to_vec();
    match calculate_top_nodes(&edges, 3) {
        GraphData::TopNodes(top) => {
            let listed: Vec<(u32, usize)> = top.iter().map(|c| (c.node, c.count)).collect();
            assert_eq!(listed, vec![(1, 5), (10, 4), (7, 3)]);
        }
        _ => panic!("expected a ranking"),
    }
    let all = bfs(&graph, 9, 4);
    let all_edges = find_edges(&graph, &all).to_vec();
    match calculate_top_nodes(&all_edges, 3) {
        GraphData::TopNodes(top) => {
            let listed: Vec<(u32, usize)> = top.iter().map(|c| (c.node, c.count)).collect();
            assert_eq!(listed, vec![(10, 7), (1, 5), (7, 3)]);
        }
        _ => panic!("expected a ranking"),
    }
}
