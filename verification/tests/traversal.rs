use dense_subgraph::edge_set::{hash_set_to_vec, EdgeSet};
use dense_subgraph::graph::{Edge, Graph, GraphOperationResult};
use dense_subgraph::graph_operations::{bfs, find_edges};
use std::collections::HashSet;

fn undirected(pairs: &[(u32, u32)]) -> Graph {
    let mut graph = Graph::new();
    for &(a, b) in pairs {
        graph.add_edge(Edge { from: a, to: b });
        graph.add_edge(Edge { from: b, to: a });
    }
    graph
}

fn set_of(nodes: &[u32]) -> HashSet<u32> {
    nodes.iter().cloned().collect()
}

fn sorted_arcs(edges: &EdgeSet) -> Vec<(u32, u32)> {
    let mut arcs: Vec<(u32, u32)> = edges.to_vec().iter().map(|e| (e.from, e.to)).collect();
    arcs.sort();
    arcs
}

#[test]
fn new_graph_is_empty() {
    let graph = Graph::new();
    assert!(graph.nodes.is_empty());
    assert_eq!(graph.find_node(0), GraphOperationResult::NodeNotFound(0));
}

#[test]
fn add_edge_appends_and_creates_target_entry() {
    let mut graph = Graph::new();
    graph.add_edge(Edge { from: 1, to: 2 });
    assert_eq!(graph.nodes.get(&1), Some(&vec![2]));
    assert_eq!(graph.nodes.get(&2), Some(&vec![]));
    graph.add_edge(Edge { from: 1, to: 3 });
    graph.add_edge(Edge { from: 1, to: 2 });
    assert_eq!(graph.nodes.get(&1), Some(&vec![2, 3, 2]));
    assert_eq!(graph.nodes.get(&3), Some(&vec![]));
    assert_eq!(graph.nodes.len(), 3);
}

#[test]
fn add_edge_does_not_mirror() {
    let mut graph = Graph::new();
    graph.add_edge(Edge { from: 7, to: 9 });
    assert_eq!(graph.nodes.get(&9), Some(&vec![]));
    assert_eq!(bfs(&graph, 9, 5), set_of(&[9]));
    assert_eq!(bfs(&graph, 7, 5), set_of(&[7, 9]));
}

#[test]
fn add_edge_keeps_existing_target_list() {
    let mut graph = Graph::new();
    graph.add_edge(Edge { from: 2, to: 5 });
    graph.add_edge(Edge { from: 1, to: 2 });
    assert_eq!(graph.nodes.get(&2), Some(&vec![5]));
}

#[test]
fn self_loop_is_stored_once_in_the_list() {
    let mut graph = Graph::new();
    graph.add_edge(Edge { from: 4, to: 4 });
    assert_eq!(graph.nodes.get(&4), Some(&vec![4]));
    assert_eq!(graph.nodes.len(), 1);
}

#[test]
fn find_node_reports_presence() {
    let graph = undirected(&[(1, 2)]);
    assert_eq!(graph.find_node(1), GraphOperationResult::Success);
    assert_eq!(graph.find_node(2), GraphOperationResult::Success);
    assert_eq!(graph.find_node(3), GraphOperationResult::NodeNotFound(3));
    assert_eq!(graph.find_node(u32::MAX), GraphOperationResult::NodeNotFound(u32::MAX));
}

#[test]
fn from_edges_matches_repeated_add_edge() {
    let arcs = vec![
        Edge { from: 1, to: 2 },
        Edge { from: 2, to: 1 },
        Edge { from: 1, to: 3 },
        Edge { from: 1, to: 2 },
    ];
    let built = Graph::from_edges(&arcs);
    let mut by_hand = Graph::new();
    for arc in &arcs {
        by_hand.add_edge(*arc);
    }
    assert_eq!(built.nodes, by_hand.nodes);
    assert_eq!(built.nodes.get(&1), Some(&vec![2, 3, 2]));
    assert_eq!(built.nodes.get(&3), Some(&vec![]));
}

#[test]
fn from_edges_of_nothing_is_empty() {
    let built = Graph::from_edges(&[]);
    assert!(built.nodes.is_empty());
}

#[test]
fn bfs_with_zero_depth_is_start_only() {
    let graph = undirected(&[(1, 2), (2, 3), (1, 3), (3, 4)]);
    for start in 1..=4 {
        assert_eq!(bfs(&graph, start, 0), set_of(&[start]));
    }
}

#[test]
fn bfs_of_missing_start_is_singleton() {
    let graph = undirected(&[(1, 2)]);
    assert_eq!(bfs(&graph, 99, 0), set_of(&[99]));
    assert_eq!(bfs(&graph, 99, 10), set_of(&[99]));
    let empty = Graph::new();
    assert_eq!(bfs(&empty, 0, 3), set_of(&[0]));
}

#[test]
fn bfs_on_path_with_chord() {
    let graph = undirected(&[(1, 2), (2, 3), (1, 3), (3, 4)]);
    assert_eq!(bfs(&graph, 1, 1), set_of(&[1, 2, 3]));
    assert_eq!(bfs(&graph, 1, 2), set_of(&[1, 2, 3, 4]));
    assert_eq!(bfs(&graph, 4, 1), set_of(&[3, 4]));
    assert_eq!(bfs(&graph, 4, 2), set_of(&[1, 2, 3, 4]));
}

#[test]
fn bfs_depth_bounds_hops_on_a_chain() {
    let graph = undirected(&[(1, 2), (2, 3), (3, 4), (4, 5), (5, 6)]);
    for depth in 0..=5usize {
        let expected: HashSet<u32> = (1..=(depth as u32 + 1)).collect();
        assert_eq!(bfs(&graph, 1, depth), expected);
    }
    assert_eq!(bfs(&graph, 1, usize::MAX), set_of(&[1, 2, 3, 4, 5, 6]));
    assert_eq!(bfs(&graph, 3, 1), set_of(&[2, 3, 4]));
}

#[test]
fn bfs_uses_shortest_route() {
    // 1-2-3-4-5 and the shortcut 1-5: node 4 is two hops away through 5.
    let graph = undirected(&[(1, 2), (2, 3), (3, 4), (4, 5), (1, 5)]);
    assert_eq!(bfs(&graph, 1, 1), set_of(&[1, 2, 5]));
    assert_eq!(bfs(&graph, 1, 2), set_of(&[1, 2, 3, 4, 5]));
}

#[test]
fn bfs_follows_arc_direction() {
    let mut graph = Graph::new();
    graph.add_edge(Edge { from: 1, to: 2 });
    graph.add_edge(Edge { from: 2, to: 3 });
    graph.add_edge(Edge { from: 3, to: 1 });
    assert_eq!(bfs(&graph, 1, 1), set_of(&[1, 2]));
    assert_eq!(bfs(&graph, 1, 2), set_of(&[1, 2, 3]));
    assert_eq!(bfs(&graph, 3, 1), set_of(&[1, 3]));
}

#[test]
fn bfs_grows_with_depth() {
    let graph = undirected(&[(1, 2), (2, 3), (3, 4), (2, 5), (5, 6), (6, 7), (1, 8)]);
    for start in 1..=8u32 {
        let mut previous = bfs(&graph, start, 0);
        for depth in 1..=7usize {
            let next = bfs(&graph, start, depth);
            assert!(previous.is_subset(&next));
            previous = next;
        }
    }
}

#[test]
fn bfs_ignores_duplicate_and_self_arcs() {
    let mut graph = undirected(&[(1, 2), (1, 2), (2, 3)]);
    graph.add_edge(Edge { from: 2, to: 2 });
    assert_eq!(bfs(&graph, 1, 1), set_of(&[1, 2]));
    assert_eq!(bfs(&graph, 1, 2), set_of(&[1, 2, 3]));
}

#[test]
fn find_edges_on_path_with_chord() {
    let graph = undirected(&[(1, 2), (2, 3), (1, 3), (3, 4)]);
    let all = find_edges(&graph, &set_of(&[1, 2, 3, 4]));
    assert_eq!(
        sorted_arcs(&all),
        vec![(1, 2), (1, 3), (2, 1), (2, 3), (3, 1), (3, 2), (3, 4), (4, 3)]
    );
    let part = find_edges(&graph, &set_of(&[1, 2, 4]));
    assert_eq!(sorted_arcs(&part), vec![(1, 2), (2, 1)]);
}

#[test]
fn find_edges_keeps_only_inner_arcs() {
    let graph = undirected(&[(1, 2), (2, 3), (3, 4), (4, 1), (1, 3)]);
    let nodes = set_of(&[1, 3, 4, 77]);
    let edges = find_edges(&graph, &nodes);
    for arc in edges.to_vec() {
        assert!(nodes.contains(&arc.from));
        assert!(nodes.contains(&arc.to));
        assert!(graph.nodes.contains_key(&arc.from));
        assert!(graph.nodes.get(&arc.from).unwrap().contains(&arc.to));
    }
    assert_eq!(sorted_arcs(&edges), vec![(1, 3), (1, 4), (3, 1), (3, 4), (4, 1), (4, 3)]);
}

#[test]
fn find_edges_of_empty_or_unknown_nodes_is_empty() {
    let graph = undirected(&[(1, 2)]);
    assert!(find_edges(&graph, &HashSet::new()).is_empty());
    assert!(find_edges(&graph, &set_of(&[5, 6])).is_empty());
    assert_eq!(find_edges(&graph, &set_of(&[1])).len(), 0);
}

#[test]
fn find_edges_merges_repeated_arcs_and_keeps_self_loops() {
    let mut graph = Graph::new();
    graph.add_edge(Edge { from: 1, to: 2 });
    graph.add_edge(Edge { from: 1, to: 2 });
    graph.add_edge(Edge { from: 2, to: 2 });
    let edges = find_edges(&graph, &set_of(&[1, 2]));
    assert_eq!(sorted_arcs(&edges), vec![(1, 2), (2, 2)]);
}

#[test]
fn find_edges_counts_one_direction_where_only_one_is_stored() {
    let mut graph = Graph::new();
    graph.add_edge(Edge { from: 1, to: 2 });
    let edges = find_edges(&graph, &set_of(&[1, 2]));
    assert_eq!(sorted_arcs(&edges), vec![(1, 2)]);
}

#[test]
fn edge_set_insert_contains_len() {
    let mut edges = EdgeSet::new();
    assert!(edges.is_empty());
    assert_eq!(edges.len(), 0);
    assert!(edges.insert(Edge { from: 1, to: 2 }));
    assert!(!edges.insert(Edge { from: 1, to: 2 }));
    assert!(edges.insert(Edge { from: 2, to: 1 }));
    assert!(edges.insert(Edge { from: u32::MAX, to: 0 }));
    assert!(edges.insert(Edge { from: 0, to: u32::MAX }));
    assert!(edges.insert(Edge { from: u32::MAX, to: u32::MAX }));
    assert_eq!(edges.len(), 5);
    assert!(!edges.is_empty());
    assert!(edges.contains(&Edge { from: 1, to: 2 }));
    assert!(edges.contains(&Edge { from: u32::MAX, to: 0 }));
    assert!(edges.contains(&Edge { from: 0, to: u32::MAX }));
    assert!(!edges.contains(&Edge { from: 0, to: 0 }));
    assert!(!edges.contains(&Edge { from: 2, to: 2 }));
    assert_eq!(
        sorted_arcs(&edges),
        vec![(0, u32::MAX), (1, 2), (2, 1), (u32::MAX, 0), (u32::MAX, u32::MAX)]
    );
}

#[test]
fn edge_set_without_node_drops_touching_arcs() {
    let mut edges = EdgeSet::new();
    for &(a, b) in &[(1, 2), (2, 1), (2, 3), (3, 2), (3, 3), (1, 4), (4, 1)] {
        edges.insert(Edge { from: a, to: b });
    }
    let kept = edges.without_node(2);
    assert_eq!(sorted_arcs(&kept), vec![(1, 4), (3, 3), (4, 1)]);
    assert_eq!(edges.len(), 7);
    assert_eq!(sorted_arcs(&edges.without_node(9)).len(), 7);
    assert!(kept.without_node(3).without_node(1).is_empty());
}

#[test]
fn hash_set_to_vec_lists_each_member_once() {
    let members = set_of(&[5, 1, 9, 1, 3]);
    let mut listed = hash_set_to_vec(&members);
    listed.sort();
    assert_eq!(listed, vec![1, 3, 5, 9]);
    assert!(hash_set_to_vec(&HashSet::<u32>::new()).is_empty());
}
