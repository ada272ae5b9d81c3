use rust_data_structures::error::GraphError;
use rust_data_structures::weighted_graphs::{Edge, Node, WeightedGraph};

const A: u64 = 1;
const B: u64 = 2;
const C: u64 = 3;
const D: u64 = 4;
const E: u64 = 5;

fn graph_of(nodes: &[u64], edges: &[(u64, u64, usize)]) -> WeightedGraph {
    let mut graph = WeightedGraph::new();
    for id in nodes {
        graph.add_node(*id);
    }
    for (from, to, weight) in edges {
        graph.add_edge(*from, *to, *weight).unwrap();
    }
    graph
}

fn path_weight(graph: &WeightedGraph, path: &[u64]) -> usize {
    path.windows(2).map(|w| graph.edge_weight(w[0], w[1]).unwrap()).sum()
}

#[test]
fn edge_and_node_constructors() {
    let _edge = Edge::new(A, B, 3);
    let mut node = Node::new(A);
    node.add_edge(B, 3);
    node.add_edge(B, 4);
}

#[test]
fn add_edge_is_symmetric_and_overwrites() {
    let mut graph = graph_of(&[A, B], &[]);
    graph.add_edge(A, B, 7).unwrap();
    assert_eq!(graph.edge_weight(A, B), Some(7));
    assert_eq!(graph.edge_weight(B, A), Some(7));
    graph.add_edge(B, A, 2).unwrap();
    assert_eq!(graph.edge_weight(A, B), Some(2));
    assert_eq!(graph.edge_weight(B, A), Some(2));
}

#[test]
fn weighted_add_edge_reports_missing_endpoint() {
    let mut graph = graph_of(&[A], &[]);
    assert_eq!(graph.add_edge(B, A, 1), Err(GraphError::FromNodeNotFound));
    assert_eq!(graph.add_edge(A, B, 1), Err(GraphError::ToNodeNotFound));
    assert_eq!(graph.edge_weight(A, B), None);
}

#[test]
fn weighted_add_node_twice_keeps_edges() {
    let mut graph = graph_of(&[A, B], &[(A, B, 5)]);
    graph.add_node(A);
    assert_eq!(graph.edge_weight(A, B), Some(5));
    assert!(graph.is_node_exists(A));
    assert!(!graph.is_node_exists(C));
}

#[test]
fn is_empty_until_a_node_is_added() {
    let mut graph = WeightedGraph::new();
    assert!(graph.is_empty());
    graph.add_node(A);
    assert!(!graph.is_empty());
}

#[test]
fn shortest_path_prefers_lighter_route() {
    let graph = graph_of(
        &[A, B, C, D, E],
        &[(A, B, 1), (A, D, 5), (A, C, 1), (B, E, 4), (D, E, 1), (C, D, 1), (B, D, 4)],
    );
    let path = graph.shortest_path(A, E).unwrap();
    assert_eq!(path, vec![A, C, D, E]);
    assert_eq!(path_weight(&graph, &path), 3);
}

#[test]
fn shortest_path_to_itself() {
    let graph = graph_of(&[A, B], &[(A, B, 2)]);
    assert_eq!(graph.shortest_path(A, A).unwrap(), vec![A]);
}

#[test]
fn shortest_path_to_unreachable_is_target_alone() {
    let graph = graph_of(&[A, B, C], &[(A, B, 2)]);
    assert_eq!(graph.shortest_path(A, C).unwrap(), vec![C]);
}

#[test]
fn shortest_path_reports_missing_endpoint() {
    let graph = graph_of(&[A], &[]);
    assert_eq!(graph.shortest_path(B, A), Err(GraphError::FromNodeNotFound));
    assert_eq!(graph.shortest_path(A, B), Err(GraphError::ToNodeNotFound));
}

#[test]
fn minimum_spanning_tree_scenario() {
    let graph = graph_of(
        &[A, B, C, D],
        &[(A, B, 3), (B, D, 4), (A, C, 1), (C, B, 2), (C, D, 5)],
    );
    let tree = graph.minimum_spanning_tree().unwrap();
    assert_eq!(tree.edge_weight(A, C), Some(1));
    assert_eq!(tree.edge_weight(C, B), Some(2));
    assert_eq!(tree.edge_weight(B, D), Some(4));
    assert_eq!(tree.edge_weight(A, B), None);
    assert_eq!(tree.edge_weight(C, D), None);
    assert_eq!(path_weight(&tree, &[A, C, B, D]), 7);
}

#[test]
fn minimum_spanning_tree_can_drop_a_bridge() {
    // Edges A-B and C-D are taken first and mark all four nodes, so B-C never joins them.
    let graph = graph_of(&[A, B, C, D], &[(A, B, 1), (C, D, 2), (B, C, 3)]);
    let tree = graph.minimum_spanning_tree().unwrap();
    assert_eq!(tree.edge_weight(A, B), Some(1));
    assert_eq!(tree.edge_weight(C, D), Some(2));
    assert_eq!(tree.edge_weight(B, C), None);
}

#[test]
fn minimum_spanning_tree_of_empty_graph() {
    let tree = WeightedGraph::new().minimum_spanning_tree().unwrap();
    assert!(tree.is_empty());
}

#[test]
fn minimum_spanning_tree_skips_isolated_nodes() {
    let graph = graph_of(&[A, B, C], &[(A, B, 1)]);
    let tree = graph.minimum_spanning_tree().unwrap();
    assert!(tree.is_node_exists(A));
    assert!(tree.is_node_exists(B));
    assert!(!tree.is_node_exists(C));
}

#[test]
fn minimum_spanning_tree_twice_keeps_edges() {
    let graph = graph_of(
        &[A, B, C, D, E],
        &[(A, B, 1), (B, C, 2), (C, D, 3), (D, E, 4), (A, E, 5), (B, D, 6)],
    );
    let once = graph.minimum_spanning_tree().unwrap();
    let twice = once.minimum_spanning_tree().unwrap();
    for x in [A, B, C, D, E] {
        for y in [A, B, C, D, E] {
            assert_eq!(once.edge_weight(x, y), twice.edge_weight(x, y));
        }
    }
}

#[test]
fn weighted_triangle_has_cycle() {
    let graph = graph_of(&[A, B, C], &[(A, B, 1), (B, C, 1), (C, A, 1)]);
    assert!(graph.has_cycle());
}

#[test]
fn weighted_tree_has_no_cycle() {
    let graph = graph_of(&[A, B, C, D, E], &[(A, B, 1), (A, C, 2), (C, D, 3)]);
    assert!(!graph.has_cycle());
    assert!(!WeightedGraph::new().has_cycle());
}

#[test]
fn weighted_self_loop_is_a_cycle() {
    let graph = graph_of(&[A, B], &[(A, B, 1), (B, B, 2)]);
    assert!(graph.has_cycle());
}

#[test]
fn weighted_cycle_in_second_component() {
    let graph = graph_of(&[A, B, C, D, E], &[(A, B, 1), (C, D, 1), (D, E, 1), (E, C, 1)]);
    assert!(graph.has_cycle());
}

#[test]
fn weighted_scenario_graph_has_cycle() {
    let graph = graph_of(
        &[A, B, C, D, E],
        &[(A, B, 1), (A, D, 5), (A, C, 1), (B, E, 4), (D, E, 1), (C, D, 1), (B, D, 4)],
    );
    assert!(graph.has_cycle());
}
