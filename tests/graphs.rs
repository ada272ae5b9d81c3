use rust_data_structures::error::GraphError;
use rust_data_structures::graphs::{Graph, Node};

const A: u64 = 1;
const B: u64 = 2;
const C: u64 = 3;

fn ring() -> Graph {
    let mut graph = Graph::new();
    graph.add_node(A);
    graph.add_node(B);
    graph.add_node(C);
    graph.add_edge(A, B).unwrap();
    graph.add_edge(B, C).unwrap();
    graph.add_edge(C, A).unwrap();
    graph
}

#[test]
fn node_relatives_are_a_set() {
    let mut node = Node::new(A);
    assert!(!node.has_relative(B));
    node.add_relative(B);
    node.add_relative(B);
    assert!(node.has_relative(B));
    node.remove_relative(B);
    assert!(!node.has_relative(B));
    node.remove_relative(C);
    assert!(!node.has_relative(C));
}

#[test]
fn add_node_twice_keeps_edges() {
    let mut graph = Graph::new();
    graph.add_node(A);
    graph.add_node(B);
    graph.add_edge(A, B).unwrap();
    graph.add_node(A);
    graph.add_node(A);
    assert!(graph.is_node_exists(A));
    assert!(graph.is_edge_exists(A, B));
    assert!(!graph.is_edge_exists(B, A));
}

#[test]
fn add_edge_reports_missing_endpoint() {
    let mut graph = Graph::new();
    graph.add_node(A);
    assert_eq!(graph.add_edge(B, A), Err(GraphError::FromNodeNotFound));
    assert_eq!(graph.add_edge(A, B), Err(GraphError::ToNodeNotFound));
    assert!(!graph.is_edge_exists(A, B));
}

#[test]
fn remove_node_purges_references() {
    let mut graph = ring();
    graph.add_edge(A, C).unwrap();
    assert_eq!(graph.remove_node(C), Ok(()));
    assert!(!graph.is_node_exists(C));
    assert!(!graph.is_edge_exists(A, C));
    assert!(!graph.is_edge_exists(B, C));
    assert!(graph.is_edge_exists(A, B));
    assert_eq!(graph.remove_node(C), Err(GraphError::NodeNotFound));
}

#[test]
fn remove_edge_ignores_missing_endpoints() {
    let mut graph = ring();
    graph.remove_edge(A, 9);
    graph.remove_edge(9, A);
    assert!(graph.is_edge_exists(A, B));
    graph.remove_edge(A, B);
    assert!(!graph.is_edge_exists(A, B));
    assert!(graph.is_edge_exists(B, C));
}

#[test]
fn ring_has_cycle_until_an_edge_goes() {
    assert!(ring().has_cycle());
    for (from, to) in [(A, B), (B, C), (C, A)] {
        let mut graph = ring();
        graph.remove_edge(from, to);
        assert!(!graph.has_cycle());
    }
}

#[test]
fn self_loop_is_a_cycle() {
    let mut graph = Graph::new();
    graph.add_node(A);
    assert!(!graph.has_cycle());
    graph.add_edge(A, A).unwrap();
    assert!(graph.has_cycle());
}

#[test]
fn cycle_in_second_component_is_found() {
    let mut graph = Graph::new();
    for id in [A, B, C, 4, 5] {
        graph.add_node(id);
    }
    graph.add_edge(A, B).unwrap();
    graph.add_edge(C, 4).unwrap();
    graph.add_edge(4, 5).unwrap();
    assert!(!graph.has_cycle());
    graph.add_edge(5, C).unwrap();
    assert!(graph.has_cycle());
}

#[test]
fn topological_sort_places_dependencies_first() {
    let utils = 10;
    let core = 20;
    let console = 30;
    let calculator = 40;
    let mut graph = Graph::new();
    for id in [utils, core, console, calculator] {
        graph.add_node(id);
    }
    graph.add_edge(utils, core).unwrap();
    graph.add_edge(console, core).unwrap();
    graph.add_edge(calculator, console).unwrap();
    graph.add_edge(calculator, utils).unwrap();
    let order = graph.topological_sort();
    assert_eq!(order.len(), 4);
    let at = |id: u64| order.iter().position(|x| *x == id).unwrap();
    assert!(at(core) < at(console));
    assert!(at(core) < at(utils));
    assert!(at(console) < at(calculator));
    assert!(at(utils) < at(calculator));
}

#[test]
fn topological_sort_of_empty_graph() {
    assert!(Graph::new().topological_sort().is_empty());
}
