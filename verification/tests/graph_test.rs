use dsa::data_structures::graph::Graph;
use dsa::data_structures::graph::GraphNode;

fn weighted_graph_checks() {
    let mut graph = Graph::new();

    let node_a = GraphNode::new("Joey");
    let node_b = GraphNode::new("Dinner");
    let node_c = GraphNode::new("Lunch");

    graph.add_node(node_a.clone());
    graph.add_node(node_b.clone());
    graph.add_node(node_c.clone());

    graph.add_edge(node_a.clone(), node_b.clone(), Some(5));
    graph.add_edge(node_b.clone(), node_c.clone(), None);

    assert_eq!(graph.neighbors(&node_a), Some(&vec![(node_b.clone(), Some(5))]));
    assert_eq!(
        graph.neighbors(&node_b),
        Some(&vec![(node_a.clone(), Some(5)), (node_c.clone(), None)])
    );
    assert_eq!(graph.neighbors(&node_c), Some(&vec![(node_b.clone(), None)]));

    graph.remove_edge(node_a.clone(), node_b.clone());

    assert_eq!(graph.neighbors(&node_a), Some(&vec![]));
    assert_eq!(graph.neighbors(&node_b), Some(&vec![(node_c.clone(), None)]));
    assert_eq!(graph.neighbors(&node_c), Some(&vec![(node_b.clone(), None)]));

    graph.remove_node(node_b.clone());

    assert_eq!(graph.node_count(), 2);
    assert!(!graph.contains_node(&node_b));
    assert_eq!(graph.neighbors(&node_a), Some(&vec![]));
    assert_eq!(graph.neighbors(&node_c), Some(&vec![]));
}

#[test]
fn test_weighted_graph() {
    weighted_graph_checks();
}

#[test]
fn graph_test_test_weighted_graph() {
    weighted_graph_checks();
}

#[test]
fn test_remove_node_purges_neighbors() {
    let mut graph = Graph::new();
    let a = GraphNode::new(1);
    let b = GraphNode::new(2);
    let c = GraphNode::new(3);
    graph.add_edge(a.clone(), b.clone(), Some(4));
    graph.add_edge(b.clone(), c.clone(), Some(7));
    graph.remove_node(b.clone());
    assert!(!graph.contains_node(&b));
    assert_eq!(graph.neighbors(&a), Some(&vec![]));
    assert_eq!(graph.neighbors(&c), Some(&vec![]));
}

#[test]
fn test_add_edge_is_symmetric() {
    let mut graph = Graph::new();
    let a = GraphNode::new(10);
    let b = GraphNode::new(20);
    graph.add_edge(a.clone(), b.clone(), Some(3));
    assert_eq!(graph.neighbors(&a), Some(&vec![(b.clone(), Some(3))]));
    assert_eq!(graph.neighbors(&b), Some(&vec![(a.clone(), Some(3))]));
}

#[test]
fn test_add_node_is_idempotent() {
    let mut graph = Graph::new();
    graph.add_node(GraphNode::new(5));
    graph.add_node(GraphNode::new(5));
    assert_eq!(graph.node_count(), 1);
}

#[test]
fn test_self_loop_edge() {
    let mut graph = Graph::new();
    let a = GraphNode::new(1);
    graph.add_edge(a.clone(), a.clone(), Some(2));
    assert_eq!(graph.neighbors(&a), Some(&vec![(a.clone(), Some(2)), (a.clone(), Some(2))]));
}
