use dsa::algorithms::graph_traversal::bellman_ford;
use dsa::algorithms::graph_traversal::breadth_first_search;
use dsa::algorithms::graph_traversal::depth_first_search;
use dsa::algorithms::graph_traversal::dijkstra;
use dsa::algorithms::graph_traversal::BellmanFordError;
use dsa::data_structures::graph::Graph;
use dsa::data_structures::graph::GraphNode;

fn create_graph() -> Graph<String> {
    let mut graph = Graph::new();

    let node_a = GraphNode::new("A".to_string());
    let node_b = GraphNode::new("B".to_string());
    let node_c = GraphNode::new("C".to_string());
    let node_d = GraphNode::new("D".to_string());
    let node_e = GraphNode::new("E".to_string());

    graph.add_node(node_a.clone());
    graph.add_node(node_b.clone());
    graph.add_node(node_c.clone());
    graph.add_node(node_d.clone());
    graph.add_node(node_e.clone());

    graph.add_edge(node_a.clone(), node_b.clone(), None);
    graph.add_edge(node_a.clone(), node_c.clone(), None);
    graph.add_edge(node_b.clone(), node_d.clone(), None);
    graph.add_edge(node_b.clone(), node_e.clone(), None);

    graph
}

fn breadth_first_search_checks() {
    let graph = create_graph();
    let start_node = GraphNode::new("A".to_string());

    let result = breadth_first_search(&graph, start_node);

    let expected = vec!["A", "B", "C", "D", "E"];

    assert_eq!(result, expected);
}

#[test]
fn test_breadth_first_search() {
    breadth_first_search_checks();
}

#[test]
fn graph_traversal_test_test_breadth_first_search() {
    breadth_first_search_checks();
}

fn depth_first_search_checks() {
    let graph = create_graph();
    let start_node = GraphNode::new(String::from("A"));

    let result = depth_first_search(&graph, start_node);

    let expected = vec!["A", "B", "D", "E", "C"];

    assert_eq!(result, expected);
}

#[test]
fn test_depth_first_search() {
    depth_first_search_checks();
}

#[test]
fn graph_traversal_test_test_depth_first_search() {
    depth_first_search_checks();
}

// The lookups from `start` with no edges degrade to the trivial result.
#[test]
fn test_single_node_graph() {
    let graph = Graph::new();
    let start = GraphNode::new(1);

    let result = dijkstra(&graph, start);
    assert_eq!(result.len(), 1);
    assert_eq!(result.get(&GraphNode::new(1)), Some(0));
}

#[test]
fn graph_traversal_test_test_single_node_graph() {
    let graph = Graph::new();
    let start = GraphNode::new(1);

    let result = bellman_ford(&graph, start).unwrap();
    assert_eq!(result.len(), 1);
    assert_eq!(result.get(&GraphNode::new(1)), Some(0));
}

// The weighted triangle: both algorithms yield {1: 0, 2: 5, 3: 15}.
#[test]
fn test_simple_graph() {
    let mut graph = Graph::new();
    let node1 = GraphNode::new(1);
    let node2 = GraphNode::new(2);
    let node3 = GraphNode::new(3);

    graph.add_edge(node1.clone(), node2.clone(), Some(5));
    graph.add_edge(node2.clone(), node3.clone(), Some(10));

    let result = dijkstra(&graph, node1.clone());

    assert_eq!(result.len(), 3);
    assert_eq!(result.get(&node1), Some(0));
    assert_eq!(result.get(&node2), Some(5));
    assert_eq!(result.get(&node3), Some(15));
}

#[test]
fn graph_traversal_test_test_simple_graph() {
    let mut graph = Graph::new();
    let node1 = GraphNode::new(1);
    let node2 = GraphNode::new(2);
    let node3 = GraphNode::new(3);

    graph.add_edge(node1.clone(), node2.clone(), Some(5));
    graph.add_edge(node2.clone(), node3.clone(), Some(10));

    let result = bellman_ford(&graph, node1.clone()).unwrap();

    assert_eq!(result.len(), 3);
    assert_eq!(result.get(&node1), Some(0));
    assert_eq!(result.get(&node2), Some(5));
    assert_eq!(result.get(&node3), Some(15));
}

fn graph_with_multiple_paths_checks() {
    let mut graph = Graph::new();
    let node1 = GraphNode::new(1);
    let node2 = GraphNode::new(2);
    let node3 = GraphNode::new(3);
    let node4 = GraphNode::new(4);

    graph.add_edge(node1.clone(), node2.clone(), Some(1));
    graph.add_edge(node1.clone(), node3.clone(), Some(4));
    graph.add_edge(node2.clone(), node3.clone(), Some(2));
    graph.add_edge(node2.clone(), node4.clone(), Some(5));
    graph.add_edge(node3.clone(), node4.clone(), Some(1));

    let result = dijkstra(&graph, node1.clone());

    assert_eq!(result.len(), 4);
    assert_eq!(result.get(&node1), Some(0));
    assert_eq!(result.get(&node2), Some(1));
    assert_eq!(result.get(&node3), Some(3));
    assert_eq!(result.get(&node4), Some(4));
}

#[test]
fn test_graph_with_multiple_paths() {
    graph_with_multiple_paths_checks();
}

#[test]
fn graph_traversal_test_test_graph_with_multiple_paths() {
    graph_with_multiple_paths_checks();
}

// In an undirected graph a negative edge is already a negative cycle.
fn graph_with_negative_weights_checks() {
    let mut graph = Graph::new();
    let node1 = GraphNode::new(1);
    let node2 = GraphNode::new(2);
    let node3 = GraphNode::new(3);
    let node4 = GraphNode::new(4);

    graph.add_edge(node1.clone(), node2.clone(), Some(1));
    graph.add_edge(node1.clone(), node3.clone(), Some(4));
    graph.add_edge(node2.clone(), node3.clone(), Some(-2));
    graph.add_edge(node2.clone(), node4.clone(), Some(-5));
    graph.add_edge(node3.clone(), node4.clone(), Some(1));

    let result = bellman_ford(&graph, node1.clone());

    assert!(result.is_err(), "Expected negative cycle error, got {:?}", result);
}

#[test]
fn test_graph_with_negative_weights() {
    graph_with_negative_weights_checks();
}

#[test]
fn graph_traversal_test_test_graph_with_negative_weights() {
    graph_with_negative_weights_checks();
}

fn negative_cycle_checks() {
    let mut graph = Graph::new();
    let node1 = GraphNode::new(1);
    let node2 = GraphNode::new(2);
    let node3 = GraphNode::new(3);
    let node4 = GraphNode::new(4);

    graph.add_edge(node1.clone(), node2.clone(), Some(1));
    graph.add_edge(node1.clone(), node3.clone(), Some(4));
    graph.add_edge(node2.clone(), node3.clone(), Some(2));
    graph.add_edge(node2.clone(), node4.clone(), Some(5));
    graph.add_edge(node3.clone(), node4.clone(), Some(1));

    graph.add_edge(node4.clone(), node2.clone(), Some(-10));

    let result = bellman_ford(&graph, node1.clone());

    assert!(result.is_err(), "Expected negative cycle error, got {:?}", result);
}

#[test]
fn test_negative_cycle() {
    negative_cycle_checks();
}

#[test]
fn graph_traversal_test_test_negative_cycle() {
    negative_cycle_checks();
}

// A node with no path from the start is missing from the result.
fn disconnected_graph_checks() {
    let mut graph = Graph::new();
    let node1 = GraphNode::new(1);
    let node2 = GraphNode::new(2);
    let node3 = GraphNode::new(3);

    graph.add_node(node1.clone());
    graph.add_node(node2.clone());
    graph.add_node(node3.clone());
    graph.add_edge(node1.clone(), node2.clone(), Some(5));

    let result = bellman_ford(&graph, node1.clone()).unwrap();

    assert_eq!(result.len(), 2);
    assert_eq!(result.get(&node1), Some(0));
    assert_eq!(result.get(&node2), Some(5));
    assert!(result.get(&node3).is_none());
}

#[test]
fn test_disconnected_graph() {
    disconnected_graph_checks();
}

#[test]
fn graph_traversal_test_test_disconnected_graph() {
    disconnected_graph_checks();
}

// A non-negative self-loop does not move any distance.
fn graph_with_self_loops_checks() {
    let mut graph = Graph::new();
    let node1 = GraphNode::new(1);
    let node2 = GraphNode::new(2);

    graph.add_edge(node1.clone(), node2.clone(), Some(1));
    graph.add_edge(node2.clone(), node2.clone(), Some(0));

    let result = bellman_ford(&graph, node1.clone()).unwrap();

    assert_eq!(result.len(), 2);
    assert_eq!(result.get(&node1), Some(0));
    assert_eq!(result.get(&node2), Some(1));
}

#[test]
fn test_graph_with_self_loops() {
    graph_with_self_loops_checks();
}

#[test]
fn graph_traversal_test_test_graph_with_self_loops() {
    graph_with_self_loops_checks();
}

// Dijkstra and Bellman-Ford agree on a graph with non-negative weights.
#[test]
fn test_shortest_paths_agree_on_nonnegative_weights() {
    let mut graph = Graph::new();
    let node1 = GraphNode::new(1);
    let node2 = GraphNode::new(2);
    let node3 = GraphNode::new(3);
    let node4 = GraphNode::new(4);

    graph.add_edge(node1.clone(), node2.clone(), Some(1));
    graph.add_edge(node1.clone(), node3.clone(), Some(4));
    graph.add_edge(node2.clone(), node3.clone(), Some(2));
    graph.add_edge(node2.clone(), node4.clone(), Some(5));
    graph.add_edge(node3.clone(), node4.clone(), Some(1));

    let by_dijkstra = dijkstra(&graph, node1.clone());
    let by_bellman_ford = bellman_ford(&graph, node1.clone()).unwrap();

    assert_eq!(by_dijkstra.len(), by_bellman_ford.len());
    for node in [node1, node2, node3, node4] {
        assert_eq!(
            by_dijkstra.get(&node).map(|d| d as i64),
            by_bellman_ford.get(&node).map(|d| d as i64)
        );
    }
}

// Bellman-Ford rejects a graph with an unweighted edge up front.
#[test]
fn test_bellman_ford_rejects_unweighted_edge() {
    let mut graph = Graph::new();
    let node1 = GraphNode::new(1);
    let node2 = GraphNode::new(2);

    graph.add_edge(node1.clone(), node2.clone(), None);

    let result = bellman_ford(&graph, node1.clone());
    assert_eq!(result.unwrap_err(), BellmanFordError::MissingWeight);
}

// Dijkstra never relaxes an unweighted edge.
#[test]
fn test_dijkstra_skips_unweighted_edges() {
    let mut graph = Graph::new();
    let node1 = GraphNode::new(1);
    let node2 = GraphNode::new(2);
    let node3 = GraphNode::new(3);

    graph.add_edge(node1.clone(), node2.clone(), None);
    graph.add_edge(node1.clone(), node3.clone(), Some(7));

    let result = dijkstra(&graph, node1.clone());
    assert_eq!(result.len(), 2);
    assert_eq!(result.get(&node1), Some(0));
    assert!(result.get(&node2).is_none());
    assert_eq!(result.get(&node3), Some(7));
}

// A stale queue entry is discarded: node 3 is first recorded at 10
// through the direct edge, then improved to 3, leaving a stale entry.
#[test]
fn test_dijkstra_discards_stale_queue_entries() {
    let mut graph = Graph::new();
    let node1 = GraphNode::new(1);
    let node2 = GraphNode::new(2);
    let node3 = GraphNode::new(3);
    let node4 = GraphNode::new(4);

    graph.add_edge(node1.clone(), node3.clone(), Some(10));
    graph.add_edge(node1.clone(), node2.clone(), Some(1));
    graph.add_edge(node2.clone(), node3.clone(), Some(2));
    graph.add_edge(node3.clone(), node4.clone(), Some(1));

    let result = dijkstra(&graph, node1.clone());
    assert_eq!(result.get(&node3), Some(3));
    assert_eq!(result.get(&node4), Some(4));
}

// BFS and DFS visit the same set of nodes, whatever the order.
#[test]
fn test_traversals_visit_same_nodes() {
    let graph = create_graph();
    let mut by_breadth = breadth_first_search(&graph, GraphNode::new("A".to_string()));
    let mut by_depth = depth_first_search(&graph, GraphNode::new("A".to_string()));
    by_breadth.sort();
    by_depth.sort();
    assert_eq!(by_breadth, by_depth);
}

// An absent start yields the one-element answer.
#[test]
fn test_traversals_with_absent_start() {
    let graph: Graph<i32> = Graph::new();
    assert_eq!(breadth_first_search(&graph, GraphNode::new(9)), vec![9]);
    assert_eq!(depth_first_search(&graph, GraphNode::new(9)), vec![9]);
}
