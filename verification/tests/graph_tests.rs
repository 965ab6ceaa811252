use digraph::Graph;
use digraph::GraphError;

/// The cyclic six-node graph:
///
/// 0 -(1)-> 1 -(1)-> 3 -(1)-> 4 -(1)-> 0
/// |        |                 ^
/// |(1)     |(3)              | (1)
/// v        v                 |
/// 2 -(2)-> 5 ----------------+
fn prepare_cyclic() -> Graph<usize> {
    let mut graph: Graph<usize> = Graph::new();
    let node0 = graph.add_node(11);
    let node1 = graph.add_node(22);
    let node2 = graph.add_node(33);
    let node3 = graph.add_node(44);
    let node4 = graph.add_node(55);
    let node5 = graph.add_node(66);
    graph.add_edge(node0, node1, 1).unwrap();
    graph.add_edge(node0, node2, 1).unwrap();
    graph.add_edge(node1, node3, 1).unwrap();
    graph.add_edge(node1, node5, 3).unwrap();
    graph.add_edge(node3, node4, 1).unwrap();
    graph.add_edge(node2, node5, 2).unwrap();
    graph.add_edge(node5, node4, 1).unwrap();
    graph.add_edge(node4, node0, 1).unwrap();
    graph
}

/// The acyclic six-node graph: 0 -(1)-> 1, 0 -(1)-> 2, 1 -(1)-> 3,
/// 3 -(1)-> 4, 2 -(2)-> 5.
fn prepare_acyclic() -> Graph<usize> {
    let mut graph: Graph<usize> = Graph::new();
    let node1 = graph.add_node(11);
    let node2 = graph.add_node(22);
    let node3 = graph.add_node(33);
    let node4 = graph.add_node(44);
    let node5 = graph.add_node(55);
    let node6 = graph.add_node(66);
    graph.add_edge(node1, node2, 1).unwrap();
    graph.add_edge(node1, node3, 1).unwrap();
    graph.add_edge(node2, node4, 1).unwrap();
    graph.add_edge(node4, node5, 1).unwrap();
    graph.add_edge(node3, node6, 2).unwrap();
    graph
}

#[test]
fn graph_correct_dfs() {
    let graph = prepare_cyclic();
    assert_eq!(graph.dfs(0), [0, 1, 3, 4, 5, 2]);
}

#[test]
fn graph_correct_bfs() {
    let graph = prepare_cyclic();
    assert_eq!(graph.bfs(0), [0, 1, 2, 3, 5, 4]);
}

#[test]
fn correct_dijkstra_dist() {
    let graph = prepare_cyclic();
    assert_eq!(graph.dijkstra_dist(0, 5), Some((3, vec![0, 2, 5])));
}

#[test]
fn lib_correct_dfs() {
    let graph = prepare_acyclic();
    assert_eq!(graph.dfs(0), [0, 1, 3, 4, 2, 5]);
}

#[test]
fn lib_correct_bfs() {
    let graph = prepare_acyclic();
    assert_eq!(graph.bfs(0), [0, 1, 2, 3, 5, 4]);
}

#[test]
fn add_node_assigns_dense_ids() {
    let mut graph: Graph<&str> = Graph::new();
    assert_eq!(graph.node_count(), 0);
    assert_eq!(graph.add_node("a"), 0);
    assert_eq!(graph.add_node("b"), 1);
    assert_eq!(graph.add_node("c"), 2);
    assert_eq!(graph.node_count(), 3);
}

#[test]
fn traversals_are_deterministic() {
    let graph = prepare_cyclic();
    assert_eq!(graph.dfs(0), graph.dfs(0));
    assert_eq!(graph.bfs(0), graph.bfs(0));
    let acyclic = prepare_acyclic();
    assert_eq!(acyclic.dfs(2), acyclic.dfs(2));
    assert_eq!(acyclic.bfs(2), acyclic.bfs(2));
}

#[test]
fn traversals_visit_start_first_and_skip_unreachable() {
    let graph = prepare_acyclic();
    // Node 2's only descendant is 5; the rest is unreachable.
    assert_eq!(graph.dfs(2), [2, 5]);
    assert_eq!(graph.bfs(2), [2, 5]);
}

#[test]
fn add_edge_duplicate_is_idempotent() {
    let mut graph = prepare_cyclic();
    assert_eq!(graph.out_degree(0), 2);
    graph.add_edge(0, 1, 1).unwrap();
    assert_eq!(graph.out_degree(0), 2);
}

#[test]
fn parallel_edges_with_distinct_weights_coexist() {
    let mut graph: Graph<usize> = Graph::new();
    graph.add_node(1);
    graph.add_node(2);
    graph.add_edge(0, 1, 5).unwrap();
    graph.add_edge(0, 1, 7).unwrap();
    assert_eq!(graph.out_degree(0), 2);
    // The traversal still reports the target once.
    assert_eq!(graph.dfs(0), [0, 1]);
}

#[test]
fn add_edge_unknown_node_is_reported() {
    let mut graph = prepare_cyclic();
    let before: Vec<usize> = (0..graph.node_count()).map(|i| graph.out_degree(i)).collect();
    assert_eq!(graph.add_edge(6, 0, 1), Err(GraphError::UnknownNode(6)));
    assert_eq!(graph.add_edge(0, 9, 1), Err(GraphError::UnknownNode(9)));
    let after: Vec<usize> = (0..graph.node_count()).map(|i| graph.out_degree(i)).collect();
    assert_eq!(before, after);
}

#[test]
fn self_loops_are_permitted() {
    let mut graph: Graph<usize> = Graph::new();
    graph.add_node(7);
    graph.add_edge(0, 0, 3).unwrap();
    assert_eq!(graph.out_degree(0), 1);
    assert_eq!(graph.dfs(0), [0]);
    assert_eq!(graph.bfs(0), [0]);
}

#[test]
fn dijkstra_start_equals_target() {
    let graph = prepare_cyclic();
    assert_eq!(graph.dijkstra_dist(2, 2), Some((0, vec![2])));
}

#[test]
fn dijkstra_on_acyclic_graph() {
    let graph = prepare_acyclic();
    assert_eq!(graph.dijkstra_dist(0, 4), Some((3, vec![0, 1, 3, 4])));
    assert_eq!(graph.dijkstra_dist(0, 5), Some((3, vec![0, 2, 5])));
}

#[test]
fn dijkstra_unreachable_target() {
    let graph = prepare_acyclic();
    // Nothing leads back to node 0.
    assert_eq!(graph.dijkstra_dist(4, 0), None);
    let mut two: Graph<usize> = Graph::new();
    two.add_node(1);
    two.add_node(2);
    assert_eq!(two.dijkstra_dist(0, 1), None);
}

#[test]
fn dijkstra_zero_weight_edges() {
    let mut graph: Graph<usize> = Graph::new();
    graph.add_node(0);
    graph.add_node(1);
    graph.add_node(2);
    graph.add_edge(0, 1, 0).unwrap();
    graph.add_edge(1, 2, 0).unwrap();
    assert_eq!(graph.dijkstra_dist(0, 2), Some((0, vec![0, 1, 2])));
}

#[test]
fn show_renders_cyclic_graph() {
    // Side-effect only: the tree, back edges included, goes to stdout.
    let graph = prepare_cyclic();
    graph.show();
    let mut named: Graph<&str> = Graph::new();
    named.add_node("left");
    named.add_node("right");
    named.add_edge(0, 1, 2).unwrap();
    named.show();
}
