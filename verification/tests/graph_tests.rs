use louvain::graph::{Edge, Graph, Node, MAX_TOTAL_WEIGHT};

fn path_graph() -> Graph {
    let mut graph = Graph::new();
    graph.add_node(0, "a");
    graph.add_node(1, "b");
    graph.add_node(2, "c");
    graph.add_edge(0, 1, 3);
    graph.add_edge(1, 2, 4);
    graph.add_edge(0, 2, 5);
    graph.add_edge(1, 0, 7);
    graph
}

#[test]
fn new_node_has_no_degree() {
    let node = Node::new(4, "four");
    assert_eq!(node.index, 4);
    assert_eq!(node.id, "four");
    assert_eq!(node.in_degree, 0);
    assert_eq!(node.out_degree, 0);
}

#[test]
fn new_graph_is_empty() {
    let graph = Graph::new();
    assert_eq!(graph.node_count(), 0);
    assert_eq!(graph.size(), 0);
    assert!(graph.edges().is_empty());
    assert!(graph.node_indices().is_empty());
    assert!(graph.edge_weights().is_empty());
}

#[test]
fn add_node_appends_in_index_order() {
    let graph = path_graph();
    assert_eq!(graph.node_count(), 3);
    assert_eq!(graph.node_indices(), vec![0, 1, 2]);
    assert_eq!(graph.nodes[0].id, "a");
    assert_eq!(graph.nodes[2].id, "c");
    assert_eq!(graph.nodes[1].index, 1);
    assert!(graph.in_edges(2).len() == 2);
}

#[test]
fn add_edge_updates_both_degrees() {
    let graph = path_graph();
    assert_eq!(graph.out_degrees(), vec![8, 11, 0]);
    assert_eq!(graph.in_degrees(), vec![7, 3, 9]);
    assert_eq!(graph.nodes[1].out_degree, 11);
    assert_eq!(graph.nodes[1].in_degree, 3);
}

#[test]
fn size_is_total_edge_weight() {
    let graph = path_graph();
    assert_eq!(graph.size(), 19);
}

#[test]
fn degree_sums_equal_total_weight() {
    let graph = path_graph();
    let weights: u64 = graph.edges().iter().map(|e| e.weight).sum();
    let out: u64 = graph.out_degrees().iter().sum();
    let into: u64 = graph.in_degrees().iter().sum();
    assert_eq!(out, weights);
    assert_eq!(into, weights);
    assert_eq!(graph.size(), weights);
}

#[test]
fn edges_keep_insertion_order() {
    let graph = path_graph();
    let expected = vec![
        Edge { source: 0, target: 1, weight: 3 },
        Edge { source: 1, target: 2, weight: 4 },
        Edge { source: 0, target: 2, weight: 5 },
        Edge { source: 1, target: 0, weight: 7 },
    ];
    assert_eq!(graph.edges(), &expected);
}

#[test]
fn out_edges_and_in_edges_list_incident_edges() {
    let graph = path_graph();
    assert_eq!(
        graph.out_edges(0),
        &vec![Edge { source: 0, target: 1, weight: 3 }, Edge { source: 0, target: 2, weight: 5 }]
    );
    assert_eq!(graph.in_edges(0), &vec![Edge { source: 1, target: 0, weight: 7 }]);
    assert!(graph.out_edges(2).is_empty());
    assert_eq!(
        graph.in_edges(2),
        &vec![Edge { source: 1, target: 2, weight: 4 }, Edge { source: 0, target: 2, weight: 5 }]
    );
}

#[test]
fn self_loop_counts_for_both_degrees_and_both_lists() {
    let mut graph = Graph::new();
    graph.add_node(0, "only");
    graph.add_edge(0, 0, 6);
    assert_eq!(graph.out_degrees(), vec![6]);
    assert_eq!(graph.in_degrees(), vec![6]);
    assert_eq!(graph.size(), 6);
    let own = Edge { source: 0, target: 0, weight: 6 };
    assert_eq!(graph.out_edges(0), &vec![own]);
    assert_eq!(graph.in_edges(0), &vec![own]);
    assert_eq!(graph.neighbors(0), vec![0, 0]);
    assert_eq!(graph.edges_connecting(0, 0), vec![own, own]);
}

#[test]
fn neighbors_lists_targets_then_sources() {
    let graph = path_graph();
    assert_eq!(graph.neighbors(0), vec![1, 2, 1]);
    assert_eq!(graph.neighbors(1), vec![2, 0, 0]);
    assert_eq!(graph.neighbors(2), vec![1, 0]);
}

#[test]
fn edges_connecting_lists_both_directions() {
    let graph = path_graph();
    assert_eq!(
        graph.edges_connecting(0, 1),
        vec![Edge { source: 0, target: 1, weight: 3 }, Edge { source: 1, target: 0, weight: 7 }]
    );
    assert_eq!(graph.edges_connecting(2, 0), vec![Edge { source: 0, target: 2, weight: 5 }]);
    assert!(graph.edges_connecting(2, 2).is_empty());
}

#[test]
fn edge_weights_are_grouped_by_target() {
    let graph = path_graph();
    assert_eq!(graph.edge_weights(), vec![7, 3, 4, 5]);
}

#[test]
fn parallel_edges_are_kept_apart() {
    let mut graph = Graph::new();
    graph.add_node(0, "x");
    graph.add_node(1, "y");
    graph.add_edge(0, 1, 2);
    graph.add_edge(0, 1, 9);
    assert_eq!(graph.edges().len(), 2);
    assert_eq!(graph.out_degrees(), vec![11, 0]);
    assert_eq!(graph.in_degrees(), vec![0, 11]);
    assert_eq!(graph.edges_connecting(0, 1).len(), 2);
}

#[test]
fn total_weight_may_reach_the_limit() {
    let mut graph = Graph::new();
    graph.add_node(0, "x");
    graph.add_node(1, "y");
    graph.add_edge(0, 1, MAX_TOTAL_WEIGHT - 1);
    graph.add_edge(1, 0, 1);
    assert_eq!(graph.size(), MAX_TOTAL_WEIGHT);
    assert_eq!(graph.size(), 1_073_741_823);
}

#[test]
fn zero_weight_edge_is_an_edge() {
    let mut graph = Graph::new();
    graph.add_node(0, "x");
    graph.add_node(1, "y");
    graph.add_edge(0, 1, 0);
    assert_eq!(graph.size(), 0);
    assert_eq!(graph.neighbors(1), vec![0]);
    assert_eq!(graph.edge_weights(), vec![0]);
}
