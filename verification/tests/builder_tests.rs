use louvain::builders::{
    graph_from_arcs, graph_from_edges, graph_from_matrix, matrix_edges, zero_based_edges, BuildError,
};
use louvain::graph::{Edge, MAX_TOTAL_WEIGHT};
use louvain::partition::{membership_rows, Community};

fn names(count: usize) -> Vec<String> {
    (0..count).map(|i| format!("node-{}", i)).collect()
}

#[test]
fn graph_from_edges_keeps_names_and_order() {
    let edges = vec![Edge { source: 1, target: 0, weight: 4 }, Edge { source: 1, target: 1, weight: 2 }];
    let graph = graph_from_edges(&names(2), &edges).unwrap();
    assert_eq!(graph.node_count(), 2);
    assert_eq!(graph.nodes[1].id, "node-1");
    assert_eq!(graph.edges(), &edges);
    assert_eq!(graph.out_degrees(), vec![0, 6]);
    assert_eq!(graph.in_degrees(), vec![4, 2]);
}

#[test]
fn graph_from_edges_refuses_missing_node() {
    let edges = vec![Edge { source: 0, target: 2, weight: 1 }];
    assert_eq!(graph_from_edges(&names(2), &edges).err(), Some(BuildError::NodeOutOfRange));
    let edges = vec![Edge { source: 2, target: 0, weight: 1 }];
    assert_eq!(graph_from_edges(&names(2), &edges).err(), Some(BuildError::NodeOutOfRange));
    assert_eq!(graph_from_edges(&names(0), &edges).err(), Some(BuildError::NodeOutOfRange));
}

#[test]
fn graph_from_edges_refuses_too_much_weight() {
    let edges = vec![
        Edge { source: 0, target: 1, weight: MAX_TOTAL_WEIGHT },
        Edge { source: 1, target: 0, weight: 1 },
    ];
    assert_eq!(graph_from_edges(&names(2), &edges).err(), Some(BuildError::TooHeavy));
    let edges = vec![Edge { source: 0, target: 1, weight: u64::MAX }, Edge { source: 1, target: 0, weight: u64::MAX }];
    assert_eq!(graph_from_edges(&names(2), &edges).err(), Some(BuildError::TooHeavy));
    let edges = vec![Edge { source: 0, target: 1, weight: MAX_TOTAL_WEIGHT }];
    assert!(graph_from_edges(&names(2), &edges).is_ok());
}

#[test]
fn missing_node_is_reported_before_weight() {
    let edges = vec![
        Edge { source: 0, target: 1, weight: MAX_TOTAL_WEIGHT },
        Edge { source: 1, target: 0, weight: 1 },
        Edge { source: 5, target: 0, weight: 1 },
    ];
    assert_eq!(graph_from_edges(&names(2), &edges).err(), Some(BuildError::NodeOutOfRange));
}

#[test]
fn arcs_count_nodes_from_one() {
    let arcs = vec![Edge { source: 2, target: 1, weight: 1 }, Edge { source: 3, target: 1, weight: 5 }];
    assert_eq!(
        zero_based_edges(&arcs),
        Some(vec![Edge { source: 1, target: 0, weight: 1 }, Edge { source: 2, target: 0, weight: 5 }])
    );
    let graph = graph_from_arcs(&names(3), &arcs).unwrap();
    assert_eq!(graph.in_degrees(), vec![6, 0, 0]);
    assert_eq!(graph.out_degrees(), vec![0, 1, 5]);
}

#[test]
fn arc_to_node_zero_is_refused() {
    let arcs = vec![Edge { source: 1, target: 0, weight: 1 }];
    assert_eq!(zero_based_edges(&arcs), None);
    assert_eq!(graph_from_arcs(&names(3), &arcs).err(), Some(BuildError::NodeOutOfRange));
    let arcs = vec![Edge { source: 4, target: 1, weight: 1 }];
    assert_eq!(graph_from_arcs(&names(3), &arcs).err(), Some(BuildError::NodeOutOfRange));
    let arcs = vec![Edge { source: 3, target: 1, weight: MAX_TOTAL_WEIGHT + 1 }];
    assert_eq!(graph_from_arcs(&names(3), &arcs).err(), Some(BuildError::TooHeavy));
}

#[test]
fn matrix_cells_above_zero_become_edges() {
    let rows = vec![vec![0, 3, 0], vec![2, 5, 0], vec![0, 0, 0]];
    assert_eq!(
        matrix_edges(&rows),
        vec![
            Edge { source: 0, target: 1, weight: 3 },
            Edge { source: 1, target: 0, weight: 2 },
            Edge { source: 1, target: 1, weight: 5 },
        ]
    );
    let graph = graph_from_matrix(&names(3), &rows).unwrap();
    assert_eq!(graph.out_degrees(), vec![3, 7, 0]);
    assert_eq!(graph.in_degrees(), vec![2, 8, 0]);
    assert_eq!(graph.size(), 10);
}

#[test]
fn matrix_wider_than_its_header_is_refused() {
    let rows = vec![vec![0, 0, 1], vec![0, 0, 0]];
    assert_eq!(graph_from_matrix(&names(2), &rows).err(), Some(BuildError::NodeOutOfRange));
    let rows = vec![vec![0, 0], vec![0, 0], vec![1, 0]];
    assert_eq!(graph_from_matrix(&names(2), &rows).err(), Some(BuildError::NodeOutOfRange));
    let rows = vec![vec![0, 0, 0], vec![0, 0], vec![0, 0]];
    assert!(graph_from_matrix(&names(2), &rows).is_ok());
}

#[test]
fn symmetric_matrix_gives_equal_degrees() {
    let rows = vec![vec![7, 3, 0, 2], vec![3, 0, 4, 1], vec![0, 4, 9, 0], vec![2, 1, 0, 0]];
    let graph = graph_from_matrix(&names(4), &rows).unwrap();
    assert_eq!(graph.in_degrees(), graph.out_degrees());
    assert_eq!(graph.in_degrees(), vec![12, 8, 13, 3]);
    for node in &graph.nodes {
        assert_eq!(node.in_degree, node.out_degree);
    }
}

#[test]
fn membership_rows_list_every_member_once() {
    let mut first = Community::default();
    first.insert(4);
    first.insert(0);
    let empty = Community::default();
    let mut last = Community::default();
    last.insert(2);
    let rows = membership_rows(&vec![first, empty, last]);
    assert_eq!(rows.len(), 3);
    assert_eq!(rows[2], (2, 2));
    let mut head = vec![rows[0], rows[1]];
    head.sort();
    assert_eq!(head, vec![(0, 0), (4, 0)]);
}
