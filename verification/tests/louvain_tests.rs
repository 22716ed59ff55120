use louvain::aggregate::{gen_graph, node_labels};
use louvain::graph::{Edge, Graph};
use louvain::local_move::{local_moving, neighbor_weights, optimize_modularity, optimize_modularity_in, visit, MoveState};
use louvain::louvain::{louvain_communities, next_candidate};
use louvain::modularity::calculate_modularity;
use louvain::partition::{Community, Partition};
use louvain::ratio::Ratio;

fn community(nodes: &[usize]) -> Community {
    let mut set = Community::default();
    for node in nodes {
        set.insert(*node);
    }
    set
}

fn partition(groups: &[&[usize]]) -> Partition {
    groups.iter().map(|g| community(g)).collect()
}

fn graph_of(nodes: usize, arcs: &[(usize, usize, u64)]) -> Graph {
    let mut graph = Graph::new();
    for index in 0..nodes {
        graph.add_node(index, &format!("n{}", index));
    }
    for (source, target, weight) in arcs {
        graph.add_edge(*source, *target, *weight);
    }
    graph
}

fn one() -> Ratio {
    Ratio { numerator: 1, denominator: 1 }
}

fn tiny() -> Ratio {
    Ratio { numerator: 1, denominator: 10_000_000 }
}

fn sorted(partition: &Partition) -> Vec<Vec<usize>> {
    let mut groups: Vec<Vec<usize>> = partition
        .iter()
        .map(|c| {
            let mut nodes: Vec<usize> = c.iter().copied().collect();
            nodes.sort();
            nodes
        })
        .collect();
    groups.sort();
    groups
}

fn assert_partition_of(partition: &Partition, nodes: usize) {
    let mut seen = vec![0usize; nodes];
    for community in partition {
        assert!(!community.is_empty());
        for node in community {
            assert!(*node < nodes);
            seen[*node] += 1;
        }
    }
    assert!(seen.iter().all(|count| *count == 1));
}

fn two_triangles() -> Graph {
    let mut arcs = Vec::new();
    for triangle in [[0usize, 1, 2], [3, 4, 5]] {
        for a in triangle {
            for b in triangle {
                if a != b {
                    arcs.push((a, b, 1u64));
                }
            }
        }
    }
    graph_of(6, &arcs)
}

#[test]
fn neighbor_weights_add_up_both_directions() {
    let graph = graph_of(4, &[(0, 1, 2), (1, 0, 3), (0, 2, 5), (3, 0, 7), (0, 0, 1)]);
    let mut weights = vec![0u64; 4];
    let touched = neighbor_weights(&graph, 0, &vec![0, 1, 1, 3], &mut weights);
    assert_eq!(weights, vec![2, 10, 0, 7]);
    assert_eq!(touched, vec![1, 1, 0, 1, 3, 0, 0]);
}

#[test]
fn visit_moves_a_node_that_gains() {
    let graph = graph_of(4, &[(0, 1, 1), (2, 3, 1)]);
    let mut state = MoveState::singletons(&graph);
    assert_eq!(state.node2com, vec![0, 1, 2, 3]);
    assert_eq!(state.sigma_tot_in, vec![0, 1, 0, 1]);
    assert_eq!(state.sigma_tot_out, vec![1, 0, 1, 0]);
    let moved = visit(&graph, one(), 2, &graph.in_degrees(), &graph.out_degrees(), 0, &mut state);
    assert!(moved);
    assert_eq!(state.node2com, vec![1, 1, 2, 3]);
    assert_eq!(state.sigma_tot_in, vec![0, 1, 0, 1]);
    assert_eq!(state.sigma_tot_out, vec![0, 1, 1, 0]);
    assert_eq!(state.weights, vec![0, 0, 0, 0]);
    let again = visit(&graph, one(), 2, &graph.in_degrees(), &graph.out_degrees(), 1, &mut state);
    assert!(!again);
    assert_eq!(state.node2com, vec![1, 1, 2, 3]);
}

#[test]
fn single_edge_gains_nothing() {
    let graph = graph_of(2, &[(0, 1, 1)]);
    let mut state = MoveState::singletons(&graph);
    let moved = visit(&graph, one(), 1, &graph.in_degrees(), &graph.out_degrees(), 0, &mut state);
    assert!(!moved);
    assert_eq!(state.node2com, vec![0, 1]);
    assert_eq!(louvain_communities(&graph, one(), tiny()), partition(&[&[0], &[1]]));
}

#[test]
fn a_gain_of_zero_moves_nothing() {
    let graph = graph_of(4, &[(0, 1, 1), (1, 2, 1), (2, 3, 1), (3, 0, 1)]);
    let mut state = MoveState::singletons(&graph);
    let ins = graph.in_degrees();
    let outs = graph.out_degrees();
    assert!(visit(&graph, one(), 4, &ins, &outs, 0, &mut state));
    assert_eq!(state.node2com, vec![1, 1, 2, 3]);
    assert!(!visit(&graph, one(), 4, &ins, &outs, 1, &mut state));
    assert_eq!(state.node2com, vec![1, 1, 2, 3]);
    assert_eq!(state.sigma_tot_in, vec![0, 2, 1, 1]);
}

#[test]
fn local_moving_in_given_order() {
    let graph = graph_of(4, &[(0, 1, 1), (1, 2, 1), (2, 3, 1), (3, 0, 1)]);
    let labels = local_moving(&graph, one(), &vec![0, 1, 2, 3]);
    assert_eq!(labels, vec![1, 1, 3, 3]);
    let found = optimize_modularity_in(&graph, one(), &vec![0, 1, 2, 3]);
    assert_eq!(found, partition(&[&[0, 1], &[2, 3]]));
    let other = optimize_modularity_in(&graph, one(), &vec![3, 2, 1, 0]);
    assert_eq!(other, partition(&[&[3, 0], &[1, 2]]));
}

#[test]
fn local_moving_without_weight_keeps_nodes_apart() {
    let graph = graph_of(3, &[]);
    assert_eq!(optimize_modularity(&graph, one()), partition(&[&[0], &[1], &[2]]));
    let weightless = graph_of(2, &[(0, 1, 0)]);
    assert_eq!(optimize_modularity(&weightless, one()), partition(&[&[0], &[1]]));
}

#[test]
fn local_moving_visits_only_the_listed_nodes() {
    let graph = graph_of(4, &[(0, 1, 1), (2, 3, 1)]);
    let found = optimize_modularity_in(&graph, one(), &vec![2]);
    assert_eq!(found, partition(&[&[0], &[1], &[2, 3]]));
}

#[test]
fn random_order_gives_a_partition() {
    let graph = graph_of(7, &[(0, 1, 3), (1, 2, 1), (2, 0, 2), (3, 4, 5), (4, 5, 1), (5, 3, 1), (6, 6, 2), (2, 3, 1)]);
    for _ in 0..20 {
        let found = optimize_modularity(&graph, one());
        assert_partition_of(&found, 7);
    }
}

#[test]
fn high_resolution_keeps_nodes_apart() {
    let graph = graph_of(2, &[(0, 1, 1), (1, 0, 1)]);
    let found = optimize_modularity_in(&graph, Ratio { numerator: 3, denominator: 1 }, &vec![0, 1]);
    assert_eq!(found, partition(&[&[0], &[1]]));
    let joined = optimize_modularity_in(&graph, one(), &vec![0, 1]);
    assert_eq!(joined, partition(&[&[0, 1]]));
}

#[test]
fn node_labels_follow_the_partition() {
    let labels = node_labels(&partition(&[&[2, 0], &[3], &[1, 4]]), 5);
    assert_eq!(labels, vec![0, 2, 0, 1, 2]);
}

#[test]
fn coarsened_graph_sums_parallel_edges() {
    let graph = graph_of(4, &[(0, 1, 1), (1, 2, 2), (0, 3, 4), (2, 3, 8), (3, 1, 16), (1, 1, 32)]);
    let coarse = gen_graph(&graph, &partition(&[&[0, 1], &[2, 3]]));
    assert_eq!(coarse.node_count(), 2);
    assert_eq!(
        coarse.edges(),
        &vec![
            Edge { source: 0, target: 0, weight: 33 },
            Edge { source: 0, target: 1, weight: 6 },
            Edge { source: 1, target: 1, weight: 8 },
            Edge { source: 1, target: 0, weight: 16 },
        ]
    );
    assert_eq!(coarse.size(), graph.size());
    assert_eq!(coarse.out_degrees(), vec![39, 24]);
    assert_eq!(coarse.in_degrees(), vec![49, 14]);
}

#[test]
fn coarsened_nodes_are_named_in_decimal() {
    let graph = graph_of(12, &[(0, 11, 1)]);
    let singles: Vec<Vec<usize>> = (0..12).map(|n| vec![n]).collect();
    let groups: Vec<&[usize]> = singles.iter().map(|g| g.as_slice()).collect();
    let coarse = gen_graph(&graph, &partition(&groups));
    let names: Vec<&str> = coarse.nodes.iter().map(|n| n.id.as_str()).collect();
    assert_eq!(names, vec!["0", "1", "2", "3", "4", "5", "6", "7", "8", "9", "10", "11"]);
    assert_eq!(coarse.edges(), &vec![Edge { source: 0, target: 11, weight: 1 }]);
}

#[test]
fn coarsening_then_merging_keeps_every_node() {
    let graph = graph_of(6, &[(0, 1, 2), (1, 2, 1), (2, 0, 4), (3, 4, 7), (4, 5, 1), (5, 3, 3), (2, 3, 1)]);
    let start = partition(&[&[0, 4], &[1], &[2, 5], &[3]]);
    for _ in 0..20 {
        let candidate = next_candidate(&graph, &start, one());
        assert_partition_of(&candidate, 6);
        assert!(candidate.len() <= start.len());
    }
}

#[test]
fn louvain_returns_a_partition() {
    let graph = graph_of(7, &[(0, 1, 3), (1, 2, 1), (2, 0, 2), (3, 4, 5), (4, 5, 1), (5, 3, 1), (6, 6, 2), (2, 3, 1)]);
    for _ in 0..20 {
        let found = louvain_communities(&graph, one(), tiny());
        assert_partition_of(&found, 7);
    }
}

#[test]
fn louvain_on_empty_graph() {
    let graph = Graph::new();
    assert!(louvain_communities(&graph, one(), tiny()).is_empty());
}

#[test]
fn disconnected_triangles_stay_apart() {
    let graph = two_triangles();
    for _ in 0..20 {
        let found = louvain_communities(&graph, one(), tiny());
        assert!(found.len() >= 2);
        assert_eq!(sorted(&found), vec![vec![0, 1, 2], vec![3, 4, 5]]);
    }
}

#[test]
fn disjoint_edges_pair_up() {
    let graph = graph_of(4, &[(0, 1, 1), (2, 3, 1)]);
    for _ in 0..20 {
        let found = louvain_communities(&graph, one(), tiny());
        assert_eq!(sorted(&found), vec![vec![0, 1], vec![2, 3]]);
    }
}

#[test]
fn directed_cycle_pairs_neighbours() {
    let graph = graph_of(4, &[(0, 1, 1), (1, 2, 1), (2, 3, 1), (3, 0, 1)]);
    let whole = calculate_modularity(&graph, &partition(&[&[0, 1, 2, 3]]), one());
    for _ in 0..20 {
        let found = louvain_communities(&graph, one(), tiny());
        let groups = sorted(&found);
        assert!(groups == vec![vec![0, 1], vec![2, 3]] || groups == vec![vec![0, 3], vec![1, 2]]);
        assert_eq!(calculate_modularity(&graph, &found, one()), whole);
    }
}

#[test]
fn balanced_graph_never_scores_below_singletons() {
    let graph = graph_of(
        6,
        &[(0, 1, 4), (1, 0, 4), (1, 2, 3), (2, 1, 3), (2, 3, 1), (3, 2, 1), (3, 4, 6), (4, 3, 6), (4, 5, 2), (5, 4, 2), (5, 5, 9)],
    );
    assert_eq!(graph.in_degrees(), graph.out_degrees());
    let apart = calculate_modularity(&graph, &partition(&[&[0], &[1], &[2], &[3], &[4], &[5]]), one());
    for _ in 0..20 {
        let found = louvain_communities(&graph, one(), tiny());
        let q = calculate_modularity(&graph, &found, one());
        assert_eq!(q.denominator, apart.denominator);
        assert!(q.numerator >= apart.numerator);
    }
}

#[test]
fn one_sided_graph_can_score_below_singletons() {
    let graph = graph_of(3, &[(0, 1, 1), (0, 2, 2), (1, 2, 5)]);
    let found = optimize_modularity_in(&graph, one(), &vec![0, 1, 2]);
    assert_eq!(found, partition(&[&[0, 1], &[2]]));
    let q = calculate_modularity(&graph, &found, one());
    let apart = calculate_modularity(&graph, &partition(&[&[0], &[1], &[2]]), one());
    assert_eq!(q.numerator, -98);
    assert_eq!(apart.numerator, -94);
    assert_eq!(q.denominator, 256);
}

#[test]
fn large_threshold_stops_after_local_moving() {
    let graph = two_triangles();
    let found = louvain_communities(&graph, one(), Ratio { numerator: 5, denominator: 1 });
    assert_eq!(sorted(&found), vec![vec![0, 1, 2], vec![3, 4, 5]]);
}

#[test]
fn random_order_reaches_both_pairings_of_a_cycle() {
    let graph = graph_of(4, &[(0, 1, 1), (1, 2, 1), (2, 3, 1), (3, 0, 1)]);
    let mut first = false;
    let mut second = false;
    for _ in 0..2000 {
        let groups = sorted(&optimize_modularity(&graph, one()));
        if groups == vec![vec![0, 1], vec![2, 3]] {
            first = true;
        } else {
            assert_eq!(groups, vec![vec![0, 3], vec![1, 2]]);
            second = true;
        }
        if first && second {
            break;
        }
    }
    assert!(first && second);
}

#[test]
fn communities_stay_within_components() {
    let graph = graph_of(
        9,
        &[(0, 1, 2), (1, 2, 3), (2, 0, 1), (3, 4, 5), (4, 3, 1), (5, 6, 1), (6, 7, 4), (7, 5, 2), (6, 5, 1)],
    );
    let component = [0, 0, 0, 1, 1, 2, 2, 2, 3];
    for _ in 0..20 {
        let found = louvain_communities(&graph, one(), tiny());
        assert_partition_of(&found, 9);
        for community in &found {
            let mut parts: Vec<usize> = community.iter().map(|node| component[*node]).collect();
            parts.dedup();
            assert_eq!(parts.len(), 1);
        }
    }
}
