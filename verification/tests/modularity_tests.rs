use louvain::graph::Graph;
use louvain::louvain::improves;
use louvain::merge::merge_partition;
use louvain::modularity::{calculate_modularity, community_sums, Modularity};
use louvain::partition::{communities_from_labels, keep_inhabited, Community, Partition};
use louvain::ratio::Ratio;

fn community(nodes: &[usize]) -> Community {
    let mut set = Community::default();
    for node in nodes {
        set.insert(*node);
    }
    set
}

fn partition(groups: &[&[usize]]) -> Partition {
    groups.iter().map(|g| community(g)).collect()
}

fn graph_of(nodes: usize, arcs: &[(usize, usize, u64)]) -> Graph {
    let mut graph = Graph::new();
    for index in 0..nodes {
        graph.add_node(index, &format!("n{}", index));
    }
    for (source, target, weight) in arcs {
        graph.add_edge(*source, *target, *weight);
    }
    graph
}

fn one() -> Ratio {
    Ratio { numerator: 1, denominator: 1 }
}

#[test]
fn ratio_needs_a_denominator() {
    assert_eq!(Ratio::new(3, 0), None);
    assert_eq!(Ratio::new(3, 4), Some(Ratio { numerator: 3, denominator: 4 }));
    assert_eq!(Ratio::new(0, 1), Some(Ratio { numerator: 0, denominator: 1 }));
}

#[test]
fn modularity_of_single_edge() {
    let graph = graph_of(2, &[(0, 1, 1)]);
    let apart = calculate_modularity(&graph, &partition(&[&[0], &[1]]), one());
    assert_eq!(apart, Modularity { numerator: -2, denominator: 4 });
    let together = calculate_modularity(&graph, &partition(&[&[0, 1]]), one());
    assert_eq!(together, Modularity { numerator: 0, denominator: 4 });
}

#[test]
fn modularity_counts_inside_edges_twice() {
    let graph = graph_of(3, &[(0, 1, 2), (1, 0, 3), (1, 2, 5)]);
    let sums = community_sums(&graph, &community(&[0, 1]));
    assert_eq!(sums, (15, 10));
    let alone = community_sums(&graph, &community(&[2]));
    assert_eq!(alone, (5, 0));
    let q = calculate_modularity(&graph, &partition(&[&[0, 1], &[2]]), one());
    assert_eq!(q.denominator, 400);
    assert_eq!(q.numerator, 2 * 10 * 10 - 15 * 15 - 5 * 5);
}

#[test]
fn modularity_scales_with_resolution() {
    let graph = graph_of(3, &[(0, 1, 2), (1, 0, 3), (1, 2, 5)]);
    let half = Ratio { numerator: 1, denominator: 2 };
    let q = calculate_modularity(&graph, &partition(&[&[0, 1], &[2]]), half);
    assert_eq!(q.denominator, 800);
    assert_eq!(q.numerator, 2 * 10 * 2 * 10 - 15 * 15 - 5 * 5);
    let triple = Ratio { numerator: 3, denominator: 1 };
    let q = calculate_modularity(&graph, &partition(&[&[0, 1], &[2]]), triple);
    assert_eq!(q.denominator, 400);
    assert_eq!(q.numerator, 2 * 10 * 10 - 3 * (15 * 15 + 5 * 5));
}

#[test]
fn modularity_of_self_loop() {
    let graph = graph_of(1, &[(0, 0, 4)]);
    let q = calculate_modularity(&graph, &partition(&[&[0]]), one());
    assert_eq!(q, Modularity { numerator: 2 * 4 * 8 - 8 * 8, denominator: 64 });
}

#[test]
fn modularity_ignores_community_order() {
    let graph = graph_of(5, &[(0, 1, 2), (1, 2, 1), (2, 0, 4), (3, 4, 7), (4, 1, 1), (2, 2, 3)]);
    let first = calculate_modularity(&graph, &partition(&[&[0, 1], &[2], &[3, 4]]), one());
    let second = calculate_modularity(&graph, &partition(&[&[4, 3], &[1, 0], &[2]]), one());
    let third = calculate_modularity(&graph, &partition(&[&[2], &[3, 4], &[], &[1, 0]]), one());
    assert_eq!(first, second);
    assert_eq!(first, third);
}

#[test]
fn modularity_ignores_member_order() {
    let graph = graph_of(4, &[(0, 1, 2), (1, 2, 1), (2, 3, 4), (3, 0, 7)]);
    let mut forward = Community::default();
    for node in [0, 1, 2] {
        forward.insert(node);
    }
    let mut backward = Community::default();
    for node in [2, 1, 0] {
        backward.insert(node);
    }
    let first = calculate_modularity(&graph, &vec![forward, community(&[3])], one());
    let second = calculate_modularity(&graph, &vec![backward, community(&[3])], one());
    assert_eq!(first, second);
}

#[test]
fn modularity_without_weight_has_no_denominator() {
    let graph = graph_of(2, &[]);
    let q = calculate_modularity(&graph, &partition(&[&[0], &[1]]), one());
    assert_eq!(q, Modularity { numerator: 0, denominator: 0 });
}

#[test]
fn improvement_must_exceed_threshold() {
    let old = Modularity { numerator: 10, denominator: 100 };
    let new = Modularity { numerator: 15, denominator: 100 };
    assert!(improves(new, old, Ratio { numerator: 1, denominator: 25 }));
    assert!(!improves(new, old, Ratio { numerator: 1, denominator: 20 }));
    assert!(!improves(new, old, Ratio { numerator: 1, denominator: 10 }));
    assert!(improves(new, old, Ratio { numerator: 0, denominator: 1 }));
    assert!(!improves(old, old, Ratio { numerator: 0, denominator: 1 }));
    assert!(!improves(old, new, Ratio { numerator: 0, denominator: 1 }));
}

#[test]
fn merge_unites_the_named_communities() {
    let old = partition(&[&[0, 5], &[1], &[2, 3], &[4]]);
    let new = partition(&[&[0, 2], &[3, 1]]);
    let merged = merge_partition(&old, &new);
    assert_eq!(merged, partition(&[&[0, 5, 2, 3], &[1, 4]]));
}

#[test]
fn merge_of_identity_changes_nothing() {
    let old = partition(&[&[0, 5], &[1], &[2, 3], &[4]]);
    let new = partition(&[&[0], &[1], &[2], &[3]]);
    assert_eq!(merge_partition(&old, &new), old);
}

#[test]
fn merge_gives_one_community_per_group() {
    let old = partition(&[&[0], &[1]]);
    let new = partition(&[&[1], &[], &[0]]);
    assert_eq!(merge_partition(&old, &new), partition(&[&[1], &[], &[0]]));
}

#[test]
fn labels_become_communities_in_label_order() {
    let built = communities_from_labels(&vec![3, 0, 3, 1, 0]);
    assert_eq!(built, partition(&[&[1, 4], &[3], &[0, 2]]));
    assert_eq!(communities_from_labels(&vec![]), partition(&[]));
}

#[test]
fn empty_communities_are_dropped() {
    let kept = keep_inhabited(partition(&[&[], &[2], &[], &[0, 1], &[]]));
    assert_eq!(kept, partition(&[&[2], &[0, 1]]));
}
