//! The multilevel loop: local moving, then coarsening and local moving again
//! for as long as the modularity improves by more than a threshold.

use crate::aggregate::{aggregate, gen_graph};
use crate::components::{lemma_ascent_within_parts, separates, within_parts};
use crate::graph::{
    balanced, every_edge, in_degree_fn, in_degree_of, lemma_weight_sum_le, out_degree_fn, out_degree_of,
    total_weight, Edge, Graph, MAX_TOTAL_WEIGHT,
};
use crate::local_move::{local_outcome, optimize_modularity};
use crate::merge::{lemma_merge_inhabited, lemma_merge_keeps_nodes, merge_partition, merged};
use crate::modularity::{
    calculate_modularity, lemma_numerator_bounds, lemma_sigma_in, modularity_denominator, modularity_numerator,
    modularity_terms, sigma_tot, within_graph, Modularity,
};
use crate::objective::{community_in, community_out, directed_terms, internal_weight};
use crate::partition::{
    all_inhabited, all_nodes, communities, is_partition, singletons, union_of, Partition,
};
use crate::ratio::Ratio;
use crate::sums::{lemma_product_bound, lemma_sum_to_eq, restricted, sum_to};
use vstd::prelude::*;

verus! {

/// A partition of the first `n` indices holds no other index.
pub proof fn lemma_partition_within(p: Seq<Set<usize>>, n: nat)
    requires
        is_partition(p, n),
    ensures
        within_graph(p, n),
{
    assert forall|c: int, x: usize| 0 <= c < p.len() && #[trigger] p[c].contains(x) implies x < n by {
        assert(union_of(p).contains(x));
        assert(all_nodes(n).contains(x));
    }
}

/// `q` comes from `p` by one round of coarsening: local moving on the
/// coarsened graph of `p` can end with groups of communities whose unions
/// are the communities of `q`.
pub open spec fn refines(edges: Seq<Edge>, resolution: Ratio, p: Seq<Set<usize>>, q: Seq<Set<usize>>) -> bool {
    exists|groups: Seq<Set<usize>>| #[trigger]
        local_outcome(aggregate(edges, p), p.len(), resolution, groups) && q == merged(p, groups)
}

/// One round of coarsening: the communities become the nodes of a coarsened
/// graph, local moving groups them, and every group becomes the union of its
/// communities. The result is a partition of the same nodes.
pub fn next_candidate(graph: &Graph, partition: &Partition, resolution: Ratio) -> (candidate: Partition)
    requires
        graph.wf(),
        is_partition(communities(partition@), graph.spec_node_count()),
    ensures
        refines(graph@.edges, resolution, communities(partition@), communities(candidate@)),
        union_of(communities(candidate@)) == union_of(communities(partition@)),
        is_partition(communities(candidate@), graph.spec_node_count()),
        candidate.len() <= partition.len(),
        all_inhabited(communities(partition@)) ==> all_inhabited(communities(candidate@)),
{
    let coarse = gen_graph(graph, partition);
    let groups = optimize_modularity(&coarse, resolution);
    proof {
        let old = communities(partition@);
        let new = communities(groups@);
        assert(coarse.spec_node_count() == partition.len()) by {
            assert(coarse@.ids.len() == partition.len());
        }
        lemma_partition_within(new, old.len());
        assert forall|c: int, j: usize| 0 <= c < groups.len() && #[trigger] groups[c]@.contains(j) implies j
            < partition.len() by {
            assert(new[c].contains(j));
        }
        lemma_merge_keeps_nodes(old, new);
        if all_inhabited(old) {
            lemma_merge_inhabited(old, new);
        }
        assert(local_outcome(aggregate(graph@.edges, old), old.len(), resolution, new));
    }
    merge_partition(partition, &groups)
}

/// The first modularity exceeds the second by more than the threshold. Both
/// are fractions over the same denominator.
pub open spec fn exceeds(new: Modularity, old: Modularity, threshold: Ratio) -> bool {
    (new.numerator - old.numerator) * threshold.denominator > threshold.numerator * old.denominator
}

/// Tells whether `new` exceeds `old` by more than `threshold`.
pub fn improves(new: Modularity, old: Modularity, threshold: Ratio) -> (better: bool)
    requires
        new.denominator == old.denominator,
        old.denominator <= 0x4000_0000_0000_0000_0000_0000,
        -0x4000_0000_0000_0000_0000_0000 <= new.numerator <= 0x4000_0000_0000_0000_0000_0000,
        -0x4000_0000_0000_0000_0000_0000 <= old.numerator <= 0x4000_0000_0000_0000_0000_0000,
    ensures
        better == exceeds(new, old, threshold),
{
    let difference: i128 = new.numerator - old.numerator;
    if difference <= 0 {
        proof {
            assert((new.numerator - old.numerator) * threshold.denominator <= 0) by (nonlinear_arith)
                requires
                    new.numerator - old.numerator <= 0,
                    threshold.denominator >= 0,
            ;
            assert(threshold.numerator * old.denominator >= 0) by (nonlinear_arith)
                requires
                    threshold.numerator >= 0,
                    old.denominator >= 0,
            ;
        }
        false
    } else {
        proof {
            lemma_product_bound(
                difference as int,
                threshold.denominator as int,
                0x8000_0000_0000_0000_0000_0000,
                0xFFFF_FFFF,
            );
            lemma_product_bound(
                threshold.numerator as int,
                old.denominator as int,
                0xFFFF_FFFF,
                0x4000_0000_0000_0000_0000_0000,
            );
        }
        let gain: i128 = difference * (threshold.denominator as i128);
        let demand: i128 = (threshold.numerator as i128) * (old.denominator as i128);
        gain > demand
    }
}

/// The modularity of `new` is higher than that of `old` by more than the
/// threshold.
pub open spec fn gains(
    edges: Seq<Edge>,
    n: nat,
    resolution: Ratio,
    threshold: Ratio,
    old: Seq<Set<usize>>,
    new: Seq<Set<usize>>,
) -> bool {
    (modularity_numerator(edges, n, resolution, new) - modularity_numerator(edges, n, resolution, old))
        * threshold.denominator > threshold.numerator * modularity_denominator(edges, resolution)
}

/// `chain` starts with an outcome of local moving on the graph, and every
/// entry but the first comes from the one before it by a round of
/// coarsening that gains more than the threshold.
pub open spec fn ascent(
    edges: Seq<Edge>,
    n: nat,
    resolution: Ratio,
    threshold: Ratio,
    chain: Seq<Seq<Set<usize>>>,
) -> bool {
    &&& chain.len() > 0
    &&& local_outcome(edges, n, resolution, chain[0])
    &&& forall|i: int|
        0 <= i < chain.len() - 1 ==> refines(edges, resolution, #[trigger] chain[i], chain[i + 1]) && gains(
            edges,
            n,
            resolution,
            threshold,
            chain[i],
            chain[i + 1],
        )
}

/// A run of the search: an ascent, and after its last entry a round of
/// coarsening that does not gain more than the threshold.
pub open spec fn search(
    edges: Seq<Edge>,
    n: nat,
    resolution: Ratio,
    threshold: Ratio,
    chain: Seq<Seq<Set<usize>>>,
    rejected: Seq<Set<usize>>,
) -> bool {
    &&& ascent(edges, n, resolution, threshold, chain)
    &&& refines(edges, resolution, chain.last(), rejected)
    &&& !gains(edges, n, resolution, threshold, chain.last(), rejected)
}

/// On a balanced graph the numerator of the modularity is four times the
/// directed objective, whatever the partition.
pub proof fn lemma_balanced_numerator(edges: Seq<Edge>, n: nat, resolution: Ratio, p: Seq<Set<usize>>, k: nat)
    requires
        n <= usize::MAX,
        forall|j: int| 0 <= j < edges.len() ==> (#[trigger] edges[j]).source < n && edges[j].target < n,
        balanced(edges, n),
        k <= p.len(),
    ensures
        sum_to(k, modularity_terms(edges, n, resolution, p)) == 4 * sum_to(
            k,
            directed_terms(edges, n, resolution, p),
        ),
    decreases k,
{
    if k > 0 {
        lemma_balanced_numerator(edges, n, resolution, p, (k - 1) as nat);
        let s = p[k - 1];
        lemma_sigma_in(edges, n, s);
        assert forall|i: int| 0 <= i < n implies #[trigger] restricted(s, in_degree_fn(edges))(i) == restricted(
            s,
            out_degree_fn(edges),
        )(i) by {
            assert(in_degree_of(edges, i) == out_degree_of(edges, i));
        }
        lemma_sum_to_eq(n, restricted(s, in_degree_fn(edges)), restricted(s, out_degree_fn(edges)));
        let m = total_weight(edges);
        let rd = resolution.denominator as int;
        let rn = resolution.numerator as int;
        let inner = internal_weight(edges, s);
        let out = community_out(edges, n, s);
        let tot = sigma_tot(edges, n, s);
        assert(community_in(edges, n, s) == out);
        assert(tot == 2 * out);
        assert(2 * m * rd * (2 * inner) - rn * (tot * tot) == 4 * (rd * m * inner - rn * (out * out)))
            by (nonlinear_arith)
            requires
                tot == 2 * out,
        ;
    }
}

/// Louvain community detection. Local moving gives a first partition; then,
/// round after round, the communities are coarsened into nodes, grouped by
/// local moving and merged, and the result replaces the partition if its
/// modularity is higher by more than `threshold`. The first round that fails
/// to improve ends the search.
///
/// The result is a partition of the nodes of the graph without empty
/// communities, and the last entry of a run of this search. Where the nodes
/// fall into parts that no edge joins, every community lies within one
/// part. On a graph whose nodes each send out as much weight as they take
/// in, the modularity of the result is no less than that of the partition
/// into single nodes.
pub fn louvain_communities(graph: &Graph, resolution: Ratio, threshold: Ratio) -> (partition: Partition)
    requires
        graph.wf(),
    ensures
        is_partition(communities(partition@), graph.spec_node_count()),
        all_inhabited(communities(partition@)),
        partition.len() <= graph.spec_node_count(),
        exists|chain: Seq<Seq<Set<usize>>>, rejected: Seq<Set<usize>>| #[trigger]
            search(graph@.edges, graph.spec_node_count(), resolution, threshold, chain, rejected)
                && chain.last() == communities(partition@),
        forall|part: spec_fn(usize) -> int| #[trigger]
            separates(graph@.edges, part) ==> within_parts(communities(partition@), part),
        balanced(graph@.edges, graph.spec_node_count()) ==> modularity_numerator(
            graph@.edges,
            graph.spec_node_count(),
            resolution,
            communities(partition@),
        ) >= modularity_numerator(
            graph@.edges,
            graph.spec_node_count(),
            resolution,
            singletons(graph.spec_node_count()),
        ),
{
    let ghost edges = graph@.edges;
    let ghost n = graph.spec_node_count();
    let ghost limit = 4 * total_weight(edges) * total_weight(edges) * resolution.denominator;
    let mut partition = optimize_modularity(graph, resolution);
    proof {
        lemma_partition_within(communities(partition@), n);
        lemma_numerator_bounds(edges, n, resolution, communities(partition@), partition.len() as nat);
        lemma_scale_bounds(edges, resolution);
    }
    let mut modularity = calculate_modularity(graph, &partition, resolution);
    let ghost first = modularity.numerator as int;
    proof {
        if balanced(edges, n) {
            lemma_balanced_numerator(edges, n, resolution, communities(partition@), partition.len() as nat);
            lemma_balanced_numerator(edges, n, resolution, singletons(n), n);
        }
    }
    let mut improvement = true;
    let ghost mut chain: Seq<Seq<Set<usize>>> = seq![communities(partition@)];
    let ghost mut rejected: Seq<Set<usize>> = Seq::empty();
    while improvement
        invariant
            ascent(edges, n, resolution, threshold, chain),
            chain.last() == communities(partition@),
            !improvement ==> refines(edges, resolution, chain.last(), rejected) && !gains(
                edges,
                n,
                resolution,
                threshold,
                chain.last(),
                rejected,
            ),
            graph.wf(),
            edges == graph@.edges,
            n == graph.spec_node_count(),
            limit == 4 * total_weight(edges) * total_weight(edges) * resolution.denominator,
            0 <= limit <= 0x4000_0000_0000_0000_0000_0000,
            4 * total_weight(edges) * total_weight(edges) * resolution.numerator <= 0x4000_0000_0000_0000_0000_0000,
            is_partition(communities(partition@), n),
            all_inhabited(communities(partition@)),
            partition.len() <= n,
            modularity.numerator == modularity_numerator(edges, n, resolution, communities(partition@)),
            modularity.denominator == limit,
            first <= modularity.numerator <= limit,
            modularity.numerator >= -(4 * total_weight(edges) * total_weight(edges) * resolution.numerator),
        decreases
            limit - modularity.numerator,
            if improvement {
                1int
            } else {
                0int
            },
    {
        improvement = false;
        let new_partition = next_candidate(graph, &partition, resolution);
        proof {
            lemma_partition_within(communities(new_partition@), n);
            lemma_numerator_bounds(edges, n, resolution, communities(new_partition@), new_partition.len() as nat);
        }
        let new_modularity = calculate_modularity(graph, &new_partition, resolution);
        if improves(new_modularity, modularity, threshold) {
            proof {
                let gain = new_modularity.numerator - modularity.numerator;
                assert(gain > 0) by (nonlinear_arith)
                    requires
                        gain * threshold.denominator > threshold.numerator * limit,
                        threshold.numerator >= 0,
                        limit >= 0,
                        threshold.denominator >= 0,
                ;
            }
            proof {
                let longer = chain.push(communities(new_partition@));
                assert forall|i: int| 0 <= i < longer.len() - 1 implies refines(
                    edges,
                    resolution,
                    #[trigger] longer[i],
                    longer[i + 1],
                ) && gains(edges, n, resolution, threshold, longer[i], longer[i + 1]) by {
                    if i < chain.len() - 1 {
                        assert(refines(edges, resolution, chain[i], chain[i + 1]));
                    }
                }
                chain = longer;
            }
            improvement = true;
            modularity = new_modularity;
            partition = new_partition;
        } else {
            proof {
                rejected = communities(new_partition@);
            }
        }
    }
    proof {
        assert(search(edges, n, resolution, threshold, chain, rejected));
        assert forall|part: spec_fn(usize) -> int| #[trigger] separates(edges, part) implies within_parts(
            communities(partition@),
            part,
        ) by {
            lemma_ascent_within_parts(edges, n, resolution, threshold, chain, part);
        }
    }
    partition
}

/// The denominator of the modularity, and what the resolution can take
/// away from its numerator, fit into 96 bits.
pub proof fn lemma_scale_bounds(edges: Seq<Edge>, resolution: Ratio)
    requires
        total_weight(edges) <= MAX_TOTAL_WEIGHT,
    ensures
        0 <= 4 * total_weight(edges) * total_weight(edges) * resolution.denominator
            <= 0x4000_0000_0000_0000_0000_0000,
        0 <= 4 * total_weight(edges) * total_weight(edges) * resolution.numerator
            <= 0x4000_0000_0000_0000_0000_0000,
{
    let m = total_weight(edges);
    lemma_weight_sum_le(edges, every_edge(), every_edge());
    lemma_product_bound(4 * m, m, 4 * 0x3FFF_FFFFint, 0x3FFF_FFFF);
    lemma_product_bound(4 * m * m, resolution.denominator as int, 4 * 0x3FFF_FFFFint * 0x3FFF_FFFFint, 0xFFFF_FFFF);
    lemma_product_bound(4 * m * m, resolution.numerator as int, 4 * 0x3FFF_FFFFint * 0x3FFF_FFFFint, 0xFFFF_FFFF);
    assert(4 * 0x3FFF_FFFFint * 0x3FFF_FFFFint * 0xFFFF_FFFFint <= 0x4000_0000_0000_0000_0000_0000int)
        by (nonlinear_arith);
}

} // verus!
