//! Local moving: nodes change community one at a time, each to the
//! neighbouring community that gains most, until no node gains by moving.

use crate::graph::{
    both, every_edge, far_end, from_source, in_degree_of, in_edges_of, into_target, lemma_select_members,
    lemma_weight_sum_eq, lemma_weight_sum_le, lemma_weight_sum_none, lemma_weight_sum_select,
    lemma_weight_sum_take, out_degree_of, out_edges_of, total_weight, weight_sum, Edge, Graph, NodeIndex,
    MAX_TOTAL_WEIGHT,
};
use crate::graph::{in_degree_fn, out_degree_fn};
use crate::objective::{
    community_in, community_out, directed_objective, entering_from, leaving_into, lemma_community_bounds,
    lemma_leaving_bound, lemma_move_changes_objective, lemma_objective_bound, lemma_objective_inhabited, link_weight, loop_at,
    move_gain, transfer_value,
};
use crate::partition::{
    all_inhabited, communities, communities_from_labels, grouped, inhabited, is_partition,
    lemma_grouped_is_partition, lemma_inhabited_is_partition, members_of, singleton_labels, singletons,
    valid_labels, Partition,
};
use crate::ratio::Ratio;
use crate::sums::{
    lemma_product_bound, lemma_set_sum_insert, lemma_set_sum_remove, lemma_sum_to_point, restricted,
};
use rand::seq::SliceRandom;
use vstd::seq_lib::group_to_multiset_ensures;
use vstd::prelude::*;

verus! {

/// Some edge joins `node` and a member of `s`.
pub open spec fn adjacent(edges: Seq<Edge>, node: int, s: Set<usize>) -> bool {
    exists|k: int|
        0 <= k < edges.len() && (leaving_into(node, s)(#[trigger] edges[k]) || entering_from(node, s)(
            edges[k],
        ))
}

/// The edges whose far end carries label `c`.
pub open spec fn reaches(labels: Seq<usize>, c: int, leaving: bool) -> spec_fn(Edge) -> bool {
    |e: Edge| far_end(e, leaving) < labels.len() && labels[far_end(e, leaving) as int] == c
}

/// The label at the far end of every edge of a list.
pub open spec fn far_labels(list: Seq<Edge>, labels: Seq<usize>, leaving: bool) -> Seq<usize> {
    Seq::new(list.len(), |i: int| labels[far_end(list[i], leaving) as int])
}

/// Adds the weight of every edge of one adjacency list to the entry of the
/// community at its far end, and notes that community.
fn accumulate(list: &Vec<Edge>, leaving: bool, node2com: &Vec<usize>, weights: &mut Vec<u64>, touched: &mut Vec<usize>)
    requires
        valid_labels(node2com@),
        old(weights).len() == node2com.len(),
        forall|i: int| 0 <= i < list.len() ==> far_end(#[trigger] list[i], leaving) < node2com.len(),
        forall|c: int| 0 <= c < old(weights).len() ==> #[trigger] old(weights)[c] <= MAX_TOTAL_WEIGHT,
        weight_sum(list@, every_edge()) <= MAX_TOTAL_WEIGHT,
    ensures
        final(weights).len() == node2com.len(),
        forall|c: int|
            0 <= c < final(weights).len() ==> #[trigger] final(weights)[c] == old(weights)[c] + weight_sum(
                list@,
                reaches(node2com@, c, leaving),
            ),
        final(touched)@ == old(touched)@ + far_labels(list@, node2com@, leaving),
{
    let ghost labels = node2com@;
    let mut j: usize = 0;
    while j < list.len()
        invariant
            valid_labels(labels),
            labels == node2com@,
            weights.len() == labels.len(),
            old(weights).len() == labels.len(),
            j <= list.len(),
            forall|i: int| 0 <= i < list.len() ==> far_end(#[trigger] list[i], leaving) < labels.len(),
            forall|c: int| 0 <= c < old(weights).len() ==> #[trigger] old(weights)[c] <= MAX_TOTAL_WEIGHT,
            weight_sum(list@, every_edge()) <= MAX_TOTAL_WEIGHT,
            forall|c: int|
                0 <= c < weights.len() ==> #[trigger] weights[c] == old(weights)[c] + weight_sum(
                    list@.take(j as int),
                    reaches(labels, c, leaving),
                ),
            touched@ == old(touched)@ + far_labels(list@.take(j as int), labels, leaving),
        decreases list.len() - j,
    {
        let edge = list[j];
        let c = if leaving {
            node2com[edge.target]
        } else {
            node2com[edge.source]
        };
        proof {
            let p = reaches(labels, c as int, leaving);
            lemma_weight_sum_take(list@, j as int, p);
            lemma_weight_sum_take(list@, j as int + 1, p);
            lemma_weight_sum_le(list@, p, every_edge());
            assert forall|d: int| 0 <= d < weights.len() implies weight_sum(
                list@.take(j as int + 1),
                #[trigger] reaches(labels, d, leaving),
            ) == weight_sum(list@.take(j as int), reaches(labels, d, leaving)) + if d == c {
                edge.weight as int
            } else {
                0
            } by {
                lemma_weight_sum_take(list@, j as int, reaches(labels, d, leaving));
            }
            assert(far_labels(list@.take(j as int + 1), labels, leaving) =~= far_labels(
                list@.take(j as int),
                labels,
                leaving,
            ).push(c));
        }
        weights.set(c, weights[c] + edge.weight);
        touched.push(c);
        j = j + 1;
    }
    assert(list@.take(list.len() as int) =~= list@);
}

/// Adds up, per community, the weight of the edges between `node` and the
/// members of that community, in either direction. `weights` is a row of
/// zeros, one per community, that takes the sums. The result lists the
/// communities to choose from: for every edge that leaves `node` the
/// community at its target, for every edge that enters it the community at
/// its source, and last the community of `node` itself.
pub fn neighbor_weights(graph: &Graph, node: NodeIndex, node2com: &Vec<usize>, weights: &mut Vec<u64>) -> (touched:
    Vec<usize>)
    requires
        graph.wf(),
        node < graph.spec_node_count(),
        node2com.len() == graph.spec_node_count(),
        valid_labels(node2com@),
        old(weights).len() == graph.spec_node_count(),
        forall|c: int| 0 <= c < old(weights).len() ==> old(weights)[c] == 0,
    ensures
        final(weights).len() == graph.spec_node_count(),
        forall|c: int|
            0 <= c < final(weights).len() ==> #[trigger] final(weights)[c] == link_weight(
                graph@.edges,
                node as int,
                members_of(node2com@, c),
            ),
        forall|c: int|
            0 <= c < final(weights).len() && !touched@.contains(c as usize) ==> #[trigger] final(weights)[c]
                == 0,
        forall|k: int| 0 <= k < touched.len() ==> #[trigger] touched[k] < graph.spec_node_count(),
        touched@ == (far_labels(out_edges_of(graph@.edges, node as int), node2com@, true) + far_labels(
            in_edges_of(graph@.edges, node as int),
            node2com@,
            false,
        )).push(node2com[node as int]),
        touched@.contains(node2com[node as int]),
        forall|c: int|
            0 <= c < final(weights).len() && adjacent(graph@.edges, node as int, members_of(node2com@, c))
                ==> touched@.contains(c as usize),
        forall|k: int|
            0 <= k < touched.len() ==> #[trigger] touched[k] == node2com[node as int] || adjacent(
                graph@.edges,
                node as int,
                members_of(node2com@, touched[k] as int),
            ),
{
    let ghost edges = graph.edges@;
    let ghost labels = node2com@;
    let ghost n = graph.nodes.len();
    let ghost x = node as int;
    let mut touched: Vec<usize> = Vec::new();
    let leaving = graph.out_edges(node);
    let entering = graph.in_edges(node);
    proof {
        lemma_select_members(edges, from_source(x));
        lemma_select_members(edges, into_target(x));
        lemma_leaving_bound(edges, x, Set::empty());
        lemma_weight_sum_select(edges, from_source(x), every_edge());
        lemma_weight_sum_le(edges, both(from_source(x), every_edge()), every_edge());
        lemma_weight_sum_select(edges, into_target(x), every_edge());
        lemma_weight_sum_le(edges, both(into_target(x), every_edge()), every_edge());
        assert forall|i: int| 0 <= i < leaving.len() implies far_end(#[trigger] leaving[i], true) < n by {
            let k = choose|k: int| 0 <= k < edges.len() && edges[k] == leaving[i];
            assert(edges[k].target < n);
        }
        assert forall|i: int| 0 <= i < entering.len() implies far_end(#[trigger] entering[i], false) < n by {
            let k = choose|k: int| 0 <= k < edges.len() && edges[k] == entering[i];
            assert(edges[k].source < n);
        }
    }
    accumulate(leaving, true, node2com, weights, &mut touched);
    proof {
        assert forall|c: int| 0 <= c < n implies #[trigger] weights[c] == weight_sum(
            edges,
            leaving_into(x, members_of(labels, c)),
        ) by {
            lemma_weight_sum_eq(leaving@, reaches(labels, c, true), leaving_into(x, members_of(labels, c)));
            lemma_leaving_bound(edges, x, members_of(labels, c));
        }
        assert forall|c: int| 0 <= c < n implies #[trigger] weights[c] <= MAX_TOTAL_WEIGHT by {
            lemma_leaving_bound(edges, x, members_of(labels, c));
        }
    }
    accumulate(entering, false, node2com, weights, &mut touched);
    touched.push(node2com[node]);
    proof {
        let first = far_labels(leaving@, labels, true);
        let second = far_labels(entering@, labels, false);
        assert(touched@ == (first + second).push(labels[x]));
        assert(touched@[touched.len() - 1] == labels[x]);
        assert forall|c: int| 0 <= c < n implies #[trigger] weights[c] == link_weight(
            edges,
            x,
            members_of(labels, c),
        ) by {
            lemma_weight_sum_eq(entering@, reaches(labels, c, false), entering_from(x, members_of(labels, c)));
            lemma_leaving_bound(edges, x, members_of(labels, c));
        }
        assert forall|k: int| 0 <= k < touched.len() implies #[trigger] touched[k] < n by {
            if k < first.len() {
                assert(touched[k] == first[k]);
            } else if k < first.len() + second.len() {
                assert(touched[k] == second[k - first.len()]);
            }
        }
        assert forall|c: int| 0 <= c < n && !touched@.contains(c as usize) implies #[trigger] weights[c]
            == 0 by {
            assert forall|i: int| 0 <= i < leaving.len() implies !reaches(labels, c, true)(
                #[trigger] leaving[i],
            ) by {
                if reaches(labels, c, true)(leaving[i]) {
                    assert(touched@[i] == first[i]);
                }
            }
            lemma_weight_sum_none(leaving@, reaches(labels, c, true));
            assert forall|i: int| 0 <= i < entering.len() implies !reaches(labels, c, false)(
                #[trigger] entering[i],
            ) by {
                if reaches(labels, c, false)(entering[i]) {
                    assert(touched@[first.len() + i] == second[i]);
                }
            }
            lemma_weight_sum_none(entering@, reaches(labels, c, false));
            lemma_weight_sum_eq(leaving@, reaches(labels, c, true), leaving_into(x, members_of(labels, c)));
            lemma_weight_sum_eq(entering@, reaches(labels, c, false), entering_from(x, members_of(labels, c)));
            lemma_leaving_bound(edges, x, members_of(labels, c));
        }
        assert forall|k: int| 0 <= k < touched.len() implies #[trigger] touched[k] == labels[x] || adjacent(
            edges,
            x,
            members_of(labels, touched[k] as int),
        ) by {
            if k < first.len() {
                assert(touched[k] == first[k]);
                let at = choose|at: int| 0 <= at < edges.len() && edges[at] == leaving[k];
                assert(leaving_into(x, members_of(labels, touched[k] as int))(edges[at]));
            } else if k < first.len() + second.len() {
                assert(touched[k] == second[k - first.len()]);
                let at = choose|at: int| 0 <= at < edges.len() && edges[at] == entering[k - first.len()];
                assert(entering_from(x, members_of(labels, touched[k] as int))(edges[at]));
            }
        }
        assert forall|c: int| 0 <= c < n && adjacent(edges, x, members_of(labels, c)) implies touched@.contains(
            c as usize,
        ) by {
            let k = choose|k: int|
                0 <= k < edges.len() && (leaving_into(x, members_of(labels, c))(#[trigger] edges[k])
                    || entering_from(x, members_of(labels, c))(edges[k]));
            if leaving_into(x, members_of(labels, c))(edges[k]) {
                let i = choose|i: int| 0 <= i < leaving.len() && leaving[i] == edges[k];
                assert(touched@[i] == first[i]);
            } else {
                let i = choose|i: int| 0 <= i < entering.len() && entering[i] == edges[k];
                assert(touched@[first.len() + i] == second[i]);
            }
        }
    }
    touched
}

/// What it is worth to have a node in community `c`, from the running sums:
/// the scaled weight of its links to `c`, less the scaled weight expected
/// between it and `c`.
pub open spec fn value_at(
    resolution: Ratio,
    m: int,
    out_degree: int,
    in_degree: int,
    weights: Seq<u64>,
    sigma_in: Seq<u64>,
    sigma_out: Seq<u64>,
    c: int,
) -> int {
    resolution.denominator * m * weights[c] - resolution.numerator * (out_degree * sigma_in[c] + in_degree
        * sigma_out[c])
}

/// Computes `value_at` for one community.
fn transfer(
    resolution: Ratio,
    m: u64,
    link: u64,
    out_degree: u64,
    in_degree: u64,
    sigma_in: u64,
    sigma_out: u64,
) -> (value: i128)
    requires
        m <= MAX_TOTAL_WEIGHT,
        link <= 2 * MAX_TOTAL_WEIGHT,
        out_degree <= MAX_TOTAL_WEIGHT,
        in_degree <= MAX_TOTAL_WEIGHT,
        sigma_in <= MAX_TOTAL_WEIGHT,
        sigma_out <= MAX_TOTAL_WEIGHT,
    ensures
        value == resolution.denominator * m * link - resolution.numerator * (out_degree * sigma_in + in_degree
            * sigma_out),
        -0x2000_0000_0000_0000_0000_0000 <= value <= 0x2000_0000_0000_0000_0000_0000,
{
    proof {
        lemma_product_bound(resolution.denominator as int, m as int, 0xFFFF_FFFF, 0x3FFF_FFFF);
        lemma_product_bound(
            resolution.denominator * m,
            link as int,
            0xFFFF_FFFFint * 0x3FFF_FFFFint,
            0x7FFF_FFFE,
        );
        lemma_product_bound(out_degree as int, sigma_in as int, 0x3FFF_FFFF, 0x3FFF_FFFF);
        lemma_product_bound(in_degree as int, sigma_out as int, 0x3FFF_FFFF, 0x3FFF_FFFF);
        lemma_product_bound(
            resolution.numerator as int,
            out_degree * sigma_in + in_degree * sigma_out,
            0xFFFF_FFFF,
            2 * (0x3FFF_FFFFint * 0x3FFF_FFFFint),
        );
    }
    let scale: i128 = (resolution.denominator as i128) * (m as i128);
    let pull: i128 = scale * (link as i128);
    let expected: i128 = (out_degree as i128) * (sigma_in as i128) + (in_degree as i128) * (sigma_out as i128);
    let push: i128 = (resolution.numerator as i128) * expected;
    pull - push
}

/// Among the communities listed in `touched`, finds the one that a node of
/// the given degrees gains most by joining, measured against staying in
/// `home`. The node stays where no community gains more than zero; of
/// several that gain the same, the first listed wins.
fn best_candidate(
    resolution: Ratio,
    m: u64,
    out_degree: u64,
    in_degree: u64,
    home: usize,
    touched: &Vec<usize>,
    weights: &Vec<u64>,
    sigma_in: &Vec<u64>,
    sigma_out: &Vec<u64>,
) -> (best: (usize, i128))
    requires
        m <= MAX_TOTAL_WEIGHT,
        out_degree <= MAX_TOTAL_WEIGHT,
        in_degree <= MAX_TOTAL_WEIGHT,
        home < weights.len(),
        sigma_in.len() == weights.len(),
        sigma_out.len() == weights.len(),
        forall|c: int| 0 <= c < weights.len() ==> #[trigger] weights[c] <= 2 * MAX_TOTAL_WEIGHT,
        forall|c: int| 0 <= c < weights.len() ==> #[trigger] sigma_in[c] <= MAX_TOTAL_WEIGHT,
        forall|c: int| 0 <= c < weights.len() ==> #[trigger] sigma_out[c] <= MAX_TOTAL_WEIGHT,
        forall|k: int| 0 <= k < touched.len() ==> #[trigger] touched[k] < weights.len(),
    ensures
        best.0 < weights.len(),
        best.1 == value_at(resolution, m as int, out_degree as int, in_degree as int, weights@, sigma_in@, sigma_out@, best.0 as int)
            - value_at(resolution, m as int, out_degree as int, in_degree as int, weights@, sigma_in@, sigma_out@, home as int),
        best.0 == home ==> best.1 == 0,
        best.0 != home ==> best.1 > 0,
        best.0 == home || touched@.contains(best.0),
        forall|k: int|
            0 <= k < touched.len() ==> value_at(
                resolution,
                m as int,
                out_degree as int,
                in_degree as int,
                weights@,
                sigma_in@,
                sigma_out@,
                #[trigger] touched[k] as int,
            ) - value_at(resolution, m as int, out_degree as int, in_degree as int, weights@, sigma_in@, sigma_out@, home as int)
                <= best.1,
{
    let stay = transfer(resolution, m, weights[home], out_degree, in_degree, sigma_in[home], sigma_out[home]);
    let mut best_com: usize = home;
    let mut best_delta: i128 = 0;
    let mut k: usize = 0;
    while k < touched.len()
        invariant
            m <= MAX_TOTAL_WEIGHT,
            out_degree <= MAX_TOTAL_WEIGHT,
            in_degree <= MAX_TOTAL_WEIGHT,
            home < weights.len(),
            sigma_in.len() == weights.len(),
            sigma_out.len() == weights.len(),
            forall|c: int| 0 <= c < weights.len() ==> #[trigger] weights[c] <= 2 * MAX_TOTAL_WEIGHT,
            forall|c: int| 0 <= c < weights.len() ==> #[trigger] sigma_in[c] <= MAX_TOTAL_WEIGHT,
            forall|c: int| 0 <= c < weights.len() ==> #[trigger] sigma_out[c] <= MAX_TOTAL_WEIGHT,
            forall|i: int| 0 <= i < touched.len() ==> #[trigger] touched[i] < weights.len(),
            k <= touched.len(),
            stay == value_at(resolution, m as int, out_degree as int, in_degree as int, weights@, sigma_in@, sigma_out@, home as int),
            -0x2000_0000_0000_0000_0000_0000 <= stay <= 0x2000_0000_0000_0000_0000_0000,
            best_com < weights.len(),
            best_delta == value_at(resolution, m as int, out_degree as int, in_degree as int, weights@, sigma_in@, sigma_out@, best_com as int)
                - stay,
            best_com == home ==> best_delta == 0,
            best_com != home ==> best_delta > 0,
            best_com == home || touched@.contains(best_com),
            forall|i: int|
                0 <= i < k ==> value_at(
                    resolution,
                    m as int,
                    out_degree as int,
                    in_degree as int,
                    weights@,
                    sigma_in@,
                    sigma_out@,
                    #[trigger] touched[i] as int,
                ) - stay <= best_delta,
        decreases touched.len() - k,
    {
        let com = touched[k];
        let value = transfer(resolution, m, weights[com], out_degree, in_degree, sigma_in[com], sigma_out[com]);
        let delta = value - stay;
        if delta > best_delta {
            best_delta = delta;
            best_com = com;
        }
        k = k + 1;
    }
    (best_com, best_delta)
}

/// Sets the entries of `weights` that `touched` lists back to zero.
fn clear_weights(weights: &mut Vec<u64>, touched: &Vec<usize>)
    requires
        forall|k: int| 0 <= k < touched.len() ==> #[trigger] touched[k] < old(weights).len(),
        forall|c: int|
            0 <= c < old(weights).len() && !touched@.contains(c as usize) ==> #[trigger] old(weights)[c] == 0,
    ensures
        final(weights).len() == old(weights).len(),
        forall|c: int| 0 <= c < final(weights).len() ==> #[trigger] final(weights)[c] == 0,
{
    let mut k: usize = 0;
    while k < touched.len()
        invariant
            k <= touched.len(),
            weights.len() == old(weights).len(),
            forall|i: int| 0 <= i < touched.len() ==> #[trigger] touched[i] < weights.len(),
            forall|c: int| 0 <= c < weights.len() && !touched@.contains(c as usize) ==> #[trigger] weights[c] == 0,
            forall|i: int| 0 <= i < k ==> weights[#[trigger] touched[i] as int] == 0,
        decreases touched.len() - k,
    {
        weights.set(touched[k], 0);
        k = k + 1;
    }
    assert forall|c: int| 0 <= c < weights.len() implies #[trigger] weights[c] == 0 by {
        if touched@.contains(c as usize) {
            let i = choose|i: int| 0 <= i < touched.len() && touched[i] == c as usize;
            assert(weights[touched[i] as int] == 0);
        }
    }
}

/// No neighbouring community is worth more to `node` than its own.
pub open spec fn settled(edges: Seq<Edge>, n: nat, resolution: Ratio, labels: Seq<usize>, node: int) -> bool {
    forall|c: int|
        0 <= c < n && adjacent(edges, node, #[trigger] members_of(labels, c)) ==> move_gain(
            edges,
            n,
            resolution,
            node,
            members_of(labels, labels[node] as int),
            members_of(labels, c),
        ) <= 0
}

/// Moving `node` to community `c` gains more than zero, and no community
/// that `node` has an edge to gains more.
pub open spec fn best_move(edges: Seq<Edge>, n: nat, resolution: Ratio, labels: Seq<usize>, node: int, c: int) -> bool {
    let home = members_of(labels, labels[node] as int);
    &&& 0 <= c < n
    &&& c != labels[node]
    &&& adjacent(edges, node, members_of(labels, c))
    &&& move_gain(edges, n, resolution, node, home, members_of(labels, c)) > 0
    &&& forall|d: int|
        0 <= d < n && adjacent(edges, node, #[trigger] members_of(labels, d)) ==> move_gain(
            edges,
            n,
            resolution,
            node,
            home,
            members_of(labels, d),
        ) <= move_gain(edges, n, resolution, node, home, members_of(labels, c))
}

/// `after` is `before` with one node moved by a best move.
pub open spec fn greedy_step(edges: Seq<Edge>, n: nat, resolution: Ratio, before: Seq<usize>, after: Seq<usize>) -> bool {
    exists|node: int|
        0 <= node < n && #[trigger] best_move(edges, n, resolution, before, node, after[node] as int) && after
            == before.update(node, after[node])
}

/// `path` starts with every node in a community of its own, and every entry
/// but the first is the one before it with one node moved by a best move.
pub open spec fn greedy_path(edges: Seq<Edge>, n: nat, resolution: Ratio, path: Seq<Seq<usize>>) -> bool {
    &&& path.len() > 0
    &&& path[0] == singleton_labels(n)
    &&& forall|i: int|
        0 <= i < path.len() - 1 ==> greedy_step(edges, n, resolution, #[trigger] path[i], path[i + 1])
}

/// What local moving keeps while it runs: the community of every node, the
/// summed in- and out-degree of every community, and a row of zeros for
/// `neighbor_weights` to work in.
pub struct MoveState {
    pub node2com: Vec<usize>,
    pub sigma_tot_in: Vec<u64>,
    pub sigma_tot_out: Vec<u64>,
    pub weights: Vec<u64>,
}

impl MoveState {
    /// The running sums are the sums over the communities as they stand.
    pub open spec fn consistent(&self, graph: &Graph) -> bool {
        let n = graph.spec_node_count();
        &&& self.node2com.len() == n
        &&& valid_labels(self.node2com@)
        &&& self.sigma_tot_in.len() == n
        &&& self.sigma_tot_out.len() == n
        &&& self.weights.len() == n
        &&& forall|c: int|
            0 <= c < n ==> #[trigger] self.sigma_tot_in[c] == community_in(
                graph@.edges,
                n,
                members_of(self.node2com@, c),
            )
        &&& forall|c: int|
            0 <= c < n ==> #[trigger] self.sigma_tot_out[c] == community_out(
                graph@.edges,
                n,
                members_of(self.node2com@, c),
            )
        &&& forall|c: int| 0 <= c < n ==> #[trigger] self.weights[c] == 0
    }

    /// The directed objective of the communities as they stand.
    pub open spec fn objective(&self, graph: &Graph, resolution: Ratio) -> int {
        directed_objective(graph@.edges, graph.spec_node_count(), resolution, grouped(self.node2com@))
    }
}

/// Lets one node choose its community: the node leaves its community, the
/// gain of joining each neighbouring community is measured against staying,
/// and the node joins the best one if that gains more than zero. The result
/// tells whether the node moved.
pub fn visit(
    graph: &Graph,
    resolution: Ratio,
    m: u64,
    in_degrees: &Vec<u64>,
    out_degrees: &Vec<u64>,
    node: NodeIndex,
    state: &mut MoveState,
) -> (moved: bool)
    requires
        graph.wf(),
        m == graph.spec_size(),
        in_degrees.len() == graph.spec_node_count(),
        out_degrees.len() == graph.spec_node_count(),
        forall|i: int| 0 <= i < in_degrees.len() ==> #[trigger] in_degrees[i] == in_degree_of(graph@.edges, i),
        forall|i: int| 0 <= i < out_degrees.len() ==> #[trigger] out_degrees[i] == out_degree_of(graph@.edges, i),
        node < graph.spec_node_count(),
        old(state).consistent(graph),
    ensures
        final(state).consistent(graph),
        !moved ==> final(state).node2com@ == old(state).node2com@ && settled(
            graph@.edges,
            graph.spec_node_count(),
            resolution,
            old(state).node2com@,
            node as int,
        ),
        moved ==> final(state).objective(graph, resolution) > old(state).objective(graph, resolution),
        final(state).node2com@ == old(state).node2com@.update(node as int, final(state).node2com[node as int]),
        moved ==> best_move(
            graph@.edges,
            graph.spec_node_count(),
            resolution,
            old(state).node2com@,
            node as int,
            final(state).node2com[node as int] as int,
        ),
{
    let ghost edges = graph.edges@;
    let ghost n = graph.nodes.len() as nat;
    let ghost labels = state.node2com@;
    let ghost x = node as int;
    let home = state.node2com[node];
    let ghost home_set = members_of(labels, home as int);
    let touched = neighbor_weights(graph, node, &state.node2com, &mut state.weights);
    let in_degree = in_degrees[node];
    let out_degree = out_degrees[node];
    proof {
        graph.lemma_degree_bounds(x);
        lemma_set_sum_remove(n, home_set, in_degree_fn(edges), node);
        lemma_set_sum_remove(n, home_set, out_degree_fn(edges), node);
        lemma_community_bounds(edges, n, home_set.remove(node));
    }
    state.sigma_tot_in.set(home, state.sigma_tot_in[home] - in_degree);
    state.sigma_tot_out.set(home, state.sigma_tot_out[home] - out_degree);
    let ghost middle_in = state.sigma_tot_in@;
    let ghost middle_out = state.sigma_tot_out@;
    proof {
        assert forall|c: int| 0 <= c < n implies {
            &&& middle_in[c] == community_in(edges, n, members_of(labels, c).remove(node))
            &&& middle_out[c] == community_out(edges, n, members_of(labels, c).remove(node))
            &&& middle_in[c] <= MAX_TOTAL_WEIGHT
            &&& middle_out[c] <= MAX_TOTAL_WEIGHT
            &&& state.weights[c] <= 2 * MAX_TOTAL_WEIGHT
            &&& #[trigger] value_at(
                resolution,
                m as int,
                out_degree as int,
                in_degree as int,
                state.weights@,
                middle_in,
                middle_out,
                c,
            ) == transfer_value(edges, n, resolution, x, members_of(labels, c))
        } by {
            if c != home {
                assert(members_of(labels, c).remove(node) =~= members_of(labels, c));
            }
            lemma_community_bounds(edges, n, members_of(labels, c).remove(node));
            lemma_leaving_bound(edges, x, members_of(labels, c));
        }
        assert forall|c: int| 0 <= c < n implies #[trigger] state.weights[c] <= 2 * MAX_TOTAL_WEIGHT by {
            assert(value_at(
                resolution,
                m as int,
                out_degree as int,
                in_degree as int,
                state.weights@,
                middle_in,
                middle_out,
                c,
            ) == transfer_value(edges, n, resolution, x, members_of(labels, c)));
        }
        assert forall|c: int| 0 <= c < n implies #[trigger] state.sigma_tot_in[c] <= MAX_TOTAL_WEIGHT by {
            assert(value_at(
                resolution,
                m as int,
                out_degree as int,
                in_degree as int,
                state.weights@,
                middle_in,
                middle_out,
                c,
            ) == transfer_value(edges, n, resolution, x, members_of(labels, c)));
        }
        assert forall|c: int| 0 <= c < n implies #[trigger] state.sigma_tot_out[c] <= MAX_TOTAL_WEIGHT by {
            assert(value_at(
                resolution,
                m as int,
                out_degree as int,
                in_degree as int,
                state.weights@,
                middle_in,
                middle_out,
                c,
            ) == transfer_value(edges, n, resolution, x, members_of(labels, c)));
        }
    }
    let best = best_candidate(
        resolution,
        m,
        out_degree,
        in_degree,
        home,
        &touched,
        &state.weights,
        &state.sigma_tot_in,
        &state.sigma_tot_out,
    );
    let best_com = best.0;
    let ghost best_set = members_of(labels, best_com as int);
    proof {
        lemma_set_sum_insert(n, best_set.remove(node), in_degree_fn(edges), node);
        lemma_set_sum_insert(n, best_set.remove(node), out_degree_fn(edges), node);
        lemma_community_bounds(edges, n, best_set.remove(node).insert(node));
    }
    proof {
        assert(value_at(
            resolution,
            m as int,
            out_degree as int,
            in_degree as int,
            state.weights@,
            middle_in,
            middle_out,
            best_com as int,
        ) == transfer_value(edges, n, resolution, x, best_set));
        assert(value_at(
            resolution,
            m as int,
            out_degree as int,
            in_degree as int,
            state.weights@,
            middle_in,
            middle_out,
            home as int,
        ) == transfer_value(edges, n, resolution, x, home_set));
    }
    state.sigma_tot_in.set(best_com, state.sigma_tot_in[best_com] + in_degree);
    state.sigma_tot_out.set(best_com, state.sigma_tot_out[best_com] + out_degree);
    let moved = best_com != home;
    if moved {
        state.node2com.set(node, best_com);
        proof {
            let after = state.node2com@;
            assert(after == labels.update(x, best_com));
            lemma_move_changes_objective(edges, resolution, labels, node, best_com);
            lemma_weight_sum_le(edges, loop_at(x), every_edge());
            lemma_product_bound(
                resolution.denominator as int,
                total_weight(edges),
                resolution.denominator as int,
                total_weight(edges),
            );
            lemma_product_bound(
                resolution.denominator * total_weight(edges),
                weight_sum(edges, loop_at(x)),
                resolution.denominator * total_weight(edges),
                total_weight(edges),
            );
            assert(touched@.contains(best_com));
            let at = choose|at: int| 0 <= at < touched.len() && touched[at] == best_com;
            assert(touched[at] == labels[x] || adjacent(edges, x, members_of(labels, touched[at] as int)));
            assert forall|d: int| 0 <= d < n && adjacent(edges, x, #[trigger] members_of(labels, d)) implies move_gain(
                edges,
                n,
                resolution,
                x,
                home_set,
                members_of(labels, d),
            ) <= move_gain(edges, n, resolution, x, home_set, best_set) by {
                assert(touched@.contains(d as usize));
                let k = choose|k: int| 0 <= k < touched.len() && touched[k] == d as usize;
                assert(touched[k] as int == d);
                assert(value_at(
                    resolution,
                    m as int,
                    out_degree as int,
                    in_degree as int,
                    state.weights@,
                    middle_in,
                    middle_out,
                    d,
                ) == transfer_value(edges, n, resolution, x, members_of(labels, d)));
            }
            assert forall|c: int| 0 <= c < n implies {
                &&& state.sigma_tot_in@[c] == community_in(edges, n, #[trigger] members_of(after, c))
                &&& state.sigma_tot_out@[c] == community_out(edges, n, members_of(after, c))
            } by {
                assert(value_at(
                    resolution,
                    m as int,
                    out_degree as int,
                    in_degree as int,
                    state.weights@,
                    middle_in,
                    middle_out,
                    c,
                ) == transfer_value(edges, n, resolution, x, members_of(labels, c)));
                if c == best_com {
                    assert(members_of(after, c) =~= best_set.insert(node));
                    assert(best_set.remove(node) =~= best_set);
                } else if c == home {
                    assert(members_of(after, c) =~= home_set.remove(node));
                } else {
                    assert(members_of(after, c) =~= members_of(labels, c));
                    assert(members_of(labels, c).remove(node) =~= members_of(labels, c));
                }
            }
        }
    } else {
        proof {
            assert(home_set.remove(node).insert(node) =~= home_set);
            assert forall|c: int| 0 <= c < n implies {
                &&& state.sigma_tot_in@[c] == community_in(edges, n, #[trigger] members_of(labels, c))
                &&& state.sigma_tot_out@[c] == community_out(edges, n, members_of(labels, c))
            } by {
                assert(value_at(
                    resolution,
                    m as int,
                    out_degree as int,
                    in_degree as int,
                    state.weights@,
                    middle_in,
                    middle_out,
                    c,
                ) == transfer_value(edges, n, resolution, x, members_of(labels, c)));
                if c != home {
                    assert(members_of(labels, c).remove(node) =~= members_of(labels, c));
                }
            }
            assert forall|c: int| 0 <= c < n && adjacent(edges, x, #[trigger] members_of(labels, c)) implies move_gain(
                edges,
                n,
                resolution,
                x,
                members_of(labels, labels[x] as int),
                members_of(labels, c),
            ) <= 0 by {
                assert(touched@.contains(c as usize));
                let k = choose|k: int| 0 <= k < touched.len() && touched[k] == c as usize;
                assert(touched[k] as int == c);
                assert(value_at(
                    resolution,
                    m as int,
                    out_degree as int,
                    in_degree as int,
                    state.weights@,
                    middle_in,
                    middle_out,
                    c,
                ) == transfer_value(edges, n, resolution, x, members_of(labels, c)));
            }
        }
    }
    clear_weights(&mut state.weights, &touched);
    moved
}

/// A row of `n` zeros.
fn zeros(n: usize) -> (row: Vec<u64>)
    ensures
        row.len() == n,
        forall|c: int| 0 <= c < n ==> #[trigger] row[c] == 0,
{
    let mut row: Vec<u64> = Vec::new();
    while row.len() < n
        invariant
            row.len() <= n,
            forall|c: int| 0 <= c < row.len() ==> #[trigger] row[c] == 0,
        decreases n - row.len(),
    {
        row.push(0);
    }
    row
}

impl MoveState {
    /// Every node in a community of its own.
    pub fn singletons(graph: &Graph) -> (state: MoveState)
        requires
            graph.wf(),
        ensures
            state.consistent(graph),
            state.node2com@ == singleton_labels(graph.spec_node_count()),
    {
        let state = MoveState {
            node2com: graph.node_indices(),
            sigma_tot_in: graph.in_degrees(),
            sigma_tot_out: graph.out_degrees(),
            weights: zeros(graph.node_count()),
        };
        proof {
            let n = graph.spec_node_count();
            let edges = graph@.edges;
            let labels = state.node2com@;
            assert(labels =~= singleton_labels(n));
            assert forall|c: int| 0 <= c < n implies {
                &&& community_in(edges, n, #[trigger] members_of(labels, c)) == in_degree_of(edges, c)
                &&& community_out(edges, n, members_of(labels, c)) == out_degree_of(edges, c)
            } by {
                let nobody = Set::<usize>::empty();
                assert(members_of(labels, c) =~= nobody.insert(c as usize));
                lemma_sum_to_point(n, restricted(nobody, in_degree_fn(edges)), -1);
                lemma_sum_to_point(n, restricted(nobody, out_degree_fn(edges)), -1);
                lemma_set_sum_insert(n, nobody, in_degree_fn(edges), c as usize);
                lemma_set_sum_insert(n, nobody, out_degree_fn(edges), c as usize);
            }
        }
        state
    }
}

/// Starts with every node in a community of its own and visits the nodes in
/// the given order, pass after pass, until a pass moves no node. The result
/// gives the community of every node.
pub fn local_moving(graph: &Graph, resolution: Ratio, order: &Vec<NodeIndex>) -> (labels: Vec<usize>)
    requires
        graph.wf(),
        forall|k: int| 0 <= k < order.len() ==> #[trigger] order[k] < graph.spec_node_count(),
    ensures
        labels.len() == graph.spec_node_count(),
        valid_labels(labels@),
        exists|path: Seq<Seq<usize>>|
            greedy_path(graph@.edges, graph.spec_node_count(), resolution, path) && #[trigger] path.last()
                == labels@,
        forall|k: int|
            0 <= k < order.len() ==> settled(
                graph@.edges,
                graph.spec_node_count(),
                resolution,
                labels@,
                #[trigger] order[k] as int,
            ),
        directed_objective(graph@.edges, graph.spec_node_count(), resolution, grouped(labels@))
            >= directed_objective(
            graph@.edges,
            graph.spec_node_count(),
            resolution,
            singletons(graph.spec_node_count()),
        ),
{
    let m = graph.size();
    let in_degrees = graph.in_degrees();
    let out_degrees = graph.out_degrees();
    let mut state = MoveState::singletons(graph);
    let ghost edges = graph@.edges;
    let ghost n = graph.spec_node_count();
    let ghost start = state.objective(graph, resolution);
    let ghost limit = n * (resolution.denominator * total_weight(edges) * total_weight(edges));
    let mut n_moves: usize = 1;
    let ghost mut path: Seq<Seq<usize>> = seq![state.node2com@];
    proof {
        lemma_objective_bound(edges, n, resolution, grouped(state.node2com@));
    }
    while n_moves > 0
        invariant
            greedy_path(edges, n, resolution, path),
            path.last() == state.node2com@,
            graph.wf(),
            edges == graph@.edges,
            n == graph.spec_node_count(),
            m == graph.spec_size(),
            in_degrees.len() == n,
            out_degrees.len() == n,
            forall|i: int| 0 <= i < in_degrees.len() ==> #[trigger] in_degrees[i] == in_degree_of(edges, i),
            forall|i: int| 0 <= i < out_degrees.len() ==> #[trigger] out_degrees[i] == out_degree_of(edges, i),
            forall|k: int| 0 <= k < order.len() ==> #[trigger] order[k] < n,
            state.consistent(graph),
            limit == n * (resolution.denominator * total_weight(edges) * total_weight(edges)),
            start <= state.objective(graph, resolution) <= limit,
            n_moves == 0 ==> forall|k: int|
                0 <= k < order.len() ==> settled(edges, n, resolution, state.node2com@, #[trigger] order[k] as int),
        decreases limit - state.objective(graph, resolution), n_moves,
    {
        n_moves = 0;
        let ghost before = state.objective(graph, resolution);
        let mut k: usize = 0;
        while k < order.len()
            invariant
                greedy_path(edges, n, resolution, path),
                path.last() == state.node2com@,
                graph.wf(),
                edges == graph@.edges,
                n == graph.spec_node_count(),
                m == graph.spec_size(),
                in_degrees.len() == n,
                out_degrees.len() == n,
                forall|i: int| 0 <= i < in_degrees.len() ==> #[trigger] in_degrees[i] == in_degree_of(edges, i),
                forall|i: int|
                    0 <= i < out_degrees.len() ==> #[trigger] out_degrees[i] == out_degree_of(edges, i),
                forall|j: int| 0 <= j < order.len() ==> #[trigger] order[j] < n,
                state.consistent(graph),
                k <= order.len(),
                n_moves <= k,
                before <= state.objective(graph, resolution),
                n_moves > 0 ==> before < state.objective(graph, resolution),
                n_moves == 0 ==> forall|j: int|
                    0 <= j < k ==> settled(edges, n, resolution, state.node2com@, #[trigger] order[j] as int),
            decreases order.len() - k,
        {
            let moved = visit(graph, resolution, m, &in_degrees, &out_degrees, order[k], &mut state);
            if moved {
                n_moves = n_moves + 1;
                proof {
                    let longer = path.push(state.node2com@);
                    assert forall|i: int| 0 <= i < longer.len() - 1 implies greedy_step(
                        edges,
                        n,
                        resolution,
                        #[trigger] longer[i],
                        longer[i + 1],
                    ) by {
                        if i < path.len() - 1 {
                            assert(greedy_step(edges, n, resolution, path[i], path[i + 1]));
                        } else {
                            let node = order[k as int] as int;
                            assert(best_move(edges, n, resolution, longer[i], node, longer[i + 1][node] as int));
                        }
                    }
                    path = longer;
                }
            }
            k = k + 1;
        }
        proof {
            lemma_objective_bound(edges, n, resolution, grouped(state.node2com@));
        }
    }
    state.node2com
}

/// No community of `p` that `node` has an edge to is worth more to `node`
/// than the community that holds it.
pub open spec fn stable(edges: Seq<Edge>, n: nat, resolution: Ratio, p: Seq<Set<usize>>, node: int) -> bool {
    forall|home: int, c: int|
        0 <= home < p.len() && 0 <= c < p.len() && (#[trigger] p[home]).contains(node as usize) && adjacent(
            edges,
            node,
            #[trigger] p[c],
        ) ==> move_gain(edges, n, resolution, node, p[home], p[c]) <= 0
}

/// `p` is what local moving can end with: a partition of the nodes without
/// empty communities, and so with no more communities than nodes, reached
/// from single nodes by best moves, in which no node gains by moving to a
/// neighbouring community.
pub open spec fn local_outcome(edges: Seq<Edge>, n: nat, resolution: Ratio, p: Seq<Set<usize>>) -> bool {
    &&& is_partition(p, n)
    &&& all_inhabited(p)
    &&& p.len() <= n
    &&& exists|path: Seq<Seq<usize>>|
        greedy_path(edges, n, resolution, path) && p == inhabited(grouped(#[trigger] path.last()))
    &&& forall|node: int| 0 <= node < n ==> #[trigger] stable(edges, n, resolution, p, node)
}

/// Local moving with the nodes visited in the given order. The result is a
/// partition of the nodes without empty communities, in which no visited
/// node gains by moving to a neighbouring community, and which scores no
/// less on the directed objective than the partition into single nodes.
pub fn optimize_modularity_in(graph: &Graph, resolution: Ratio, order: &Vec<NodeIndex>) -> (partition: Partition)
    requires
        graph.wf(),
        forall|k: int| 0 <= k < order.len() ==> #[trigger] order[k] < graph.spec_node_count(),
    ensures
        is_partition(communities(partition@), graph.spec_node_count()),
        all_inhabited(communities(partition@)),
        partition.len() <= graph.spec_node_count(),
        exists|path: Seq<Seq<usize>>|
            greedy_path(graph@.edges, graph.spec_node_count(), resolution, path) && communities(partition@)
                == inhabited(grouped(#[trigger] path.last())),
        forall|k: int|
            0 <= k < order.len() ==> stable(
                graph@.edges,
                graph.spec_node_count(),
                resolution,
                communities(partition@),
                #[trigger] order[k] as int,
            ),
        directed_objective(graph@.edges, graph.spec_node_count(), resolution, communities(partition@))
            >= directed_objective(
            graph@.edges,
            graph.spec_node_count(),
            resolution,
            singletons(graph.spec_node_count()),
        ),
{
    let labels = local_moving(graph, resolution, order);
    let partition = communities_from_labels(&labels);
    proof {
        let edges = graph@.edges;
        let n = graph.spec_node_count();
        let full = grouped(labels@);
        let p = communities(partition@);
        lemma_grouped_is_partition(labels@);
        lemma_inhabited_is_partition(full);
        lemma_objective_inhabited(edges, n, resolution, full);
        assert forall|k: int| 0 <= k < order.len() implies stable(edges, n, resolution, p, #[trigger] order[k] as int) by {
            let node = order[k] as int;
            assert(settled(edges, n, resolution, labels@, node));
            assert forall|home: int, c: int|
                0 <= home < p.len() && 0 <= c < p.len() && (#[trigger] p[home]).contains(node as usize)
                    && adjacent(edges, node, #[trigger] p[c]) implies move_gain(
                edges,
                n,
                resolution,
                node,
                p[home],
                p[c],
            ) <= 0 by {
                let h = choose|h: int| 0 <= h < full.len() && full[h] == p[home];
                let d = choose|d: int| 0 <= d < full.len() && full[d] == p[c];
                assert(full[h] == members_of(labels@, h));
                assert(full[d] == members_of(labels@, d));
                assert(labels@[node] == h);
            }
        }
    }
    partition
}

/// Puts the entries of `nodes` into a random order by
/// `rand::seq::SliceRandom::shuffle`, with the generator that
/// `rand::thread_rng` hands out. The shuffle only swaps entries, so the same
/// entries are there afterwards, each as often as before; nothing is
/// claimed of their order.
#[verifier::external_body]
fn shuffle(nodes: &mut Vec<NodeIndex>)
    ensures
        final(nodes)@.to_multiset() == old(nodes)@.to_multiset(),
{
    nodes.shuffle(&mut rand::thread_rng());
}

/// Local moving with the nodes visited in a random order, drawn once. The
/// result is a partition of the nodes without empty communities, in which no
/// node gains by moving to a neighbouring community, and which scores no
/// less on the directed objective than the partition into single nodes.
pub fn optimize_modularity(graph: &Graph, resolution: Ratio) -> (partition: Partition)
    requires
        graph.wf(),
    ensures
        local_outcome(graph@.edges, graph.spec_node_count(), resolution, communities(partition@)),
        partition.len() <= graph.spec_node_count(),
        directed_objective(graph@.edges, graph.spec_node_count(), resolution, communities(partition@))
            >= directed_objective(
            graph@.edges,
            graph.spec_node_count(),
            resolution,
            singletons(graph.spec_node_count()),
        ),
{
    let mut nodes = graph.node_indices();
    let ghost sorted = nodes@;
    shuffle(&mut nodes);
    proof {
        broadcast use group_to_multiset_ensures;

        assert forall|k: int| 0 <= k < nodes.len() implies #[trigger] nodes[k] < graph.spec_node_count() by {
            assert(nodes@.contains(nodes[k]));
            assert(sorted.to_multiset().count(nodes[k]) > 0);
            assert(sorted.contains(nodes[k]));
        }
    }
    let partition = optimize_modularity_in(graph, resolution, &nodes);
    proof {
        broadcast use group_to_multiset_ensures;

        assert forall|node: int| 0 <= node < graph.spec_node_count() implies #[trigger] stable(
            graph@.edges,
            graph.spec_node_count(),
            resolution,
            communities(partition@),
            node,
        ) by {
            assert(sorted[node] == node as usize);
            assert(sorted.contains(node as usize));
            assert(nodes@.to_multiset().count(node as usize) > 0);
            assert(nodes@.contains(node as usize));
            let k = choose|k: int| 0 <= k < nodes.len() && nodes[k] == node as usize;
            assert(nodes[k] as int == node);
        }
    }
    partition
}

} // verus!
