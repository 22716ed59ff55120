//! The modularity of a partition, as an exact fraction.

use crate::graph::{
    both, every_edge, far_end, from_source, in_degree_fn, in_degree_of, into_target, lemma_degree_sums,
    lemma_select_members, lemma_weight_sum_eq, lemma_weight_sum_le, lemma_weight_sum_select,
    lemma_weight_sum_take, out_degree_fn, out_degree_of, total_weight, weight_sum, Edge, Graph,
    MAX_TOTAL_WEIGHT,
};
use crate::objective::{
    community_in, community_out, entering_from, inside, internal_weight, leaving_into, lemma_leaving_bound,
    link_weight,
};
use crate::partition::{communities, community_contains, community_members, pairwise_disjoint, Community, Partition};
use crate::ratio::Ratio;
use crate::sums::{
    lemma_list_sum_is_set_sum, lemma_list_sum_take, lemma_product_bound, lemma_set_sum_add, lemma_set_sum_le,
    lemma_set_sum_pointwise, lemma_set_sum_union, lemma_sum_to_add, lemma_sum_to_eq, lemma_sum_to_point,
    list_sum, restricted, set_sum, sum_to,
};
use vstd::prelude::*;
use vstd::seq_lib::lemma_fold_left_permutation;

verus! {

/// A modularity score as the fraction `numerator / denominator`. The
/// denominator is zero, and the score undefined, for a graph without weight
/// or a resolution given with denominator zero.
#[derive(Clone, Copy, Debug, PartialEq, Eq)]
pub struct Modularity {
    pub numerator: i128,
    pub denominator: u128,
}

/// The in-degree plus the out-degree of every node, as a function of the
/// node.
pub open spec fn degree_fn(edges: Seq<Edge>) -> spec_fn(int) -> int {
    |node: int| in_degree_of(edges, node) + out_degree_of(edges, node)
}

/// The weight of the edges between a node and the members of `s`, as a
/// function of the node.
pub open spec fn link_fn(edges: Seq<Edge>, s: Set<usize>) -> spec_fn(int) -> int {
    |node: int| link_weight(edges, node, s)
}

/// The in-degree plus the out-degree of every member of `s`, summed.
pub open spec fn sigma_tot(edges: Seq<Edge>, n: nat, s: Set<usize>) -> int {
    set_sum(n, s, degree_fn(edges))
}

/// The weight inside `s`, with every edge counted twice: once where it
/// leaves its source and once where it enters its target.
pub open spec fn sigma_in(edges: Seq<Edge>, s: Set<usize>) -> int {
    2 * internal_weight(edges, s)
}

/// What community `s` adds to the numerator of the modularity.
pub open spec fn modularity_term(edges: Seq<Edge>, n: nat, resolution: Ratio, s: Set<usize>) -> int {
    2 * total_weight(edges) * resolution.denominator * sigma_in(edges, s) - resolution.numerator * (sigma_tot(
        edges,
        n,
        s,
    ) * sigma_tot(edges, n, s))
}

/// `modularity_term` of every community of `p`, by label.
pub open spec fn modularity_terms(edges: Seq<Edge>, n: nat, resolution: Ratio, p: Seq<Set<usize>>) -> spec_fn(
    int,
) -> int {
    |c: int| modularity_term(edges, n, resolution, p[c])
}

/// The numerator of the modularity of `p`. With `m` the total weight, the
/// modularity is the sum over the communities of
/// `sigma_in / 2m - resolution * (sigma_tot / 2m)^2`; this is that sum
/// multiplied by `modularity_denominator`.
pub open spec fn modularity_numerator(edges: Seq<Edge>, n: nat, resolution: Ratio, p: Seq<Set<usize>>) -> int {
    sum_to(p.len(), modularity_terms(edges, n, resolution, p))
}

/// The denominator of every modularity on these edges: four times the
/// square of the total weight, times the denominator of the resolution.
pub open spec fn modularity_denominator(edges: Seq<Edge>, resolution: Ratio) -> int {
    4 * total_weight(edges) * total_weight(edges) * resolution.denominator
}

/// `sigma_tot` of every community of `p`, by label.
pub open spec fn totals(edges: Seq<Edge>, n: nat, p: Seq<Set<usize>>) -> spec_fn(int) -> int {
    |c: int| sigma_tot(edges, n, p[c])
}

/// The nodes that are a member of one of the first `k` communities.
pub open spec fn union_below(p: Seq<Set<usize>>, k: int) -> Set<usize> {
    Set::new(|x: usize| exists|c: int| 0 <= c < k && c < p.len() && #[trigger] p[c].contains(x))
}

/// The degrees of all nodes sum to twice the total weight, and none is
/// negative.
pub proof fn lemma_degree_total(edges: Seq<Edge>, n: nat)
    requires
        forall|k: int| 0 <= k < edges.len() ==> (#[trigger] edges[k]).source < n && edges[k].target < n,
    ensures
        sum_to(n, degree_fn(edges)) == 2 * total_weight(edges),
        forall|i: int| 0 <= i < n ==> 0 <= #[trigger] degree_fn(edges)(i),
{
    lemma_degree_sums(edges, n);
    assert forall|i: int| 0 <= i < n implies #[trigger] degree_fn(edges)(i) == in_degree_fn(edges)(i)
        + out_degree_fn(edges)(i) by {}
    lemma_sum_to_add(n, degree_fn(edges), in_degree_fn(edges), out_degree_fn(edges));
    assert forall|i: int| 0 <= i < n implies 0 <= #[trigger] degree_fn(edges)(i) by {
        lemma_weight_sum_le(edges, from_source(i), every_edge());
        lemma_weight_sum_le(edges, into_target(i), every_edge());
    }
}

/// The totals of disjoint communities sum to no more than twice the total
/// weight.
pub proof fn lemma_totals_bound(edges: Seq<Edge>, n: nat, p: Seq<Set<usize>>, k: nat)
    requires
        forall|j: int| 0 <= j < edges.len() ==> (#[trigger] edges[j]).source < n && edges[j].target < n,
        pairwise_disjoint(p),
        k <= p.len(),
    ensures
        sum_to(k, totals(edges, n, p)) == set_sum(n, union_below(p, k as int), degree_fn(edges)),
        0 <= sum_to(k, totals(edges, n, p)) <= 2 * total_weight(edges),
    decreases k,
{
    let f = degree_fn(edges);
    lemma_degree_total(edges, n);
    if k == 0 {
        assert(union_below(p, 0) =~= Set::<usize>::empty());
        lemma_sum_to_point(n, restricted(union_below(p, 0), f), -1);
    } else {
        lemma_totals_bound(edges, n, p, (k - 1) as nat);
        let before = union_below(p, k - 1);
        let last = p[k - 1];
        assert forall|x: usize| !(before.contains(x) && last.contains(x)) by {
            if before.contains(x) && last.contains(x) {
                let c = choose|c: int| 0 <= c < k - 1 && c < p.len() && #[trigger] p[c].contains(x);
                assert(!p[k - 1].contains(x));
            }
        }
        lemma_set_sum_union(n, before, last, f);
        assert(union_below(p, k as int) =~= before.union(last)) by {
            assert forall|x: usize| union_below(p, k as int).contains(x) <==> before.union(last).contains(x) by {
                if union_below(p, k as int).contains(x) {
                    let c = choose|c: int| 0 <= c < k && c < p.len() && #[trigger] p[c].contains(x);
                    if c < k - 1 {
                        assert(before.contains(x));
                    }
                }
                if before.contains(x) {
                    let c = choose|c: int| 0 <= c < k - 1 && c < p.len() && #[trigger] p[c].contains(x);
                    assert(p[c].contains(x));
                }
                if last.contains(x) {
                    assert(p[k - 1].contains(x));
                }
            }
        }
    }
    lemma_set_sum_le(n, union_below(p, k as int), union_below(p, k as int), f);
}

/// The weight, per member of `s`, of the edges that leave it for `s`.
pub open spec fn leaving_fn(edges: Seq<Edge>, s: Set<usize>) -> spec_fn(int) -> int {
    |node: int| weight_sum(edges, leaving_into(node, s))
}

/// The weight, per member of `s`, of the edges that enter it from `s`.
pub open spec fn entering_fn(edges: Seq<Edge>, s: Set<usize>) -> spec_fn(int) -> int {
    |node: int| weight_sum(edges, entering_from(node, s))
}

/// Counting the edges inside a community where they leave their source
/// counts each once, and so does counting them where they enter their
/// target.
pub proof fn lemma_inside_by_member(edges: Seq<Edge>, n: nat, s: Set<usize>)
    requires
        n <= usize::MAX,
        forall|k: int| 0 <= k < edges.len() ==> (#[trigger] edges[k]).source < n && edges[k].target < n,
    ensures
        set_sum(n, s, leaving_fn(edges, s)) == internal_weight(edges, s),
        set_sum(n, s, entering_fn(edges, s)) == internal_weight(edges, s),
    decreases edges.len(),
{
    let f = restricted(s, leaving_fn(edges, s));
    let f2 = restricted(s, entering_fn(edges, s));
    if edges.len() == 0 {
        lemma_sum_to_point(n, f, -1);
        lemma_sum_to_point(n, f2, -1);
    } else {
        let rest = edges.drop_last();
        let e = edges.last();
        assert(e == edges[edges.len() - 1]);
        assert forall|k: int| 0 <= k < rest.len() implies (#[trigger] rest[k]).source < n && rest[k].target
            < n by {
            assert(rest[k] == edges[k]);
        }
        lemma_inside_by_member(rest, n, s);
        let g = restricted(s, leaving_fn(rest, s));
        let h = |node: int| if e.source == node && inside(s)(e) { e.weight as int } else { 0int };
        assert forall|i: int| 0 <= i < n implies #[trigger] f(i) == g(i) + h(i) by {}
        lemma_sum_to_add(n, f, g, h);
        lemma_sum_to_point(n, h, e.source as int);
        let g2 = restricted(s, entering_fn(rest, s));
        let h2 = |node: int| if e.target == node && inside(s)(e) { e.weight as int } else { 0int };
        assert forall|i: int| 0 <= i < n implies #[trigger] f2(i) == g2(i) + h2(i) by {}
        lemma_sum_to_add(n, f2, g2, h2);
        lemma_sum_to_point(n, h2, e.target as int);
    }
}

/// The links between the members of a community sum to `sigma_in`, and
/// `sigma_in` is no more than `sigma_tot`.
pub proof fn lemma_sigma_in(edges: Seq<Edge>, n: nat, s: Set<usize>)
    requires
        n <= usize::MAX,
        forall|k: int| 0 <= k < edges.len() ==> (#[trigger] edges[k]).source < n && edges[k].target < n,
    ensures
        set_sum(n, s, link_fn(edges, s)) == sigma_in(edges, s),
        sigma_tot(edges, n, s) == community_in(edges, n, s) + community_out(edges, n, s),
        internal_weight(edges, s) <= community_out(edges, n, s),
        internal_weight(edges, s) <= community_in(edges, n, s),
        0 <= sigma_in(edges, s) <= sigma_tot(edges, n, s) <= 2 * total_weight(edges),
        forall|i: int| 0 <= i < n ==> 0 <= #[trigger] link_fn(edges, s)(i) <= 2 * total_weight(edges),
{
    lemma_inside_by_member(edges, n, s);
    lemma_set_sum_add(n, s, link_fn(edges, s), leaving_fn(edges, s), entering_fn(edges, s));
    lemma_set_sum_add(n, s, degree_fn(edges), in_degree_fn(edges), out_degree_fn(edges));
    assert forall|i: int| 0 <= i < n implies #[trigger] leaving_fn(edges, s)(i) <= out_degree_fn(edges)(i) by {
        lemma_leaving_bound(edges, i, s);
    }
    lemma_set_sum_pointwise(n, s, leaving_fn(edges, s), out_degree_fn(edges));
    assert forall|i: int| 0 <= i < n implies #[trigger] entering_fn(edges, s)(i) <= in_degree_fn(edges)(i) by {
        lemma_leaving_bound(edges, i, s);
    }
    lemma_set_sum_pointwise(n, s, entering_fn(edges, s), in_degree_fn(edges));
    lemma_degree_total(edges, n);
    lemma_set_sum_le(n, s, s, degree_fn(edges));
    lemma_weight_sum_le(edges, inside(s), every_edge());
    assert forall|i: int| 0 <= i < n implies 0 <= #[trigger] link_fn(edges, s)(i) <= 2 * total_weight(edges) by {
        lemma_leaving_bound(edges, i, s);
    }
}

/// The numerator of the modularity of disjoint communities lies between
/// what the totals alone would take away and what they could at most give.
pub proof fn lemma_numerator_bounds(edges: Seq<Edge>, n: nat, resolution: Ratio, p: Seq<Set<usize>>, k: nat)
    requires
        n <= usize::MAX,
        forall|j: int| 0 <= j < edges.len() ==> (#[trigger] edges[j]).source < n && edges[j].target < n,
        pairwise_disjoint(p),
        k <= p.len(),
    ensures
        sum_to(k, modularity_terms(edges, n, resolution, p)) <= 4 * total_weight(edges) * total_weight(edges)
            * resolution.denominator,
        sum_to(k, modularity_terms(edges, n, resolution, p)) >= -(4 * total_weight(edges) * total_weight(edges)
            * resolution.numerator),
        sum_to(k, modularity_terms(edges, n, resolution, p)) <= 2 * total_weight(edges)
            * resolution.denominator * sum_to(k, totals(edges, n, p)),
        sum_to(k, modularity_terms(edges, n, resolution, p)) >= -(resolution.numerator * (sum_to(
            k,
            totals(edges, n, p),
        ) * sum_to(k, totals(edges, n, p)))),
    decreases k,
{
    let m = total_weight(edges);
    let rd = resolution.denominator as int;
    let rn = resolution.numerator as int;
    let a = 2 * m * rd;
    let sum = sum_to(k, modularity_terms(edges, n, resolution, p));
    let tot = sum_to(k, totals(edges, n, p));
    lemma_totals_bound(edges, n, p, k);
    lemma_weight_sum_le(edges, every_edge(), every_edge());
    if k == 0 {
        assert(a * 0 == 0 && rn * (0 * 0) == 0) by (nonlinear_arith);
    } else {
        lemma_numerator_bounds(edges, n, resolution, p, (k - 1) as nat);
        lemma_totals_bound(edges, n, p, (k - 1) as nat);
        lemma_sigma_in(edges, n, p[k - 1]);
        let before = sum_to((k - 1) as nat, modularity_terms(edges, n, resolution, p));
        let tot_before = sum_to((k - 1) as nat, totals(edges, n, p));
        let t = sigma_tot(edges, n, p[k - 1]);
        let inner = sigma_in(edges, p[k - 1]);
        assert(sum == before + (a * inner - rn * (t * t)));
        assert(tot == tot_before + t);
        assert(a * inner <= a * t && 0 <= a * inner) by (nonlinear_arith)
            requires
                0 <= inner <= t,
                0 <= a,
        ;
        assert(a * tot == a * tot_before + a * t) by (nonlinear_arith)
            requires
                tot == tot_before + t,
        ;
        assert(rn * (tot * tot) >= rn * (tot_before * tot_before) + rn * (t * t) && rn * (t * t) >= 0)
            by (nonlinear_arith)
            requires
                tot == tot_before + t,
                0 <= tot_before,
                0 <= t,
                0 <= rn,
        ;
    }
    assert(a * tot <= 4 * m * m * rd) by (nonlinear_arith)
        requires
            a == 2 * m * rd,
            0 <= tot <= 2 * m,
            0 <= m,
            0 <= rd,
    ;
    assert(rn * (tot * tot) <= 4 * m * m * rn) by (nonlinear_arith)
        requires
            0 <= tot <= 2 * m,
            0 <= m,
            0 <= rn,
    ;
}

/// The edges whose far end is a member of `s`.
pub open spec fn far_within(s: Set<usize>, leaving: bool) -> spec_fn(Edge) -> bool {
    |e: Edge| s.contains(far_end(e, leaving))
}

/// Adds up the weight of the edges of one adjacency list whose far end is a
/// member of `community`.
fn weight_within(list: &Vec<Edge>, leaving: bool, community: &Community) -> (weight: u64)
    requires
        weight_sum(list@, every_edge()) <= MAX_TOTAL_WEIGHT,
    ensures
        weight == weight_sum(list@, far_within(community@, leaving)),
{
    let mut weight: u64 = 0;
    let mut j: usize = 0;
    while j < list.len()
        invariant
            j <= list.len(),
            weight_sum(list@, every_edge()) <= MAX_TOTAL_WEIGHT,
            weight == weight_sum(list@.take(j as int), far_within(community@, leaving)),
        decreases list.len() - j,
    {
        let edge = list[j];
        let far = if leaving {
            edge.target
        } else {
            edge.source
        };
        proof {
            let p = far_within(community@, leaving);
            lemma_weight_sum_take(list@, j as int, p);
            lemma_weight_sum_take(list@, j as int + 1, p);
            lemma_weight_sum_le(list@, p, every_edge());
        }
        if community_contains(community, far) {
            weight = weight + edge.weight;
        }
        j = j + 1;
    }
    assert(list@.take(list.len() as int) =~= list@);
    weight
}

/// `sigma_tot` and `sigma_in` of one community: for every member its two
/// degrees, and the weight of its edges to and from the other members.
pub fn community_sums(graph: &Graph, community: &Community) -> (sums: (u64, u64))
    requires
        graph.wf(),
        forall|x: usize| community@.contains(x) ==> x < graph.spec_node_count(),
    ensures
        sums.0 == sigma_tot(graph@.edges, graph.spec_node_count(), community@),
        sums.1 == sigma_in(graph@.edges, community@),
        sums.1 <= sums.0 <= 2 * MAX_TOTAL_WEIGHT,
{
    let ghost edges = graph@.edges;
    let ghost n = graph.spec_node_count();
    let ghost s = community@;
    let members = community_members(community);
    let mut total: u64 = 0;
    let mut inner: u64 = 0;
    let mut j: usize = 0;
    proof {
        lemma_sigma_in(edges, n, s);
        lemma_degree_total(edges, n);
        assert forall|k: int| 0 <= k < members.len() implies #[trigger] members[k] < n by {
            assert(members@.to_set().contains(members[k]));
        }
    }
    while j < members.len()
        invariant
            graph.wf(),
            edges == graph@.edges,
            n == graph.spec_node_count(),
            s == community@,
            j <= members.len(),
            members@.no_duplicates(),
            members@.to_set() == s,
            forall|k: int| 0 <= k < members.len() ==> #[trigger] members[k] < n,
            forall|i: int| 0 <= i < n ==> 0 <= #[trigger] degree_fn(edges)(i),
            forall|i: int| 0 <= i < n ==> 0 <= #[trigger] link_fn(edges, s)(i) <= 2 * total_weight(edges),
            sum_to(n, degree_fn(edges)) == 2 * total_weight(edges),
            total == list_sum(members@.take(j as int), degree_fn(edges)),
            inner == list_sum(members@.take(j as int), link_fn(edges, s)),
        decreases members.len() - j,
    {
        let node = members[j];
        let leaving = graph.out_edges(node);
        let entering = graph.in_edges(node);
        proof {
            let x = node as int;
            lemma_list_sum_take(n, members@, j as int, degree_fn(edges));
            lemma_list_sum_take(n, members@, j as int + 1, degree_fn(edges));
            lemma_list_sum_take(n, members@, j as int, link_fn(edges, s));
            lemma_list_sum_take(n, members@, j as int + 1, link_fn(edges, s));
            lemma_sigma_in(edges, n, s);
            lemma_list_sum_is_set_sum(n, members@.take(j as int + 1), link_fn(edges, s));
            lemma_members_take(members@, j as int + 1);
            lemma_set_sum_le(n, members@.take(j as int + 1).to_set(), s, link_fn(edges, s));
            graph.lemma_degree_bounds(x);
            lemma_select_members(edges, from_source(x));
            lemma_select_members(edges, into_target(x));
            lemma_weight_sum_select(edges, from_source(x), every_edge());
            lemma_weight_sum_le(edges, both(from_source(x), every_edge()), every_edge());
            lemma_weight_sum_select(edges, into_target(x), every_edge());
            lemma_weight_sum_le(edges, both(into_target(x), every_edge()), every_edge());
            lemma_weight_sum_eq(leaving@, far_within(s, true), leaving_into(x, s));
            lemma_weight_sum_eq(entering@, far_within(s, false), entering_from(x, s));
            lemma_leaving_bound(edges, x, s);
        }
        let out_inside = weight_within(leaving, true, community);
        let in_inside = weight_within(entering, false, community);
        total = total + graph.nodes[node].out_degree + graph.nodes[node].in_degree;
        inner = inner + out_inside + in_inside;
        j = j + 1;
    }
    proof {
        assert(members@.take(members.len() as int) =~= members@);
        lemma_list_sum_is_set_sum(n, members@, degree_fn(edges));
        lemma_list_sum_is_set_sum(n, members@, link_fn(edges, s));
        lemma_sigma_in(edges, n, s);
        lemma_weight_sum_le(edges, every_edge(), every_edge());
    }
    (total, inner)
}

/// A prefix of a list without repetitions has no repetitions, and its
/// entries are entries of the list.
pub proof fn lemma_members_take(list: Seq<usize>, j: int)
    requires
        0 <= j <= list.len(),
        list.no_duplicates(),
    ensures
        list.take(j).no_duplicates(),
        forall|x: usize| list.take(j).to_set().contains(x) ==> list.to_set().contains(x),
{
    assert forall|x: usize| list.take(j).to_set().contains(x) implies list.to_set().contains(x) by {
        let k = choose|k: int| 0 <= k < list.take(j).len() && list.take(j)[k] == x;
        assert(list[k] == x);
    }
}

/// Every member of every community is a node of the graph.
pub open spec fn within_graph(p: Seq<Set<usize>>, n: nat) -> bool {
    forall|c: int, x: usize| 0 <= c < p.len() && #[trigger] p[c].contains(x) ==> x < n
}

/// The modularity of `partition` on `graph` at the given resolution: the sum
/// over the communities of `sigma_in / 2m - resolution * (sigma_tot / 2m)^2`,
/// as an exact fraction.
pub fn calculate_modularity(graph: &Graph, partition: &Partition, resolution: Ratio) -> (q: Modularity)
    requires
        graph.wf(),
        pairwise_disjoint(communities(partition@)),
        within_graph(communities(partition@), graph.spec_node_count()),
    ensures
        q.numerator == modularity_numerator(
            graph@.edges,
            graph.spec_node_count(),
            resolution,
            communities(partition@),
        ),
        q.denominator == modularity_denominator(graph@.edges, resolution),
{
    let ghost edges = graph@.edges;
    let ghost n = graph.spec_node_count();
    let ghost p = communities(partition@);
    let m = graph.size();
    proof {
        lemma_product_bound(m as int, m as int, 0x3FFF_FFFF, 0x3FFF_FFFF);
        lemma_product_bound(m * m, resolution.denominator as int, 0x3FFF_FFFFint * 0x3FFF_FFFFint, 0xFFFF_FFFF);
        lemma_product_bound(m * m, resolution.numerator as int, 0x3FFF_FFFFint * 0x3FFF_FFFFint, 0xFFFF_FFFF);
        lemma_product_bound(m as int, resolution.denominator as int, 0x3FFF_FFFF, 0xFFFF_FFFF);
        lemma_product_bound(4 * m, m as int, 4 * 0x3FFF_FFFFint, 0x3FFF_FFFF);
        lemma_product_bound(
            4 * m * m,
            resolution.denominator as int,
            4 * 0x3FFF_FFFFint * 0x3FFF_FFFFint,
            0xFFFF_FFFF,
        );
        assert(4 * m * m * resolution.denominator == 4 * (m * m * resolution.denominator)) by (nonlinear_arith);
        assert(4 * m * m * resolution.numerator == 4 * (m * m * resolution.numerator)) by (nonlinear_arith);
        assert(2 * m * resolution.denominator == 2 * (m * resolution.denominator)) by (nonlinear_arith);
    }
    let weight: u128 = m as u128;
    let denominator: u128 = 4 * weight * weight * (resolution.denominator as u128);
    let scale: i128 = 2 * (m as i128) * (resolution.denominator as i128);
    let mut numerator: i128 = 0;
    let mut c: usize = 0;
    while c < partition.len()
        invariant
            graph.wf(),
            edges == graph@.edges,
            n == graph.spec_node_count(),
            p == communities(partition@),
            pairwise_disjoint(p),
            within_graph(p, n),
            m == total_weight(edges),
            m <= MAX_TOTAL_WEIGHT,
            scale == 2 * m * resolution.denominator,
            0 <= scale <= 2 * (0x3FFF_FFFFint * 0xFFFF_FFFFint),
            4 * m * m * resolution.denominator <= 4 * (0x3FFF_FFFFint * 0x3FFF_FFFFint * 0xFFFF_FFFFint),
            4 * m * m * resolution.numerator <= 4 * (0x3FFF_FFFFint * 0x3FFF_FFFFint * 0xFFFF_FFFFint),
            c <= partition.len(),
            numerator == sum_to(c as nat, modularity_terms(edges, n, resolution, p)),
        decreases partition.len() - c,
    {
        proof {
            assert(p[c as int] == partition[c as int]@);
            assert forall|x: usize| partition[c as int]@.contains(x) implies x < n by {
                assert(p[c as int].contains(x));
            }
            lemma_numerator_bounds(edges, n, resolution, p, c as nat);
            lemma_numerator_bounds(edges, n, resolution, p, (c + 1) as nat);
        }
        let sums = community_sums(graph, &partition[c]);
        proof {
            lemma_product_bound(scale as int, sums.1 as int, 2 * (0x3FFF_FFFFint * 0xFFFF_FFFFint), 0x7FFF_FFFE);
            lemma_product_bound(sums.0 as int, sums.0 as int, 0x7FFF_FFFE, 0x7FFF_FFFE);
            lemma_product_bound(
                resolution.numerator as int,
                sums.0 * sums.0,
                0xFFFF_FFFF,
                0x7FFF_FFFEint * 0x7FFF_FFFEint,
            );
        }
        let gain: i128 = scale * (sums.1 as i128);
        let square: i128 = (sums.0 as i128) * (sums.0 as i128);
        let loss: i128 = (resolution.numerator as i128) * square;
        numerator = numerator + (gain - loss);
        c = c + 1;
    }
    Modularity { numerator, denominator }
}

/// Adds the term of one more community to a running numerator.
pub open spec fn add_term(edges: Seq<Edge>, n: nat, resolution: Ratio) -> spec_fn(int, Set<usize>) -> int {
    |sum: int, s: Set<usize>| sum + modularity_term(edges, n, resolution, s)
}

/// The numerator of the modularity is the terms of the communities folded
/// together from the left.
pub proof fn lemma_numerator_is_fold(edges: Seq<Edge>, n: nat, resolution: Ratio, p: Seq<Set<usize>>)
    ensures
        modularity_numerator(edges, n, resolution, p) == p.fold_left(0int, add_term(edges, n, resolution)),
    decreases p.len(),
{
    if p.len() > 0 {
        let rest = p.drop_last();
        lemma_numerator_is_fold(edges, n, resolution, rest);
        let f = modularity_terms(edges, n, resolution, p);
        let g = modularity_terms(edges, n, resolution, rest);
        assert forall|c: int| 0 <= c < rest.len() implies #[trigger] f(c) == g(c) by {
            assert(rest[c] == p[c]);
        }
        lemma_sum_to_eq(rest.len(), f, g);
    }
}

/// The modularity does not depend on the order of the communities: two
/// partitions that hold the same communities, each as often as the other,
/// have the same numerator. The order of the nodes inside a community cannot
/// matter, since a community is a set.
pub proof fn lemma_modularity_ignores_order(
    edges: Seq<Edge>,
    n: nat,
    resolution: Ratio,
    p: Seq<Set<usize>>,
    q: Seq<Set<usize>>,
)
    requires
        p.to_multiset() == q.to_multiset(),
    ensures
        modularity_numerator(edges, n, resolution, p) == modularity_numerator(edges, n, resolution, q),
{
    lemma_numerator_is_fold(edges, n, resolution, p);
    lemma_numerator_is_fold(edges, n, resolution, q);
    lemma_fold_left_permutation(p, q, add_term(edges, n, resolution), 0int);
}

} // verus!
