//! The quantities that modularity is made of, per community, and how they
//! change when one node joins or leaves a community.

use crate::graph::{
    both, every_edge, from_source, in_degree_fn, in_degree_of, in_edges_of, into_target, lemma_degree_sums,
    lemma_weight_sum_eq, lemma_weight_sum_le, lemma_weight_sum_none, lemma_weight_sum_select, out_degree_fn,
    out_degree_of, out_edges_of, total_weight, weight_sum, Edge,
};
use crate::partition::{grouped, has_member, inhabited, members_of, valid_labels};
use crate::ratio::Ratio;
use crate::sums::{
    lemma_set_sum_insert, lemma_set_sum_le, lemma_sum_to_bound, lemma_sum_to_eq, lemma_sum_to_point,
    lemma_sum_to_two_points, restricted, set_sum, sum_to,
};
use vstd::prelude::*;

verus! {

/// The edges with both ends in `s`.
pub open spec fn inside(s: Set<usize>) -> spec_fn(Edge) -> bool {
    |e: Edge| s.contains(e.source) && s.contains(e.target)
}

/// The edges from `node` to a member of `s`.
pub open spec fn leaving_into(node: int, s: Set<usize>) -> spec_fn(Edge) -> bool {
    |e: Edge| e.source == node && s.contains(e.target)
}

/// The edges from a member of `s` to `node`.
pub open spec fn entering_from(node: int, s: Set<usize>) -> spec_fn(Edge) -> bool {
    |e: Edge| e.target == node && s.contains(e.source)
}

/// The edges from `node` to itself.
pub open spec fn loop_at(node: int) -> spec_fn(Edge) -> bool {
    |e: Edge| e.source == node && e.target == node
}

/// Summed weight of the edges inside `s`.
pub open spec fn internal_weight(edges: Seq<Edge>, s: Set<usize>) -> int {
    weight_sum(edges, inside(s))
}

/// Summed weight of the edges between `node` and the members of `s`, in
/// either direction. A loop at `node` counts twice if `node` is a member.
pub open spec fn link_weight(edges: Seq<Edge>, node: int, s: Set<usize>) -> int {
    weight_sum(edges, leaving_into(node, s)) + weight_sum(edges, entering_from(node, s))
}

/// Summed out-degree of the members of `s`.
pub open spec fn community_out(edges: Seq<Edge>, n: nat, s: Set<usize>) -> int {
    set_sum(n, s, out_degree_fn(edges))
}

/// Summed in-degree of the members of `s`.
pub open spec fn community_in(edges: Seq<Edge>, n: nat, s: Set<usize>) -> int {
    set_sum(n, s, in_degree_fn(edges))
}

/// A node that joins a community brings its links to the members and its
/// loops inside.
pub proof fn lemma_internal_insert(edges: Seq<Edge>, s: Set<usize>, x: usize)
    requires
        !s.contains(x),
    ensures
        internal_weight(edges, s.insert(x)) == internal_weight(edges, s) + link_weight(edges, x as int, s)
            + weight_sum(edges, loop_at(x as int)),
        link_weight(edges, x as int, s.insert(x)) == link_weight(edges, x as int, s) + 2 * weight_sum(
            edges,
            loop_at(x as int),
        ),
    decreases edges.len(),
{
    if edges.len() > 0 {
        lemma_internal_insert(edges.drop_last(), s, x);
    }
}

/// The edges from a node into a set weigh no more than the edges from that
/// node, and their sum over the adjacency list is their sum over all edges.
pub proof fn lemma_leaving_bound(edges: Seq<Edge>, node: int, s: Set<usize>)
    ensures
        weight_sum(out_edges_of(edges, node), leaving_into(node, s)) == weight_sum(edges, leaving_into(node, s)),
        weight_sum(in_edges_of(edges, node), entering_from(node, s)) == weight_sum(edges, entering_from(node, s)),
        0 <= weight_sum(edges, leaving_into(node, s)) <= out_degree_of(edges, node) <= total_weight(edges),
        0 <= weight_sum(edges, entering_from(node, s)) <= in_degree_of(edges, node) <= total_weight(edges),
{
    lemma_weight_sum_select(edges, from_source(node), leaving_into(node, s));
    lemma_weight_sum_eq(edges, both(from_source(node), leaving_into(node, s)), leaving_into(node, s));
    lemma_weight_sum_select(edges, into_target(node), entering_from(node, s));
    lemma_weight_sum_eq(edges, both(into_target(node), entering_from(node, s)), entering_from(node, s));
    lemma_weight_sum_le(edges, leaving_into(node, s), from_source(node));
    lemma_weight_sum_le(edges, entering_from(node, s), into_target(node));
    lemma_weight_sum_le(edges, from_source(node), every_edge());
    lemma_weight_sum_le(edges, into_target(node), every_edge());
}

/// The degree sums of a community lie between zero and the total weight.
pub proof fn lemma_community_bounds(edges: Seq<Edge>, n: nat, s: Set<usize>)
    requires
        forall|k: int| 0 <= k < edges.len() ==> (#[trigger] edges[k]).source < n && edges[k].target < n,
    ensures
        0 <= community_out(edges, n, s) <= total_weight(edges),
        0 <= community_in(edges, n, s) <= total_weight(edges),
        0 <= internal_weight(edges, s) <= total_weight(edges),
{
    lemma_degree_sums(edges, n);
    assert forall|i: int| 0 <= i < n implies 0 <= #[trigger] out_degree_fn(edges)(i) by {
        lemma_weight_sum_le(edges, from_source(i), every_edge());
    }
    assert forall|i: int| 0 <= i < n implies 0 <= #[trigger] in_degree_fn(edges)(i) by {
        lemma_weight_sum_le(edges, into_target(i), every_edge());
    }
    lemma_set_sum_le(n, s, s, out_degree_fn(edges));
    lemma_set_sum_le(n, s, s, in_degree_fn(edges));
    lemma_weight_sum_le(edges, inside(s), every_edge());
}

/// What community `s` adds to the directed objective, scaled by the square of
/// the total weight and by the denominator of the resolution: the weight
/// inside it, less what a random graph with the same degrees would put
/// there.
pub open spec fn directed_term(edges: Seq<Edge>, n: nat, resolution: Ratio, s: Set<usize>) -> int {
    resolution.denominator * total_weight(edges) * internal_weight(edges, s) - resolution.numerator
        * (community_out(edges, n, s) * community_in(edges, n, s))
}

/// `directed_term` of every community of `p`, by label.
pub open spec fn directed_terms(edges: Seq<Edge>, n: nat, resolution: Ratio, p: Seq<Set<usize>>) -> spec_fn(
    int,
) -> int {
    |c: int| directed_term(edges, n, resolution, p[c])
}

/// The objective that local moving climbs: the sum of `directed_term` over
/// the communities.
pub open spec fn directed_objective(edges: Seq<Edge>, n: nat, resolution: Ratio, p: Seq<Set<usize>>) -> int {
    sum_to(p.len(), directed_terms(edges, n, resolution, p))
}

/// What it is worth to have `node` in community `s`, scaled like
/// `directed_term`: its links to `s`, less the expected weight between it and
/// the other members.
pub open spec fn transfer_value(edges: Seq<Edge>, n: nat, resolution: Ratio, node: int, s: Set<usize>) -> int {
    let others = s.remove(node as usize);
    resolution.denominator * total_weight(edges) * link_weight(edges, node, s) - resolution.numerator * (
    out_degree_fn(edges)(node) * community_in(edges, n, others) + in_degree_fn(edges)(node) * community_out(
        edges,
        n,
        others,
    ))
}

/// The gain of moving `node` out of community `from` and into community
/// `to`, scaled like `directed_term`.
pub open spec fn move_gain(
    edges: Seq<Edge>,
    n: nat,
    resolution: Ratio,
    node: int,
    from: Set<usize>,
    to: Set<usize>,
) -> int {
    transfer_value(edges, n, resolution, node, to) - transfer_value(edges, n, resolution, node, from)
}

/// What a community gains when a node joins it, and what the node is worth
/// in it before and after.
pub proof fn lemma_term_insert(edges: Seq<Edge>, n: nat, resolution: Ratio, s: Set<usize>, x: usize)
    requires
        x < n <= usize::MAX,
        !s.contains(x),
    ensures
        directed_term(edges, n, resolution, s.insert(x)) - directed_term(edges, n, resolution, s)
            == transfer_value(edges, n, resolution, x as int, s) + resolution.denominator * total_weight(edges)
            * weight_sum(edges, loop_at(x as int)) - resolution.numerator * (out_degree_fn(edges)(x as int)
            * in_degree_fn(edges)(x as int)),
        transfer_value(edges, n, resolution, x as int, s.insert(x)) == transfer_value(
            edges,
            n,
            resolution,
            x as int,
            s,
        ) + 2 * (resolution.denominator * total_weight(edges) * weight_sum(edges, loop_at(x as int))),
{
    lemma_internal_insert(edges, s, x);
    lemma_set_sum_insert(n, s, out_degree_fn(edges), x);
    lemma_set_sum_insert(n, s, in_degree_fn(edges), x);
    assert(s.remove(x) =~= s);
    assert(s.insert(x).remove(x) =~= s);
    let rd = resolution.denominator as int;
    let rn = resolution.numerator as int;
    let m = total_weight(edges);
    let i0 = internal_weight(edges, s);
    let i1 = internal_weight(edges, s.insert(x));
    let l0 = link_weight(edges, x as int, s);
    let l1 = link_weight(edges, x as int, s.insert(x));
    let lp = weight_sum(edges, loop_at(x as int));
    let o0 = community_out(edges, n, s);
    let n0 = community_in(edges, n, s);
    let ox = out_degree_fn(edges)(x as int);
    let ix = in_degree_fn(edges)(x as int);
    let a = rd * m;
    assert(a * i1 == a * i0 + a * l0 + a * lp) by (nonlinear_arith)
        requires
            i1 == i0 + l0 + lp,
    ;
    assert(a * l1 == a * l0 + 2 * (a * lp)) by (nonlinear_arith)
        requires
            l1 == l0 + 2 * lp,
    ;
    let grown = (o0 + ox) * (n0 + ix);
    assert(grown == o0 * n0 + (ox * n0 + ix * o0) + ox * ix) by (nonlinear_arith)
        requires
            grown == (o0 + ox) * (n0 + ix),
    ;
    assert(rn * grown == rn * (o0 * n0) + rn * (ox * n0 + ix * o0) + rn * (ox * ix)) by (nonlinear_arith)
        requires
            grown == o0 * n0 + (ox * n0 + ix * o0) + ox * ix,
    ;
}

/// Moving one node to another community changes the directed objective by
/// the gain of the move and by twice the weight of the loops at the node.
pub proof fn lemma_move_changes_objective(edges: Seq<Edge>, resolution: Ratio, labels: Seq<usize>, x: usize, c: usize)
    requires
        labels.len() <= usize::MAX,
        valid_labels(labels),
        x < labels.len(),
        c < labels.len(),
        labels[x as int] != c,
    ensures
        directed_objective(edges, labels.len(), resolution, grouped(labels.update(x as int, c)))
            == directed_objective(edges, labels.len(), resolution, grouped(labels)) + move_gain(
            edges,
            labels.len(),
            resolution,
            x as int,
            members_of(labels, labels[x as int] as int),
            members_of(labels, c as int),
        ) + 2 * (resolution.denominator * total_weight(edges) * weight_sum(edges, loop_at(x as int))),
{
    let n = labels.len();
    let c0 = labels[x as int];
    let moved = labels.update(x as int, c);
    let s0 = members_of(labels, c0 as int);
    let s1 = members_of(labels, c as int);
    let rest = s0.remove(x);
    assert(members_of(moved, c0 as int) =~= rest);
    assert(members_of(moved, c as int) =~= s1.insert(x));
    assert(rest.insert(x) =~= s0);
    let f = directed_terms(edges, n, resolution, grouped(moved));
    let g = directed_terms(edges, n, resolution, grouped(labels));
    assert forall|i: int| 0 <= i < n && i != c0 && i != c implies #[trigger] f(i) == g(i) by {
        assert(members_of(moved, i) =~= members_of(labels, i));
    }
    lemma_sum_to_two_points(n, f, g, c0 as int, c as int);
    lemma_term_insert(edges, n, resolution, s1, x);
    lemma_term_insert(edges, n, resolution, rest, x);
    assert(s1.remove(x) =~= s1);
}

/// The directed objective never exceeds the total weight squared, scaled by
/// the denominator of the resolution, once per community.
pub proof fn lemma_objective_bound(edges: Seq<Edge>, n: nat, resolution: Ratio, p: Seq<Set<usize>>)
    requires
        forall|k: int| 0 <= k < edges.len() ==> (#[trigger] edges[k]).source < n && edges[k].target < n,
    ensures
        directed_objective(edges, n, resolution, p) <= p.len() * (resolution.denominator * total_weight(edges)
            * total_weight(edges)),
{
    let rd = resolution.denominator as int;
    let rn = resolution.numerator as int;
    let m = total_weight(edges);
    let f = directed_terms(edges, n, resolution, p);
    assert forall|c: int| 0 <= c < p.len() implies #[trigger] f(c) <= rd * m * m by {
        lemma_community_bounds(edges, n, p[c]);
        let i = internal_weight(edges, p[c]);
        let o = community_out(edges, n, p[c]);
        let d = community_in(edges, n, p[c]);
        assert(rd * m * i <= rd * m * m) by (nonlinear_arith)
            requires
                0 <= i <= m,
                0 <= rd,
        ;
        assert(0 <= rn * (o * d)) by (nonlinear_arith)
            requires
                0 <= o,
                0 <= d,
                0 <= rn,
        ;
    }
    lemma_sum_to_bound(p.len(), f, rd * m * m);
}

/// A community without members adds nothing to the directed objective.
pub proof fn lemma_empty_term(edges: Seq<Edge>, n: nat, resolution: Ratio, s: Set<usize>)
    requires
        !has_member(s),
    ensures
        directed_term(edges, n, resolution, s) == 0,
        internal_weight(edges, s) == 0,
        community_out(edges, n, s) == 0,
        community_in(edges, n, s) == 0,
{
    assert forall|k: int| 0 <= k < edges.len() implies !inside(s)(#[trigger] edges[k]) by {
        assert(!s.contains(edges[k].source));
    }
    lemma_weight_sum_none(edges, inside(s));
    assert forall|i: int| 0 <= i < n implies #[trigger] restricted(s, out_degree_fn(edges))(i) == 0 by {
        assert(!s.contains(i as usize));
    }
    assert forall|i: int| 0 <= i < n implies #[trigger] restricted(s, in_degree_fn(edges))(i) == 0 by {
        assert(!s.contains(i as usize));
    }
    lemma_sum_to_point(n, restricted(s, out_degree_fn(edges)), -1);
    lemma_sum_to_point(n, restricted(s, in_degree_fn(edges)), -1);
    let a = resolution.denominator * total_weight(edges);
    let rn = resolution.numerator as int;
    let d = community_in(edges, n, s);
    assert(a * 0 - rn * (0 * d) == 0) by (nonlinear_arith);
}

/// One more community adds its own term to the directed objective.
pub proof fn lemma_objective_push(edges: Seq<Edge>, n: nat, resolution: Ratio, p: Seq<Set<usize>>, s: Set<usize>)
    ensures
        directed_objective(edges, n, resolution, p.push(s)) == directed_objective(edges, n, resolution, p)
            + directed_term(edges, n, resolution, s),
{
    let f = directed_terms(edges, n, resolution, p.push(s));
    let g = directed_terms(edges, n, resolution, p);
    assert forall|c: int| 0 <= c < p.len() implies #[trigger] f(c) == g(c) by {
        assert(p.push(s)[c] == p[c]);
    }
    lemma_sum_to_eq(p.len(), f, g);
    assert(p.push(s)[p.len() as int] == s);
}

/// Dropping the empty communities leaves the directed objective as it is.
pub proof fn lemma_objective_inhabited(edges: Seq<Edge>, n: nat, resolution: Ratio, p: Seq<Set<usize>>)
    ensures
        directed_objective(edges, n, resolution, inhabited(p)) == directed_objective(edges, n, resolution, p),
    decreases p.len(),
{
    if p.len() > 0 {
        let rest = p.drop_last();
        lemma_objective_inhabited(edges, n, resolution, rest);
        assert(rest.push(p.last()) =~= p);
        lemma_objective_push(edges, n, resolution, rest, p.last());
        if has_member(p.last()) {
            lemma_objective_push(edges, n, resolution, inhabited(rest), p.last());
        } else {
            lemma_empty_term(edges, n, resolution, p.last());
        }
    }
}

} // verus!
