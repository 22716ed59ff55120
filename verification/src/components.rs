//! Communities never reach across a gap: where the nodes fall into parts
//! with no edge between two parts, every community lies within one part.

use crate::aggregate::{aggregate, has_pair, joins, label_of, lemma_aggregate, lifted_joins};
use crate::graph::{total_weight, Edge};
use crate::local_move::{adjacent, best_move, greedy_path, greedy_step, local_outcome};
use crate::louvain::{ascent, gains, refines};
use crate::merge::{lemma_merge_inhabited, lemma_merge_keeps_nodes, merged};
use crate::objective::{entering_from, leaving_into};
use crate::partition::{
    all_inhabited, all_nodes, grouped, inhabited, is_partition, lemma_inhabited_is_partition, members_of,
    singleton_labels, union_of,
};
use crate::ratio::Ratio;
use vstd::prelude::*;

verus! {

/// `part` gives every node a part, and no edge joins two parts.
pub open spec fn separates(edges: Seq<Edge>, part: spec_fn(usize) -> int) -> bool {
    forall|k: int| 0 <= k < edges.len() ==> part((#[trigger] edges[k]).source) == part(edges[k].target)
}

/// Every community lies within one part.
pub open spec fn within_parts(p: Seq<Set<usize>>, part: spec_fn(usize) -> int) -> bool {
    forall|c: int, x: usize, y: usize|
        0 <= c < p.len() && #[trigger] p[c].contains(x) && #[trigger] p[c].contains(y) ==> part(x) == part(y)
}

/// Nodes with the same label lie in the same part.
pub open spec fn labels_within_parts(labels: Seq<usize>, part: spec_fn(usize) -> int) -> bool {
    forall|x: int, y: int|
        0 <= x < labels.len() && 0 <= y < labels.len() && #[trigger] labels[x] == #[trigger] labels[y] ==> part(
            x as usize,
        ) == part(y as usize)
}

/// A best move takes a node to a community in its own part.
pub proof fn lemma_step_within_parts(
    edges: Seq<Edge>,
    n: nat,
    resolution: Ratio,
    before: Seq<usize>,
    after: Seq<usize>,
    part: spec_fn(usize) -> int,
)
    requires
        n <= usize::MAX,
        before.len() == n,
        separates(edges, part),
        labels_within_parts(before, part),
        greedy_step(edges, n, resolution, before, after),
    ensures
        after.len() == n,
        labels_within_parts(after, part),
{
    let node = choose|node: int|
        0 <= node < n && #[trigger] best_move(edges, n, resolution, before, node, after[node] as int) && after
            == before.update(node, after[node]);
    let c = after[node] as int;
    let target = members_of(before, c);
    assert(adjacent(edges, node, target));
    let k = choose|k: int|
        0 <= k < edges.len() && (leaving_into(node, target)(#[trigger] edges[k]) || entering_from(node, target)(
            edges[k],
        ));
    let friend: usize = if leaving_into(node, target)(edges[k]) {
        edges[k].target
    } else {
        edges[k].source
    };
    assert(target.contains(friend));
    assert(before[friend as int] == c);
    assert(part(node as usize) == part(friend));
    assert forall|x: int, y: int|
        0 <= x < after.len() && 0 <= y < after.len() && #[trigger] after[x] == #[trigger] after[y] implies part(
        x as usize,
    ) == part(y as usize) by {
        if x == node && y != node {
            assert(before[y] == before[friend as int]);
        } else if y == node && x != node {
            assert(before[x] == before[friend as int]);
        } else if x != node && y != node {
            assert(before[x] == before[y]);
        }
    }
}

/// Best moves from single nodes never put nodes of two parts into one
/// community.
pub proof fn lemma_path_within_parts(
    edges: Seq<Edge>,
    n: nat,
    resolution: Ratio,
    path: Seq<Seq<usize>>,
    part: spec_fn(usize) -> int,
)
    requires
        n <= usize::MAX,
        separates(edges, part),
        greedy_path(edges, n, resolution, path),
    ensures
        path.last().len() == n,
        labels_within_parts(path.last(), part),
    decreases path.len(),
{
    if path.len() == 1 {
        assert(path.last() == singleton_labels(n));
    } else {
        let shorter = path.drop_last();
        assert(greedy_path(edges, n, resolution, shorter)) by {
            assert(shorter[0] == path[0]);
            assert forall|i: int| 0 <= i < shorter.len() - 1 implies greedy_step(
                edges,
                n,
                resolution,
                #[trigger] shorter[i],
                shorter[i + 1],
            ) by {
                assert(greedy_step(edges, n, resolution, path[i], path[i + 1]));
            }
        }
        lemma_path_within_parts(edges, n, resolution, shorter, part);
        let last = path.len() - 2;
        assert(greedy_step(edges, n, resolution, path[last], path[last + 1]));
        assert(shorter.last() == path[last]);
        lemma_step_within_parts(edges, n, resolution, path[last], path[last + 1], part);
    }
}

/// Local moving never puts nodes of two parts into one community.
pub proof fn lemma_outcome_within_parts(
    edges: Seq<Edge>,
    n: nat,
    resolution: Ratio,
    p: Seq<Set<usize>>,
    part: spec_fn(usize) -> int,
)
    requires
        n <= usize::MAX,
        separates(edges, part),
        local_outcome(edges, n, resolution, p),
    ensures
        within_parts(p, part),
{
    let path = choose|path: Seq<Seq<usize>>|
        greedy_path(edges, n, resolution, path) && p == inhabited(grouped(#[trigger] path.last()));
    lemma_path_within_parts(edges, n, resolution, path, part);
    let labels = path.last();
    lemma_inhabited_is_partition(grouped(labels));
    assert forall|c: int, x: usize, y: usize|
        0 <= c < p.len() && #[trigger] p[c].contains(x) && #[trigger] p[c].contains(y) implies part(x) == part(
        y,
    ) by {
        let d = choose|d: int| 0 <= d < grouped(labels).len() && grouped(labels)[d] == p[c];
        assert(members_of(labels, d).contains(x));
        assert(members_of(labels, d).contains(y));
        assert(labels[x as int] == labels[y as int]);
    }
}

/// The part of a community: the part of one of its members.
pub open spec fn part_of_community(p: Seq<Set<usize>>, part: spec_fn(usize) -> int) -> spec_fn(usize) -> int {
    |c: usize| part(choose|x: usize| p[c as int].contains(x))
}

/// A round of coarsening never merges communities of two parts.
pub proof fn lemma_refines_within_parts(
    edges: Seq<Edge>,
    n: nat,
    resolution: Ratio,
    p: Seq<Set<usize>>,
    q: Seq<Set<usize>>,
    part: spec_fn(usize) -> int,
)
    requires
        n <= usize::MAX,
        total_weight(edges) <= u64::MAX,
        forall|k: int| 0 <= k < edges.len() ==> (#[trigger] edges[k]).source < n && edges[k].target < n,
        separates(edges, part),
        is_partition(p, n),
        all_inhabited(p),
        p.len() <= n,
        within_parts(p, part),
        refines(edges, resolution, p, q),
    ensures
        is_partition(q, n),
        all_inhabited(q),
        q.len() <= n,
        within_parts(q, part),
{
    let groups = choose|groups: Seq<Set<usize>>| #[trigger]
        local_outcome(aggregate(edges, p), p.len(), resolution, groups) && q == merged(p, groups);
    assert(q.len() == groups.len());
    let coarse = aggregate(edges, p);
    let coarse_part = part_of_community(p, part);
    assert forall|c: int, j: usize| 0 <= c < groups.len() && #[trigger] groups[c].contains(j) implies j
        < p.len() by {
        assert(union_of(groups).contains(j));
        assert(all_nodes(p.len()).contains(j));
    }
    lemma_merge_keeps_nodes(p, groups);
    lemma_merge_inhabited(p, groups);
    assert forall|c: int, x: usize| 0 <= c < p.len() && #[trigger] p[c].contains(x) implies part(x)
        == coarse_part(c as usize) by {
        let chosen = choose|y: usize| p[c].contains(y);
        assert(p[c].contains(chosen));
    }
    lemma_aggregate(edges, p);
    assert(separates(coarse, coarse_part)) by {
        assert forall|k: int| 0 <= k < coarse.len() implies coarse_part((#[trigger] coarse[k]).source)
            == coarse_part(coarse[k].target) by {
            let s = coarse[k].source;
            let t = coarse[k].target;
            assert(joins(s, t)(coarse[k]));
            assert(has_pair(coarse, s, t));
            let at = choose|at: int| 0 <= at < edges.len() && lifted_joins(p, s, t)(#[trigger] edges[at]);
            let e = edges[at];
            assert(all_nodes(n).contains(e.source) && all_nodes(n).contains(e.target));
            assert(union_of(p).contains(e.source) && union_of(p).contains(e.target));
            let cs = choose|c: int| 0 <= c < p.len() && #[trigger] p[c].contains(e.source);
            let ct = choose|c: int| 0 <= c < p.len() && #[trigger] p[c].contains(e.target);
            assert((cs as usize) < p.len() && p[cs as usize as int].contains(e.source));
            assert((ct as usize) < p.len() && p[ct as usize as int].contains(e.target));
            assert(p[label_of(p, e.source) as int].contains(e.source));
            assert(p[label_of(p, e.target) as int].contains(e.target));
            assert(part(e.source) == coarse_part(s));
            assert(part(e.target) == coarse_part(t));
        }
    }
    lemma_outcome_within_parts(coarse, p.len(), resolution, groups, coarse_part);
    assert forall|c: int, x: usize, y: usize|
        0 <= c < q.len() && #[trigger] q[c].contains(x) && #[trigger] q[c].contains(y) implies part(x) == part(
        y,
    ) by {
        let j = choose|j: int| 0 <= j < p.len() && groups[c].contains(j as usize) && #[trigger] p[j].contains(x);
        let k = choose|k: int| 0 <= k < p.len() && groups[c].contains(k as usize) && #[trigger] p[k].contains(y);
        assert(coarse_part(j as usize) == coarse_part(k as usize));
        assert(part(x) == coarse_part(j as usize));
        assert(part(y) == coarse_part(k as usize));
    }
}

/// Parts that no edge joins are never merged: whatever the search goes
/// through, each of its partitions keeps every community within one part.
pub proof fn lemma_ascent_within_parts(
    edges: Seq<Edge>,
    n: nat,
    resolution: Ratio,
    threshold: Ratio,
    chain: Seq<Seq<Set<usize>>>,
    part: spec_fn(usize) -> int,
)
    requires
        n <= usize::MAX,
        total_weight(edges) <= u64::MAX,
        forall|k: int| 0 <= k < edges.len() ==> (#[trigger] edges[k]).source < n && edges[k].target < n,
        separates(edges, part),
        ascent(edges, n, resolution, threshold, chain),
    ensures
        is_partition(chain.last(), n),
        all_inhabited(chain.last()),
        chain.last().len() <= n,
        within_parts(chain.last(), part),
    decreases chain.len(),
{
    if chain.len() == 1 {
        lemma_outcome_within_parts(edges, n, resolution, chain[0], part);
    } else {
        let shorter = chain.drop_last();
        assert(ascent(edges, n, resolution, threshold, shorter)) by {
            assert(shorter[0] == chain[0]);
            assert forall|i: int| 0 <= i < shorter.len() - 1 implies refines(
                edges,
                resolution,
                #[trigger] shorter[i],
                shorter[i + 1],
            ) && gains(edges, n, resolution, threshold, shorter[i], shorter[i + 1]) by {
                assert(refines(edges, resolution, chain[i], chain[i + 1]));
            }
        }
        lemma_ascent_within_parts(edges, n, resolution, threshold, shorter, part);
        let last = chain.len() - 2;
        assert(refines(edges, resolution, chain[last], chain[last + 1]));
        assert(shorter.last() == chain[last]);
        lemma_refines_within_parts(edges, n, resolution, chain[last], chain[last + 1], part);
    }
}

} // verus!
