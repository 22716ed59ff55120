//! Coarsening: the graph whose nodes are the communities of a partition.

use crate::graph::{
    every_edge, lemma_weight_sum_le, lemma_weight_sum_push, lemma_weight_sum_take, total_weight, weight_sum,
    Edge, Graph, NodeIndex, MAX_TOTAL_WEIGHT,
};
use crate::partition::{communities, community_members, is_partition, all_nodes, union_of, Partition};
use rustc_hash::FxHashMap;
use vstd::prelude::*;

verus! {

/// The label of the community of `p` that holds node `x`.
pub open spec fn label_of(p: Seq<Set<NodeIndex>>, x: NodeIndex) -> usize {
    choose|c: usize| c < p.len() && p[c as int].contains(x)
}

/// The edge between the communities of the two ends of `e`.
pub open spec fn lifted(e: Edge, p: Seq<Set<NodeIndex>>) -> Edge {
    Edge { source: label_of(p, e.source), target: label_of(p, e.target), weight: e.weight }
}

/// The edges from `source` to `target`.
pub open spec fn joins(source: usize, target: usize) -> spec_fn(Edge) -> bool {
    |e: Edge| e.source == source && e.target == target
}

/// Some edge of `list` goes from `source` to `target`.
pub open spec fn has_pair(list: Seq<Edge>, source: usize, target: usize) -> bool {
    exists|j: int| 0 <= j < list.len() && joins(source, target)(#[trigger] list[j])
}

/// The place of an edge of `list` that goes from `source` to `target`.
pub open spec fn pair_index(list: Seq<Edge>, source: usize, target: usize) -> int {
    choose|j: int| 0 <= j < list.len() && joins(source, target)(#[trigger] list[j])
}

/// No two edges of `list` join the same nodes in the same direction.
pub open spec fn distinct_pairs(list: Seq<Edge>) -> bool {
    forall|i: int, j: int|
        0 <= i < list.len() && 0 <= j < list.len() && i != j ==> !joins(
            (#[trigger] list[i]).source,
            list[i].target,
        )(#[trigger] list[j])
}

/// `list` with the weight of `e` added to the edge that joins the same nodes
/// in the same direction, or with `e` at its end if there is none.
pub open spec fn absorb(list: Seq<Edge>, e: Edge) -> Seq<Edge> {
    if has_pair(list, e.source, e.target) {
        let j = pair_index(list, e.source, e.target);
        list.update(j, Edge { source: e.source, target: e.target, weight: (list[j].weight + e.weight) as u64 })
    } else {
        list.push(e)
    }
}

/// The edges between the communities of `p`: one for every ordered pair of
/// communities that some edge of `edges` joins, with the summed weight of
/// these edges, in the order in which the pairs first occur.
pub open spec fn aggregate(edges: Seq<Edge>, p: Seq<Set<NodeIndex>>) -> Seq<Edge>
    decreases edges.len(),
{
    if edges.len() == 0 {
        Seq::empty()
    } else {
        absorb(aggregate(edges.drop_last(), p), lifted(edges.last(), p))
    }
}

/// The edges whose ends lie in community `source` and community `target`.
pub open spec fn lifted_joins(p: Seq<Set<NodeIndex>>, source: usize, target: usize) -> spec_fn(Edge) -> bool {
    |e: Edge| joins(source, target)(lifted(e, p))
}

/// Replacing one edge changes a weight sum by what the old edge gave and
/// what the new one gives.
pub proof fn lemma_weight_sum_update(list: Seq<Edge>, j: int, e: Edge, q: spec_fn(Edge) -> bool)
    requires
        0 <= j < list.len(),
    ensures
        weight_sum(list.update(j, e), q) == weight_sum(list, q) - (if q(list[j]) {
            list[j].weight as int
        } else {
            0
        }) + (if q(e) {
            e.weight as int
        } else {
            0
        }),
    decreases list.len(),
{
    let changed = list.update(j, e);
    if j == list.len() - 1 {
        assert(changed.drop_last() =~= list.drop_last());
    } else {
        assert(changed.drop_last() =~= list.drop_last().update(j, e));
        lemma_weight_sum_update(list.drop_last(), j, e, q);
    }
}

/// Absorbing an edge adds its weight to every sum that it belongs to, keeps
/// the pairs distinct, and keeps the other edges in their places.
pub proof fn lemma_absorb(list: Seq<Edge>, e: Edge, q: spec_fn(Edge) -> bool)
    requires
        distinct_pairs(list),
        total_weight(list) + e.weight <= u64::MAX,
        forall|a: Edge, b: Edge|
            a.source == b.source && a.target == b.target ==> #[trigger] q(a) == #[trigger] q(b),
    ensures
        weight_sum(absorb(list, e), q) == weight_sum(list, q) + if q(e) {
            e.weight as int
        } else {
            0
        },
        distinct_pairs(absorb(list, e)),
        has_pair(absorb(list, e), e.source, e.target),
        forall|s: usize, t: usize| has_pair(list, s, t) ==> has_pair(absorb(list, e), s, t),
        forall|s: usize, t: usize|
            has_pair(absorb(list, e), s, t) ==> has_pair(list, s, t) || (s == e.source && t == e.target),
{
    let result = absorb(list, e);
    if has_pair(list, e.source, e.target) {
        let j = pair_index(list, e.source, e.target);
        lemma_weight_at_most_total(list, j);
        let grown = Edge { source: e.source, target: e.target, weight: (list[j].weight + e.weight) as u64 };
        lemma_weight_sum_update(list, j, grown, q);
        assert(q(list[j]) == q(e));
        assert(q(grown) == q(e));
        assert(joins(e.source, e.target)(result[j]));
        assert forall|s: usize, t: usize| has_pair(list, s, t) implies has_pair(result, s, t) by {
            let i = pair_index(list, s, t);
            assert(joins(s, t)(result[i]));
        }
        assert forall|s: usize, t: usize| has_pair(result, s, t) implies has_pair(list, s, t) || (s == e.source
            && t == e.target) by {
            let i = pair_index(result, s, t);
            assert(joins(s, t)(list[i]));
        }
        assert forall|a: int, b: int| 0 <= a < result.len() && 0 <= b < result.len() && a != b implies !joins(
            (#[trigger] result[a]).source,
            result[a].target,
        )(#[trigger] result[b]) by {
            assert(!joins(list[a].source, list[a].target)(list[b]));
        }
    } else {
        lemma_weight_sum_push(list, e, q);
        assert(joins(e.source, e.target)(result[list.len() as int]));
        assert forall|s: usize, t: usize| has_pair(list, s, t) implies has_pair(result, s, t) by {
            let i = pair_index(list, s, t);
            assert(joins(s, t)(result[i]));
        }
        assert forall|s: usize, t: usize| has_pair(result, s, t) implies has_pair(list, s, t) || (s == e.source
            && t == e.target) by {
            let i = pair_index(result, s, t);
            if i < list.len() {
                assert(joins(s, t)(list[i]));
            }
        }
        assert forall|a: int, b: int| 0 <= a < result.len() && 0 <= b < result.len() && a != b implies !joins(
            (#[trigger] result[a]).source,
            result[a].target,
        )(#[trigger] result[b]) by {
            if a < list.len() && b < list.len() {
                assert(!joins(list[a].source, list[a].target)(list[b]));
            } else if a < list.len() {
                assert(joins(e.source, e.target)(list[a]) ==> has_pair(list, e.source, e.target));
            } else {
                assert(joins(e.source, e.target)(list[b]) ==> has_pair(list, e.source, e.target));
            }
        }
    }
}

/// No edge weighs more than all edges together.
pub proof fn lemma_weight_at_most_total(list: Seq<Edge>, j: int)
    requires
        0 <= j < list.len(),
    ensures
        list[j].weight <= total_weight(list),
{
    lemma_weight_sum_take(list, j, every_edge());
    lemma_weight_sum_take(list, j + 1, every_edge());
}

/// Aggregation keeps what the edges weigh, pair of communities by pair of
/// communities and in total, and gives every pair of communities at most
/// one edge.
pub proof fn lemma_aggregate(edges: Seq<Edge>, p: Seq<Set<NodeIndex>>)
    requires
        total_weight(edges) <= u64::MAX,
    ensures
        distinct_pairs(aggregate(edges, p)),
        total_weight(aggregate(edges, p)) == total_weight(edges),
        forall|s: usize, t: usize|
            weight_sum(aggregate(edges, p), #[trigger] joins(s, t)) == weight_sum(edges, lifted_joins(p, s, t)),
        forall|s: usize, t: usize|
            #[trigger] has_pair(aggregate(edges, p), s, t) <==> exists|k: int|
                0 <= k < edges.len() && lifted_joins(p, s, t)(#[trigger] edges[k]),
    decreases edges.len(),
{
    let result = aggregate(edges, p);
    if edges.len() == 0 {
    } else {
        let rest = edges.drop_last();
        let e = lifted(edges.last(), p);
        let before = aggregate(rest, p);
        lemma_weight_sum_le(rest, every_edge(), every_edge());
        lemma_aggregate(rest, p);
        lemma_absorb(before, e, every_edge());
        assert forall|s: usize, t: usize|
            weight_sum(result, #[trigger] joins(s, t)) == weight_sum(edges, lifted_joins(p, s, t)) by {
            lemma_absorb(before, e, joins(s, t));
        }
        assert forall|s: usize, t: usize| #[trigger] has_pair(result, s, t) <==> exists|k: int|
            0 <= k < edges.len() && lifted_joins(p, s, t)(#[trigger] edges[k]) by {
            if has_pair(result, s, t) {
                if has_pair(before, s, t) {
                    let k = choose|k: int| 0 <= k < rest.len() && lifted_joins(p, s, t)(#[trigger] rest[k]);
                    assert(lifted_joins(p, s, t)(edges[k]));
                } else {
                    assert(lifted_joins(p, s, t)(edges[edges.len() - 1]));
                }
            }
            if exists|k: int| 0 <= k < edges.len() && lifted_joins(p, s, t)(#[trigger] edges[k]) {
                let k = choose|k: int| 0 <= k < edges.len() && lifted_joins(p, s, t)(#[trigger] edges[k]);
                if k < rest.len() {
                    assert(lifted_joins(p, s, t)(rest[k]));
                    assert(has_pair(before, s, t));
                }
            }
        }
    }
}

/// The character of one decimal digit.
pub open spec fn digit(d: int) -> char {
    ((48 + d) as u8) as char
}

/// The decimal digits of `n`, without leading zeros.
pub open spec fn decimal_digits(n: nat) -> Seq<char>
    decreases n,
{
    if n < 10 {
        seq![digit(n as int)]
    } else {
        decimal_digits(n / 10).push(digit((n % 10) as int))
    }
}

/// The name of every node of a coarsened graph: its index in decimal.
pub open spec fn decimal_names(count: nat) -> Seq<Seq<char>> {
    Seq::new(count, |c: int| decimal_digits(c as nat))
}

/// Writes `index` by `ToString::to_string`, which for an unsigned integer
/// gives its decimal digits, the most significant first, with no sign and no
/// leading zero.
#[verifier::external_body]
fn decimal_text(index: usize) -> (text: String)
    ensures
        text@ == decimal_digits(index as nat),
{
    index.to_string()
}

/// Looks up where the edge from `source` to `target` stands, by
/// `HashMap::get` under the Fx hasher: the recorded place, if one was
/// recorded for this pair.
#[verifier::external_body]
fn position_of(positions: &FxHashMap<(usize, usize), usize>, source: usize, target: usize) -> (found: Option<usize>)
    ensures
        found == if positions@.contains_key((source, target)) {
            Some(positions@[(source, target)])
        } else {
            None::<usize>
        },
{
    positions.get(&(source, target)).copied()
}

/// Records where the edge from `source` to `target` stands, by
/// `HashMap::insert` under the Fx hasher: the map afterwards holds what it
/// held, and this place for this pair.
#[verifier::external_body]
fn record_position(positions: &mut FxHashMap<(usize, usize), usize>, source: usize, target: usize, position: usize)
    ensures
        final(positions)@ == old(positions)@.insert((source, target), position),
{
    positions.insert((source, target), position);
}

/// A row of `n` labels, all zero.
fn blank_labels(n: usize) -> (row: Vec<usize>)
    ensures
        row.len() == n,
{
    let mut row: Vec<usize> = Vec::new();
    while row.len() < n
        invariant
            row.len() <= n,
        decreases n - row.len(),
    {
        row.push(0);
    }
    row
}

/// The community of every node, by node.
pub fn node_labels(partition: &Partition, node_count: usize) -> (labels: Vec<usize>)
    requires
        is_partition(communities(partition@), node_count as nat),
    ensures
        labels.len() == node_count,
        forall|x: int|
            0 <= x < node_count ==> #[trigger] labels[x] == label_of(communities(partition@), x as usize),
        forall|x: int|
            0 <= x < node_count ==> #[trigger] labels[x] < partition.len() && partition[labels[x] as int]@.contains(x as usize),
{
    let ghost p = communities(partition@);
    let mut labels = blank_labels(node_count);
    let ghost mut done = Set::<usize>::empty();
    let mut c: usize = 0;
    while c < partition.len()
        invariant
            p == communities(partition@),
            is_partition(p, node_count as nat),
            labels.len() == node_count,
            c <= partition.len(),
            forall|d: int, x: usize| 0 <= d < c && #[trigger] p[d].contains(x) ==> done.contains(x),
            forall|x: usize|
                #[trigger] done.contains(x) ==> x < node_count && labels[x as int] < p.len() && p[labels[x as int] as int].contains(x),
        decreases partition.len() - c,
    {
        let members = community_members(&partition[c]);
        let mut i: usize = 0;
        proof {
            assert(p[c as int] == partition[c as int]@);
            assert forall|k: int| 0 <= k < members.len() implies #[trigger] members[k] < node_count by {
                assert(members@.to_set().contains(members[k]));
                assert(p[c as int].contains(members[k]));
                assert(union_of(p).contains(members[k]));
                assert(all_nodes(node_count as nat).contains(members[k]));
            }
        }
        while i < members.len()
            invariant
                p == communities(partition@),
                labels.len() == node_count,
                c < partition.len(),
                i <= members.len(),
                members@.to_set() == p[c as int],
                forall|k: int| 0 <= k < members.len() ==> #[trigger] members[k] < node_count,
                forall|d: int, x: usize| 0 <= d < c && #[trigger] p[d].contains(x) ==> done.contains(x),
                forall|k: int| 0 <= k < i ==> done.contains(#[trigger] members[k]),
                forall|x: usize|
                    #[trigger] done.contains(x) ==> x < node_count && labels[x as int] < p.len() && p[labels[x as int] as int].contains(x),
            decreases members.len() - i,
        {
            let x = members[i];
            labels.set(x, c);
            proof {
                assert(members@.to_set().contains(x));
                done = done.insert(x);
            }
            i = i + 1;
        }
        proof {
            assert forall|x: usize| #[trigger] p[c as int].contains(x) implies done.contains(x) by {
                assert(members@.to_set().contains(x));
                let k = choose|k: int| 0 <= k < members.len() && members[k] == x;
                assert(done.contains(members[k]));
            }
        }
        c = c + 1;
    }
    proof {
        assert forall|x: int| 0 <= x < node_count implies #[trigger] labels[x] == label_of(p, x as usize)
            && labels[x] < partition.len() && partition[labels[x] as int]@.contains(x as usize) by {
            let node = x as usize;
            assert(all_nodes(node_count as nat).contains(node));
            assert(union_of(p).contains(node));
            let d = choose|d: int| 0 <= d < p.len() && #[trigger] p[d].contains(node);
            assert(done.contains(node));
            let mine = labels[x];
            assert(p[mine as int].contains(node));
            let other = label_of(p, node);
            assert(other < p.len() && p[other as int].contains(node));
            if other != mine {
                assert(!p[other as int].contains(node));
            }
        }
    }
    labels
}

/// The coarsened graph of a partition: one node per community, named by its
/// label in decimal, and one edge for every ordered pair of communities that
/// some edge joins, with the summed weight of these edges. A pair may be a
/// community and itself.
pub fn gen_graph(graph: &Graph, partition: &Partition) -> (coarse: Graph)
    requires
        graph.wf(),
        is_partition(communities(partition@), graph.spec_node_count()),
    ensures
        coarse.wf(),
        coarse@.ids == decimal_names(partition.len() as nat),
        coarse@.edges == aggregate(graph@.edges, communities(partition@)),
        coarse.spec_size() == graph.spec_size(),
{
    let ghost p = communities(partition@);
    let ghost edges = graph@.edges;
    let count = partition.len();
    let labels = node_labels(partition, graph.node_count());
    let fine = graph.edges();
    let mut merged: Vec<Edge> = Vec::new();
    let mut positions: FxHashMap<(usize, usize), usize> = FxHashMap::default();
    let mut i: usize = 0;
    while i < fine.len()
        invariant
            graph.wf(),
            p == communities(partition@),
            edges == graph@.edges,
            fine@ == edges,
            count == partition.len(),
            labels.len() == graph.spec_node_count(),
            forall|x: int| 0 <= x < labels.len() ==> #[trigger] labels[x] == label_of(p, x as usize),
            forall|x: int| 0 <= x < labels.len() ==> #[trigger] labels[x] < count,
            i <= fine.len(),
            merged@ == aggregate(edges.take(i as int), p),
            distinct_pairs(merged@),
            total_weight(merged@) == total_weight(edges.take(i as int)),
            forall|j: int| 0 <= j < merged.len() ==> (#[trigger] merged[j]).source < count && merged[j].target < count,
            forall|s: usize, t: usize| #[trigger] positions@.contains_key((s, t)) <==> has_pair(merged@, s, t),
            forall|s: usize, t: usize|
                #[trigger] positions@.contains_key((s, t)) ==> 0 <= positions@[(s, t)] < merged.len() && joins(
                    s,
                    t,
                )(merged[positions@[(s, t)] as int]),
        decreases fine.len() - i,
    {
        let edge = fine[i];
        let source = labels[edge.source];
        let target = labels[edge.target];
        let ghost before = merged@;
        let ghost known = positions@;
        let ghost e = lifted(edge, p);
        proof {
            assert(edges.take(i as int + 1).drop_last() =~= edges.take(i as int));
            assert(edges.take(i as int + 1).last() == edge);
            assert(e == Edge { source, target, weight: edge.weight });
            lemma_weight_sum_take(edges, i as int, every_edge());
            lemma_weight_sum_take(edges, i as int + 1, every_edge());
            lemma_absorb(before, e, every_edge());
        }
        match position_of(&positions, source, target) {
            Some(j) => {
                proof {
                    assert(has_pair(before, source, target));
                    let chosen = pair_index(before, source, target);
                    if chosen != j as int {
                        assert(!joins(before[j as int].source, before[j as int].target)(before[chosen]));
                    }
                    lemma_weight_at_most_total(before, j as int);
                }
                let heavier = Edge { source, target, weight: merged[j].weight + edge.weight };
                merged.set(j, heavier);
                proof {
                    assert(merged@ == absorb(before, e));
                    assert forall|s: usize, t: usize| #[trigger]
                        positions@.contains_key((s, t)) implies 0 <= positions@[(s, t)] < merged.len() && joins(
                        s,
                        t,
                    )(merged[positions@[(s, t)] as int]) by {
                        let k = positions@[(s, t)] as int;
                        assert(joins(s, t)(before[k]));
                    }
                }
            },
            None => {
                record_position(&mut positions, source, target, merged.len());
                merged.push(edge_between(source, target, edge.weight));
                proof {
                    assert(!has_pair(before, source, target));
                    assert(merged@ == absorb(before, e));
                    assert forall|s: usize, t: usize| #[trigger]
                        positions@.contains_key((s, t)) implies 0 <= positions@[(s, t)] < merged.len() && joins(
                        s,
                        t,
                    )(merged[positions@[(s, t)] as int]) by {
                        if s == source && t == target {
                        } else {
                            assert(known.contains_key((s, t)));
                            let k = known[(s, t)] as int;
                            assert(joins(s, t)(before[k]));
                        }
                    }
                    assert forall|s: usize, t: usize| #[trigger]
                        positions@.contains_key((s, t)) <==> has_pair(merged@, s, t) by {
                        if s == source && t == target {
                        } else {
                            assert(positions@.contains_key((s, t)) <==> known.contains_key((s, t)));
                        }
                    }
                }
            },
        }
        i = i + 1;
    }
    proof {
        assert(edges.take(edges.len() as int) =~= edges);
    }
    let mut coarse = Graph::new();
    let mut c: usize = 0;
    while c < count
        invariant
            c <= count,
            coarse.wf(),
            coarse@.ids == decimal_names(c as nat),
            coarse@.edges == Seq::<Edge>::empty(),
            coarse.spec_node_count() == c,
        decreases count - c,
    {
        let name = decimal_text(c);
        coarse.add_node(c, name.as_str());
        assert(coarse@.ids =~= decimal_names((c + 1) as nat));
        c = c + 1;
    }
    let mut j: usize = 0;
    while j < merged.len()
        invariant
            j <= merged.len(),
            coarse.wf(),
            coarse.spec_node_count() == count,
            coarse@.ids == decimal_names(count as nat),
            coarse@.edges == merged@.take(j as int),
            total_weight(merged@) == total_weight(edges),
            total_weight(edges) <= MAX_TOTAL_WEIGHT,
            forall|k: int| 0 <= k < merged.len() ==> (#[trigger] merged[k]).source < count && merged[k].target < count,
        decreases merged.len() - j,
    {
        let edge = merged[j];
        proof {
            lemma_weight_sum_take(merged@, j as int, every_edge());
            lemma_weight_sum_take(merged@, j as int + 1, every_edge());
            assert(merged@.take(j as int + 1) =~= merged@.take(j as int).push(edge));
        }
        coarse.add_edge(edge.source, edge.target, edge.weight);
        j = j + 1;
    }
    proof {
        assert(merged@.take(merged.len() as int) =~= merged@);
    }
    coarse
}

/// The edge from `source` to `target` with the given weight.
fn edge_between(source: NodeIndex, target: NodeIndex, weight: u64) -> (edge: Edge)
    ensures
        edge == (Edge { source, target, weight }),
{
    Edge { source, target, weight }
}

} // verus!
