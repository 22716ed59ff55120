//! Communities and partitions: sets of node indices, and ordered collections
//! of disjoint sets.

use crate::graph::NodeIndex;
use rustc_hash::FxBuildHasher;
use rustc_hash::FxHashSet;
use vstd::prelude::*;

verus! {

/// The hasher factory of `rustc_hash`, which the community sets are built
/// with. Nothing is known of its inside.
#[verifier::external_type_specification]
#[verifier::external_body]
pub struct ExFxBuildHasher(FxBuildHasher);

/// A set of node indices.
pub type Community = FxHashSet<NodeIndex>;

/// An ordered collection of communities. The position of a community is its
/// label.
pub type Partition = Vec<Community>;

/// The communities of a partition as mathematical sets, by label.
pub open spec fn communities(partition: Seq<Community>) -> Seq<Set<NodeIndex>> {
    Seq::new(partition.len(), |c: int| partition[c]@)
}

/// Adds `node` to `community` by `HashSet::insert` under the Fx hasher: the
/// set afterwards holds what it held and `node`, and the result tells whether
/// `node` is new to it.
#[verifier::external_body]
pub(crate) fn community_insert(community: &mut Community, node: NodeIndex) -> (fresh: bool)
    ensures
        final(community)@ == old(community)@.insert(node),
        fresh == !old(community)@.contains(node),
{
    community.insert(node)
}

/// Looks `node` up by `HashSet::contains` under the Fx hasher: the result
/// tells whether the set holds `node`.
#[verifier::external_body]
pub(crate) fn community_contains(community: &Community, node: NodeIndex) -> (found: bool)
    ensures
        found == community@.contains(node),
{
    community.contains(&node)
}

/// Walks the set by `HashSet::iter` and hands its members out: each member
/// once, in an order that the set does not promise.
#[verifier::external_body]
pub(crate) fn community_members(community: &Community) -> (members: Vec<NodeIndex>)
    ensures
        members@.no_duplicates(),
        members@.to_set() == community@,
{
    community.iter().copied().collect()
}

/// No node is a member of two communities.
pub open spec fn pairwise_disjoint(p: Seq<Set<NodeIndex>>) -> bool {
    forall|c: int, d: int, x: NodeIndex|
        0 <= c < p.len() && 0 <= d < p.len() && c != d && #[trigger] p[c].contains(x) ==> !#[trigger] p[d].contains(
            x,
        )
}

/// The nodes that are a member of some community.
pub open spec fn union_of(p: Seq<Set<NodeIndex>>) -> Set<NodeIndex> {
    Set::new(|x: NodeIndex| exists|c: int| 0 <= c < p.len() && #[trigger] p[c].contains(x))
}

/// The first `n` indices.
pub open spec fn all_nodes(n: nat) -> Set<NodeIndex> {
    Set::new(|x: NodeIndex| x < n)
}

/// The communities are pairwise disjoint and their union is the first `n`
/// indices.
pub open spec fn is_partition(p: Seq<Set<NodeIndex>>, n: nat) -> bool {
    &&& pairwise_disjoint(p)
    &&& union_of(p) == all_nodes(n)
}

/// The set has a member.
pub open spec fn has_member(s: Set<NodeIndex>) -> bool {
    exists|x: NodeIndex| s.contains(x)
}

/// No community is empty.
pub open spec fn all_inhabited(p: Seq<Set<NodeIndex>>) -> bool {
    forall|c: int| 0 <= c < p.len() ==> has_member(#[trigger] p[c])
}

/// The nodes that `labels` puts into community `c`.
pub open spec fn members_of(labels: Seq<usize>, c: int) -> Set<NodeIndex> {
    Set::new(|x: NodeIndex| x < labels.len() && labels[x as int] == c)
}

/// One community per label, empty ones included.
pub open spec fn grouped(labels: Seq<usize>) -> Seq<Set<NodeIndex>> {
    Seq::new(labels.len(), |c: int| members_of(labels, c))
}

/// Every node carries the label of one of the communities.
pub open spec fn valid_labels(labels: Seq<usize>) -> bool {
    forall|x: int| 0 <= x < labels.len() ==> #[trigger] labels[x] < labels.len()
}

/// The labels that put every node into a community of its own.
pub open spec fn singleton_labels(n: nat) -> Seq<usize> {
    Seq::new(n, |x: int| x as usize)
}

/// Every node in a community of its own.
pub open spec fn singletons(n: nat) -> Seq<Set<NodeIndex>> {
    grouped(singleton_labels(n))
}

/// The communities of `p` that have a member, in their order.
pub open spec fn inhabited(p: Seq<Set<NodeIndex>>) -> Seq<Set<NodeIndex>>
    decreases p.len(),
{
    if p.len() == 0 {
        Seq::empty()
    } else if has_member(p.last()) {
        inhabited(p.drop_last()).push(p.last())
    } else {
        inhabited(p.drop_last())
    }
}

/// Grouping nodes by label gives a partition of the nodes.
pub proof fn lemma_grouped_is_partition(labels: Seq<usize>)
    requires
        valid_labels(labels),
    ensures
        is_partition(grouped(labels), labels.len()),
{
    let p = grouped(labels);
    assert forall|x: NodeIndex| union_of(p).contains(x) <==> all_nodes(labels.len()).contains(x) by {
        if x < labels.len() {
            let c = labels[x as int] as int;
            assert(p[c].contains(x));
        }
    }
    assert(union_of(p) =~= all_nodes(labels.len()));
}

/// Dropping the empty communities of a partition leaves a partition of the
/// same nodes, with no more communities than before, none of them empty.
pub proof fn lemma_inhabited_is_partition(p: Seq<Set<NodeIndex>>)
    ensures
        inhabited(p).len() <= p.len(),
        all_inhabited(inhabited(p)),
        union_of(inhabited(p)) == union_of(p),
        pairwise_disjoint(p) ==> pairwise_disjoint(inhabited(p)),
        forall|j: int|
            0 <= j < inhabited(p).len() ==> exists|c: int| 0 <= c < p.len() && p[c] == #[trigger] inhabited(p)[j],
    decreases p.len(),
{
    let q = inhabited(p);
    if p.len() == 0 {
        assert(union_of(q) =~= union_of(p));
    } else {
        let rest = p.drop_last();
        let r = inhabited(rest);
        lemma_inhabited_is_partition(rest);
        assert forall|j: int| 0 <= j < q.len() implies exists|c: int|
            0 <= c < p.len() && p[c] == #[trigger] q[j] by {
            if j < r.len() {
                let c = choose|c: int| 0 <= c < rest.len() && rest[c] == r[j];
                assert(p[c] == q[j]);
            } else {
                assert(p[p.len() - 1] == q[j]);
            }
        }
        assert forall|x: NodeIndex| union_of(q).contains(x) <==> union_of(p).contains(x) by {
            if union_of(q).contains(x) {
                let j = choose|j: int| 0 <= j < q.len() && #[trigger] q[j].contains(x);
                let c = choose|c: int| 0 <= c < p.len() && p[c] == q[j];
                assert(p[c].contains(x));
            }
            if union_of(p).contains(x) {
                let c = choose|c: int| 0 <= c < p.len() && #[trigger] p[c].contains(x);
                if c < rest.len() {
                    assert(rest[c].contains(x));
                    assert(union_of(rest).contains(x));
                    let j = choose|j: int| 0 <= j < r.len() && #[trigger] r[j].contains(x);
                    assert(q[j].contains(x));
                } else {
                    assert(q[q.len() - 1].contains(x));
                }
            }
        }
        assert(union_of(q) =~= union_of(p));
        assert forall|c: int| 0 <= c < q.len() implies has_member(#[trigger] q[c]) by {
            if c < r.len() {
                assert(q[c] == r[c]);
            }
        }
        if pairwise_disjoint(p) {
            assert(pairwise_disjoint(rest)) by {
                assert forall|c: int, d: int, x: NodeIndex|
                    0 <= c < rest.len() && 0 <= d < rest.len() && c != d && #[trigger] rest[c].contains(
                        x,
                    ) implies !#[trigger] rest[d].contains(x) by {
                    assert(p[c].contains(x));
                    assert(!p[d].contains(x));
                }
            }
            assert forall|c: int, d: int, x: NodeIndex|
                0 <= c < q.len() && 0 <= d < q.len() && c != d && #[trigger] q[c].contains(x) implies !#[trigger] q[d].contains(
                x,
            ) by {
                if c < r.len() && d < r.len() {
                    assert(r[c].contains(x));
                    assert(!r[d].contains(x));
                } else if c < r.len() {
                    let cc = choose|cc: int| 0 <= cc < rest.len() && rest[cc] == r[c];
                    assert(p[cc].contains(x));
                    assert(!p[p.len() - 1].contains(x));
                } else {
                    let dd = choose|dd: int| 0 <= dd < rest.len() && rest[dd] == r[d];
                    assert(p[p.len() - 1].contains(x));
                    assert(!p[dd].contains(x));
                }
            }
        }
    }
}

/// The members that `labels` gives community `c` among the first `upto`
/// nodes.
pub open spec fn members_below(labels: Seq<usize>, c: int, upto: int) -> Set<NodeIndex> {
    Set::new(|x: NodeIndex| x < upto && x < labels.len() && labels[x as int] == c)
}

/// Groups the nodes by their label, and drops the labels that no node
/// carries. The communities come in the order of their labels.
pub fn communities_from_labels(labels: &Vec<usize>) -> (partition: Partition)
    requires
        valid_labels(labels@),
    ensures
        communities(partition@) == inhabited(grouped(labels@)),
{
    let n = labels.len();
    let mut sets: Vec<Community> = Vec::new();
    while sets.len() < n
        invariant
            n == labels.len(),
            sets.len() <= n,
            forall|c: int| 0 <= c < sets.len() ==> (#[trigger] sets[c])@ == Set::<NodeIndex>::empty(),
        decreases n - sets.len(),
    {
        sets.push(Community::default());
    }
    let mut x: usize = 0;
    while x < n
        invariant
            n == labels.len(),
            valid_labels(labels@),
            sets.len() == n,
            x <= n,
            forall|c: int| 0 <= c < n ==> (#[trigger] sets[c])@ == members_below(labels@, c, x as int),
        decreases n - x,
    {
        let c = labels[x];
        let ghost before = sets@;
        community_insert(&mut sets[c], x);
        assert forall|d: int| 0 <= d < n implies (#[trigger] sets[d])@ == members_below(
            labels@,
            d,
            x as int + 1,
        ) by {
            if d == c {
                assert(sets[d]@ =~= members_below(labels@, d, x as int + 1));
            } else {
                assert(sets[d] == before[d]);
                assert(members_below(labels@, d, x as int) =~= members_below(labels@, d, x as int + 1));
            }
        }
        x = x + 1;
    }
    assert(communities(sets@) =~= grouped(labels@)) by {
        assert forall|c: int| 0 <= c < n implies communities(sets@)[c] == grouped(labels@)[c] by {
            assert(members_below(labels@, c, n as int) =~= members_of(labels@, c));
        }
    }
    keep_inhabited(sets)
}

/// Drops the empty communities, and keeps the others in their order.
pub fn keep_inhabited(sets: Partition) -> (partition: Partition)
    ensures
        communities(partition@) == inhabited(communities(sets@)),
{
    let ghost all = communities(sets@);
    let mut partition: Partition = Vec::new();
    for set in it: sets.into_iter()
        invariant
            all.len() == it.seq().len(),
            forall|c: int| 0 <= c < all.len() ==> all[c] == (#[trigger] it.seq()[c])@,
            communities(partition@) == inhabited(all.take(it.index() as int)),
    {
        let ghost k = it.index() as int;
        let ghost kept = communities(partition@);
        assert(all.take(k + 1).drop_last() =~= all.take(k));
        assert(all.take(k + 1).last() == set@);
        if !set.is_empty() {
            assert(has_member(set@)) by {
                if !has_member(set@) {
                    assert(set@ =~= Set::<NodeIndex>::empty());
                }
            }
            partition.push(set);
            assert(communities(partition@) =~= kept.push(set@));
        }
    }
    assert(all.take(all.len() as int) =~= all);
    partition
}

/// One row per member of every community: the node and the label of its
/// community. The rows come community by community, in the order of the
/// labels; inside a community their order is not fixed.
pub fn membership_rows(partition: &Partition) -> (rows: Vec<(NodeIndex, usize)>)
    ensures
        rows@.no_duplicates(),
        forall|k: int|
            0 <= k < rows.len() ==> (#[trigger] rows[k]).1 < partition.len() && partition[rows[k].1 as int]@.contains(
                rows[k].0,
            ),
        forall|i: int, j: int| 0 <= i <= j < rows.len() ==> (#[trigger] rows[i]).1 <= (#[trigger] rows[j]).1,
        forall|c: int, x: NodeIndex|
            0 <= c < partition.len() && #[trigger] partition[c]@.contains(x) ==> rows@.contains((x, c as usize)),
{
    let mut rows: Vec<(NodeIndex, usize)> = Vec::new();
    let mut c: usize = 0;
    while c < partition.len()
        invariant
            c <= partition.len(),
            rows@.no_duplicates(),
            forall|k: int|
                0 <= k < rows.len() ==> (#[trigger] rows[k]).1 < c && partition[rows[k].1 as int]@.contains(
                    rows[k].0,
                ),
            forall|i: int, j: int| 0 <= i <= j < rows.len() ==> (#[trigger] rows[i]).1 <= (#[trigger] rows[j]).1,
            forall|d: int, x: NodeIndex|
                0 <= d < c && #[trigger] partition[d]@.contains(x) ==> rows@.contains((x, d as usize)),
        decreases partition.len() - c,
    {
        let members = community_members(&partition[c]);
        let mut i: usize = 0;
        while i < members.len()
            invariant
                c < partition.len(),
                i <= members.len(),
                members@.no_duplicates(),
                members@.to_set() == partition[c as int]@,
                rows@.no_duplicates(),
                forall|k: int|
                    0 <= k < rows.len() ==> (#[trigger] rows[k]).1 <= c && partition[rows[k].1 as int]@.contains(
                        rows[k].0,
                    ),
                forall|k: int|
                    0 <= k < rows.len() && (#[trigger] rows[k]).1 == c ==> exists|t: int|
                        0 <= t < i && members[t] == rows[k].0,
                forall|a: int, b: int| 0 <= a <= b < rows.len() ==> (#[trigger] rows[a]).1 <= (#[trigger] rows[b]).1,
                forall|d: int, x: NodeIndex|
                    0 <= d < c && #[trigger] partition[d]@.contains(x) ==> rows@.contains((x, d as usize)),
                forall|t: int| 0 <= t < i ==> rows@.contains((#[trigger] members[t], c)),
            decreases members.len() - i,
        {
            let node = members[i];
            let ghost before = rows@;
            proof {
                assert(members@.to_set().contains(node));
                assert forall|k: int| 0 <= k < before.len() implies #[trigger] before[k] != (node, c) by {
                    if before[k] == (node, c) {
                        let t = choose|t: int| 0 <= t < i && members[t] == before[k].0;
                        assert(members[t] == members[i as int]);
                    }
                }
            }
            rows.push((node, c));
            proof {
                assert forall|d: int, x: NodeIndex| 0 <= d < c && #[trigger] partition[d]@.contains(x) implies rows@.contains(
                    (x, d as usize),
                ) by {
                    let k = choose|k: int| 0 <= k < before.len() && before[k] == (x, d as usize);
                    assert(rows@[k] == (x, d as usize));
                }
                assert forall|t: int| 0 <= t < i + 1 implies rows@.contains((#[trigger] members[t], c)) by {
                    if t < i {
                        let k = choose|k: int| 0 <= k < before.len() && before[k] == (members[t], c);
                        assert(rows@[k] == (members[t], c));
                    } else {
                        assert(rows@[before.len() as int] == (node, c));
                    }
                }
                assert forall|k: int| 0 <= k < rows.len() && (#[trigger] rows[k]).1 == c implies exists|t: int|
                    0 <= t < i + 1 && members[t] == rows[k].0 by {
                    if k < before.len() {
                        let t = choose|t: int| 0 <= t < i && members[t] == before[k].0;
                        assert(members[t] == rows[k].0);
                    } else {
                        assert(members[i as int] == rows[k].0);
                    }
                }
            }
            i = i + 1;
        }
        proof {
            assert forall|x: NodeIndex| #[trigger] partition[c as int]@.contains(x) implies rows@.contains((x, c)) by {
                assert(members@.to_set().contains(x));
                let t = choose|t: int| 0 <= t < members.len() && members[t] == x;
                assert(rows@.contains((members[t], c)));
            }
        }
        c = c + 1;
    }
    rows
}

} // verus!
