//! Lifting a partition of communities back to a partition of nodes.

use crate::graph::NodeIndex;
use crate::partition::{
    all_inhabited, all_nodes, communities, community_insert, community_members, has_member, is_partition,
    pairwise_disjoint, union_of, Community, Partition,
};
use vstd::prelude::*;

verus! {

/// The nodes of the communities of `old` whose label is a member of
/// `chosen`.
pub open spec fn merged_community(old: Seq<Set<NodeIndex>>, chosen: Set<usize>) -> Set<NodeIndex> {
    Set::new(
        |x: NodeIndex| exists|j: int| 0 <= j < old.len() && chosen.contains(j as usize) && #[trigger] old[j].contains(x),
    )
}

/// For every community of `new`, the union of the communities of `old` that
/// it names.
pub open spec fn merged(old: Seq<Set<NodeIndex>>, new: Seq<Set<usize>>) -> Seq<Set<NodeIndex>> {
    Seq::new(new.len(), |c: int| merged_community(old, new[c]))
}

/// The nodes of the communities of `old` that the first `upto` entries of
/// `chosen` name.
pub open spec fn merged_below(old: Seq<Set<NodeIndex>>, chosen: Seq<usize>, upto: int) -> Set<NodeIndex> {
    Set::new(
        |x: NodeIndex| exists|i: int| 0 <= i < upto && i < chosen.len() && chosen[i] < old.len() && #[trigger] old[chosen[i] as int].contains(x),
    )
}

/// Merges communities of nodes as a partition of their labels says: each
/// community of `new_partition` is a set of labels of `old_partition`, and
/// becomes the union of the communities that carry these labels.
pub fn merge_partition(old_partition: &Partition, new_partition: &Partition) -> (partition: Partition)
    requires
        forall|c: int, j: usize|
            0 <= c < new_partition.len() && #[trigger] new_partition[c]@.contains(j) ==> j < old_partition.len(),
    ensures
        communities(partition@) == merged(communities(old_partition@), communities(new_partition@)),
{
    let ghost old = communities(old_partition@);
    let ghost new = communities(new_partition@);
    let mut partition: Partition = Vec::new();
    let mut c: usize = 0;
    while c < new_partition.len()
        invariant
            old == communities(old_partition@),
            new == communities(new_partition@),
            forall|d: int, j: usize|
                0 <= d < new_partition.len() && #[trigger] new_partition[d]@.contains(j) ==> j < old_partition.len(),
            c <= new_partition.len(),
            partition.len() == c,
            forall|d: int| 0 <= d < c ==> (#[trigger] partition[d])@ == merged_community(old, new[d]),
        decreases new_partition.len() - c,
    {
        let chosen = community_members(&new_partition[c]);
        let mut union = Community::default();
        let mut i: usize = 0;
        proof {
            assert forall|k: int| 0 <= k < chosen.len() implies #[trigger] chosen[k] < old_partition.len() by {
                assert(chosen@.to_set().contains(chosen[k]));
                assert(new_partition[c as int]@.contains(chosen[k]));
            }
            assert(union@ =~= merged_below(old, chosen@, 0));
        }
        while i < chosen.len()
            invariant
                old == communities(old_partition@),
                chosen@.to_set() == new_partition[c as int]@,
                forall|k: int| 0 <= k < chosen.len() ==> #[trigger] chosen[k] < old_partition.len(),
                i <= chosen.len(),
                union@ == merged_below(old, chosen@, i as int),
            decreases chosen.len() - i,
        {
            let label = chosen[i];
            let nodes = community_members(&old_partition[label]);
            let ghost so_far = union@;
            let mut k: usize = 0;
            while k < nodes.len()
                invariant
                    k <= nodes.len(),
                    union@ == so_far.union(nodes@.take(k as int).to_set()),
                decreases nodes.len() - k,
            {
                let ghost before = union@;
                community_insert(&mut union, nodes[k]);
                assert(union@ =~= so_far.union(nodes@.take(k as int + 1).to_set())) by {
                    let shorter = nodes@.take(k as int);
                    let longer = nodes@.take(k as int + 1);
                    assert(longer[k as int] == nodes[k as int]);
                    assert forall|x: usize| longer.to_set().contains(x) <==> shorter.to_set().contains(x) || x
                        == nodes[k as int] by {
                        if longer.to_set().contains(x) {
                            let t = choose|t: int| 0 <= t < longer.len() && longer[t] == x;
                            if t < k {
                                assert(shorter[t] == x);
                            }
                        }
                        if shorter.to_set().contains(x) {
                            let t = choose|t: int| 0 <= t < shorter.len() && shorter[t] == x;
                            assert(longer[t] == x);
                        }
                    }
                }
                k = k + 1;
            }
            assert(union@ =~= merged_below(old, chosen@, i as int + 1)) by {
                assert(nodes@.take(nodes.len() as int) =~= nodes@);
                assert(old[label as int] == old_partition[label as int]@);
                assert forall|x: usize| union@.contains(x) <==> merged_below(old, chosen@, i as int + 1).contains(
                    x,
                ) by {
                    if merged_below(old, chosen@, i as int + 1).contains(x) {
                        let t = choose|t: int|
                            0 <= t < i + 1 && t < chosen.len() && chosen[t] < old.len() && #[trigger] old[chosen[t] as int].contains(
                                x,
                            );
                        if t < i {
                            assert(so_far.contains(x));
                        }
                    }
                    if so_far.contains(x) {
                        let t = choose|t: int|
                            0 <= t < i && t < chosen.len() && chosen[t] < old.len() && #[trigger] old[chosen[t] as int].contains(
                                x,
                            );
                        assert(old[chosen[t] as int].contains(x));
                    }
                    if nodes@.to_set().contains(x) {
                        assert(old[chosen[i as int] as int].contains(x));
                    }
                }
            }
            i = i + 1;
        }
        assert(union@ =~= merged_community(old, new[c as int])) by {
            assert(new[c as int] == new_partition[c as int]@);
            assert forall|x: usize| union@.contains(x) <==> merged_community(old, new[c as int]).contains(x) by {
                if union@.contains(x) {
                    let t = choose|t: int|
                        0 <= t < chosen.len() && t < chosen.len() && chosen[t] < old.len() && #[trigger] old[chosen[t] as int].contains(
                            x,
                        );
                    assert(chosen@.to_set().contains(chosen[t]));
                    assert(old[chosen[t] as int].contains(x));
                }
                if merged_community(old, new[c as int]).contains(x) {
                    let j = choose|j: int|
                        0 <= j < old.len() && new[c as int].contains(j as usize) && #[trigger] old[j].contains(x);
                    assert(chosen@.to_set().contains(j as usize));
                    let t = choose|t: int| 0 <= t < chosen.len() && chosen[t] == j as usize;
                    assert(old[chosen[t] as int].contains(x));
                }
            }
        }
        partition.push(union);
        c = c + 1;
    }
    assert(communities(partition@) =~= merged(old, new));
    partition
}

/// Merging along a partition of the labels neither loses nor gains a node,
/// and keeps disjoint communities disjoint: if `new` is a partition of the
/// labels of `old`, the merged communities cover exactly the nodes that
/// `old` covers, and where `old` is a partition of the nodes, so is the
/// result.
pub proof fn lemma_merge_keeps_nodes(old: Seq<Set<NodeIndex>>, new: Seq<Set<usize>>)
    requires
        is_partition(new, old.len()),
    ensures
        union_of(merged(old, new)) == union_of(old),
        pairwise_disjoint(old) ==> pairwise_disjoint(merged(old, new)),
        forall|n: nat| is_partition(old, n) ==> #[trigger] is_partition(merged(old, new), n),
{
    let result = merged(old, new);
    assert forall|x: NodeIndex| union_of(result).contains(x) <==> union_of(old).contains(x) by {
        if union_of(result).contains(x) {
            let c = choose|c: int| 0 <= c < result.len() && #[trigger] result[c].contains(x);
            let j = choose|j: int| 0 <= j < old.len() && new[c].contains(j as usize) && #[trigger] old[j].contains(x);
            assert(old[j].contains(x));
        }
        if union_of(old).contains(x) {
            let j = choose|j: int| 0 <= j < old.len() && #[trigger] old[j].contains(x);
            assert(all_nodes(old.len()).contains(j as usize));
            assert(union_of(new).contains(j as usize));
            let c = choose|c: int| 0 <= c < new.len() && #[trigger] new[c].contains(j as usize);
            assert(result[c].contains(x));
        }
    }
    assert(union_of(result) =~= union_of(old));
    if pairwise_disjoint(old) {
        assert forall|c: int, d: int, x: NodeIndex|
            0 <= c < result.len() && 0 <= d < result.len() && c != d && #[trigger] result[c].contains(x) implies !#[trigger] result[d].contains(
            x,
        ) by {
            if result[d].contains(x) {
                let j = choose|j: int|
                    0 <= j < old.len() && new[c].contains(j as usize) && #[trigger] old[j].contains(x);
                let k = choose|k: int|
                    0 <= k < old.len() && new[d].contains(k as usize) && #[trigger] old[k].contains(x);
                if j == k {
                    assert(new[c].contains(j as usize));
                    assert(!new[d].contains(j as usize));
                } else {
                    assert(old[j].contains(x));
                    assert(!old[k].contains(x));
                }
            }
        }
    }
}

/// Merging communities that have members along communities of labels that
/// have members leaves no community empty.
pub proof fn lemma_merge_inhabited(old: Seq<Set<NodeIndex>>, new: Seq<Set<usize>>)
    requires
        all_inhabited(old),
        all_inhabited(new),
        forall|c: int, j: usize| 0 <= c < new.len() && #[trigger] new[c].contains(j) ==> j < old.len(),
    ensures
        all_inhabited(merged(old, new)),
{
    let result = merged(old, new);
    assert forall|c: int| 0 <= c < result.len() implies has_member(#[trigger] result[c]) by {
        assert(has_member(new[c]));
        let j = choose|j: usize| new[c].contains(j);
        assert(has_member(old[j as int]));
        let x = choose|x: NodeIndex| old[j as int].contains(x);
        assert(result[c].contains(x));
    }
}

} // verus!
