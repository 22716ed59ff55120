//! Directed, weighted graphs with dense node indices and running degree sums.

use crate::sums::{lemma_sum_to_add, lemma_sum_to_eq, lemma_sum_to_monotone, lemma_sum_to_point, sum_to};
use vstd::prelude::*;

verus! {

/// Position of a node in the graph that issued it.
pub type NodeIndex = usize;

/// Largest total edge weight a graph may carry. It keeps every product that
/// the modularity computations form inside 128 bits.
pub const MAX_TOTAL_WEIGHT: u64 = 0x3FFF_FFFF;

/// A node: its external name, its position, and the summed weight of the
/// edges that enter and leave it.
#[derive(Clone, Debug, PartialEq, Eq)]
pub struct Node {
    pub id: String,
    pub index: NodeIndex,
    pub in_degree: u64,
    pub out_degree: u64,
}

/// A directed edge with a non-negative weight.
#[derive(Clone, Copy, Debug, PartialEq, Eq)]
pub struct Edge {
    pub source: NodeIndex,
    pub target: NodeIndex,
    pub weight: u64,
}

/// The edges that leave node `node`.
pub open spec fn from_source(node: int) -> spec_fn(Edge) -> bool {
    |e: Edge| e.source == node
}

/// The edges that enter node `node`.
pub open spec fn into_target(node: int) -> spec_fn(Edge) -> bool {
    |e: Edge| e.target == node
}

/// The edges that satisfy both `p` and `q`.
pub open spec fn both(p: spec_fn(Edge) -> bool, q: spec_fn(Edge) -> bool) -> spec_fn(Edge) -> bool {
    |e: Edge| p(e) && q(e)
}

/// Every edge.
pub open spec fn every_edge() -> spec_fn(Edge) -> bool {
    |e: Edge| true
}

/// The end of `e` that is not the node whose adjacency list holds `e`:
/// the target in a list of leaving edges, the source in a list of entering
/// ones.
pub open spec fn far_end(e: Edge, leaving: bool) -> NodeIndex {
    if leaving {
        e.target
    } else {
        e.source
    }
}

/// Summed weight of the edges of `edges` that satisfy `p`.
pub open spec fn weight_sum(edges: Seq<Edge>, p: spec_fn(Edge) -> bool) -> int
    decreases edges.len(),
{
    if edges.len() == 0 {
        0
    } else {
        weight_sum(edges.drop_last(), p) + if p(edges.last()) {
            edges.last().weight as int
        } else {
            0
        }
    }
}

/// The edges of `edges` that satisfy `p`, in the order they stand in.
pub open spec fn select(edges: Seq<Edge>, p: spec_fn(Edge) -> bool) -> Seq<Edge>
    decreases edges.len(),
{
    if edges.len() == 0 {
        Seq::empty()
    } else if p(edges.last()) {
        select(edges.drop_last(), p).push(edges.last())
    } else {
        select(edges.drop_last(), p)
    }
}

/// Summed weight of all edges.
pub open spec fn total_weight(edges: Seq<Edge>) -> int {
    weight_sum(edges, every_edge())
}

/// Summed weight of the edges that leave `node`.
pub open spec fn out_degree_of(edges: Seq<Edge>, node: int) -> int {
    weight_sum(edges, from_source(node))
}

/// Summed weight of the edges that enter `node`.
pub open spec fn in_degree_of(edges: Seq<Edge>, node: int) -> int {
    weight_sum(edges, into_target(node))
}

/// The edges that leave `node`, in insertion order.
pub open spec fn out_edges_of(edges: Seq<Edge>, node: int) -> Seq<Edge> {
    select(edges, from_source(node))
}

/// The edges that enter `node`, in insertion order.
pub open spec fn in_edges_of(edges: Seq<Edge>, node: int) -> Seq<Edge> {
    select(edges, into_target(node))
}

/// Appending an edge adds its weight to the sum exactly when it is selected.
pub proof fn lemma_weight_sum_push(edges: Seq<Edge>, e: Edge, p: spec_fn(Edge) -> bool)
    ensures
        weight_sum(edges.push(e), p) == weight_sum(edges, p) + if p(e) {
            e.weight as int
        } else {
            0
        },
        select(edges.push(e), p) == if p(e) {
            select(edges, p).push(e)
        } else {
            select(edges, p)
        },
{
    assert(edges.push(e).drop_last() =~= edges);
}

/// A weight sum is non-negative, and no larger than the sum over a weaker
/// predicate.
pub proof fn lemma_weight_sum_le(edges: Seq<Edge>, p: spec_fn(Edge) -> bool, q: spec_fn(Edge) -> bool)
    requires
        forall|e: Edge| #[trigger] p(e) ==> q(e),
    ensures
        0 <= weight_sum(edges, p) <= weight_sum(edges, q),
    decreases edges.len(),
{
    if edges.len() > 0 {
        lemma_weight_sum_le(edges.drop_last(), p, q);
    }
}

/// Predicates that agree on every edge of the sequence select the same
/// edges.
pub proof fn lemma_weight_sum_eq(edges: Seq<Edge>, p: spec_fn(Edge) -> bool, q: spec_fn(Edge) -> bool)
    requires
        forall|k: int| 0 <= k < edges.len() ==> p(#[trigger] edges[k]) == q(edges[k]),
    ensures
        weight_sum(edges, p) == weight_sum(edges, q),
        select(edges, p) == select(edges, q),
    decreases edges.len(),
{
    if edges.len() > 0 {
        let rest = edges.drop_last();
        assert forall|k: int| 0 <= k < rest.len() implies p(#[trigger] rest[k]) == q(rest[k]) by {
            assert(rest[k] == edges[k]);
        }
        lemma_weight_sum_eq(rest, p, q);
        assert(edges.last() == edges[edges.len() - 1]);
    }
}

/// Summing over a selection is summing over the conjunction.
pub proof fn lemma_weight_sum_select(edges: Seq<Edge>, p: spec_fn(Edge) -> bool, q: spec_fn(Edge) -> bool)
    ensures
        weight_sum(select(edges, p), q) == weight_sum(edges, both(p, q)),
    decreases edges.len(),
{
    if edges.len() > 0 {
        lemma_weight_sum_select(edges.drop_last(), p, q);
        if p(edges.last()) {
            lemma_weight_sum_push(select(edges.drop_last(), p), edges.last(), q);
        }
    }
}

/// No edge, no weight.
pub proof fn lemma_weight_sum_none(edges: Seq<Edge>, p: spec_fn(Edge) -> bool)
    requires
        forall|k: int| 0 <= k < edges.len() ==> !p(#[trigger] edges[k]),
    ensures
        weight_sum(edges, p) == 0,
    decreases edges.len(),
{
    if edges.len() > 0 {
        let rest = edges.drop_last();
        assert forall|k: int| 0 <= k < rest.len() implies !p(#[trigger] rest[k]) by {
            assert(rest[k] == edges[k]);
        }
        lemma_weight_sum_none(rest, p);
        assert(edges.last() == edges[edges.len() - 1]);
    }
}

/// Every selected edge satisfies the predicate and is one of the edges, and
/// every edge that satisfies the predicate is selected.
pub proof fn lemma_select_members(edges: Seq<Edge>, p: spec_fn(Edge) -> bool)
    ensures
        forall|j: int|
            0 <= j < select(edges, p).len() ==> p(#[trigger] select(edges, p)[j]) && edges.contains(
                select(edges, p)[j],
            ),
        forall|k: int| 0 <= k < edges.len() && p(#[trigger] edges[k]) ==> select(edges, p).contains(edges[k]),
    decreases edges.len(),
{
    if edges.len() > 0 {
        let rest = edges.drop_last();
        let last = edges.last();
        let chosen = select(edges, p);
        lemma_select_members(rest, p);
        assert(last == edges[edges.len() - 1]);
        assert forall|j: int| 0 <= j < chosen.len() implies p(#[trigger] chosen[j]) && edges.contains(
            chosen[j],
        ) by {
            if j < select(rest, p).len() {
                assert(chosen[j] == select(rest, p)[j]);
                let k = choose|k: int| 0 <= k < rest.len() && rest[k] == chosen[j];
                assert(edges[k] == chosen[j]);
            }
        }
        assert forall|k: int| 0 <= k < edges.len() && p(#[trigger] edges[k]) implies chosen.contains(
            edges[k],
        ) by {
            if k < rest.len() {
                assert(rest[k] == edges[k]);
                let j = choose|j: int| 0 <= j < select(rest, p).len() && select(rest, p)[j] == rest[k];
                assert(chosen[j] == edges[k]);
            } else {
                assert(chosen[chosen.len() - 1] == edges[k]);
            }
        }
    }
}

/// The sum over a prefix grows edge by edge up to the sum over the whole
/// sequence.
pub proof fn lemma_weight_sum_take(edges: Seq<Edge>, j: int, p: spec_fn(Edge) -> bool)
    requires
        0 <= j <= edges.len(),
    ensures
        0 <= weight_sum(edges.take(j), p) <= weight_sum(edges, p),
        j < edges.len() ==> weight_sum(edges.take(j + 1), p) == weight_sum(edges.take(j), p) + if p(edges[j]) {
            edges[j].weight as int
        } else {
            0
        },
        j == edges.len() ==> edges.take(j) == edges,
    decreases edges.len() - j,
{
    lemma_weight_sum_le(edges.take(j), p, p);
    if j < edges.len() {
        assert(edges.take(j + 1) =~= edges.take(j).push(edges[j]));
        lemma_weight_sum_push(edges.take(j), edges[j], p);
        lemma_weight_sum_take(edges, j + 1, p);
    } else {
        assert(edges.take(j) =~= edges);
    }
}

/// The weight, per source node, of the edges that satisfy `q`.
pub open spec fn weight_by_source(edges: Seq<Edge>, q: spec_fn(Edge) -> bool) -> spec_fn(int) -> int {
    |node: int| weight_sum(edges, both(from_source(node), q))
}

/// The weight, per target node, of the edges that satisfy `q`.
pub open spec fn weight_by_target(edges: Seq<Edge>, q: spec_fn(Edge) -> bool) -> spec_fn(int) -> int {
    |node: int| weight_sum(edges, both(into_target(node), q))
}

/// Grouping the edges by their source loses and gains nothing.
pub proof fn lemma_sum_by_source(edges: Seq<Edge>, n: nat, q: spec_fn(Edge) -> bool)
    requires
        forall|k: int| 0 <= k < edges.len() ==> (#[trigger] edges[k]).source < n,
    ensures
        sum_to(n, weight_by_source(edges, q)) == weight_sum(edges, q),
    decreases edges.len(),
{
    let f = weight_by_source(edges, q);
    if edges.len() == 0 {
        lemma_sum_to_point(n, f, -1);
    } else {
        let rest = edges.drop_last();
        let e = edges.last();
        assert(e == edges[edges.len() - 1]);
        assert forall|k: int| 0 <= k < rest.len() implies (#[trigger] rest[k]).source < n by {
            assert(rest[k] == edges[k]);
        }
        lemma_sum_by_source(rest, n, q);
        let g = weight_by_source(rest, q);
        let h = |node: int| if e.source == node && q(e) { e.weight as int } else { 0int };
        assert forall|i: int| 0 <= i < n implies #[trigger] f(i) == g(i) + h(i) by {}
        lemma_sum_to_add(n, f, g, h);
        lemma_sum_to_point(n, h, e.source as int);
    }
}

/// Grouping the edges by their target loses and gains nothing.
pub proof fn lemma_sum_by_target(edges: Seq<Edge>, n: nat, q: spec_fn(Edge) -> bool)
    requires
        forall|k: int| 0 <= k < edges.len() ==> (#[trigger] edges[k]).target < n,
    ensures
        sum_to(n, weight_by_target(edges, q)) == weight_sum(edges, q),
    decreases edges.len(),
{
    let f = weight_by_target(edges, q);
    if edges.len() == 0 {
        lemma_sum_to_point(n, f, -1);
    } else {
        let rest = edges.drop_last();
        let e = edges.last();
        assert(e == edges[edges.len() - 1]);
        assert forall|k: int| 0 <= k < rest.len() implies (#[trigger] rest[k]).target < n by {
            assert(rest[k] == edges[k]);
        }
        lemma_sum_by_target(rest, n, q);
        let g = weight_by_target(rest, q);
        let h = |node: int| if e.target == node && q(e) { e.weight as int } else { 0int };
        assert forall|i: int| 0 <= i < n implies #[trigger] f(i) == g(i) + h(i) by {}
        lemma_sum_to_add(n, f, g, h);
        lemma_sum_to_point(n, h, e.target as int);
    }
}

impl Node {
    /// A node without incident edges.
    pub fn new(index: NodeIndex, id: &str) -> (node: Node)
        ensures
            node.index == index,
            node.id@ == id@,
            node.in_degree == 0,
            node.out_degree == 0,
    {
        Node { index, id: id.to_owned(), in_degree: 0, out_degree: 0 }
    }
}

/// The out-degree of every node, as a function of the node.
pub open spec fn out_degree_fn(edges: Seq<Edge>) -> spec_fn(int) -> int {
    |node: int| out_degree_of(edges, node)
}

/// The in-degree of every node, as a function of the node.
pub open spec fn in_degree_fn(edges: Seq<Edge>) -> spec_fn(int) -> int {
    |node: int| in_degree_of(edges, node)
}

/// Every node sends out as much weight as it takes in.
pub open spec fn balanced(edges: Seq<Edge>, n: nat) -> bool {
    forall|i: int| 0 <= i < n ==> in_degree_of(edges, i) == #[trigger] out_degree_of(edges, i)
}

/// The out-degrees of the nodes sum to the total edge weight, and so do the
/// in-degrees, as long as every edge joins two of the `n` nodes.
pub proof fn lemma_degree_sums(edges: Seq<Edge>, n: nat)
    requires
        forall|k: int| 0 <= k < edges.len() ==> (#[trigger] edges[k]).source < n && edges[k].target < n,
    ensures
        sum_to(n, out_degree_fn(edges)) == total_weight(edges),
        sum_to(n, in_degree_fn(edges)) == total_weight(edges),
{
    lemma_sum_by_source(edges, n, every_edge());
    lemma_sum_by_target(edges, n, every_edge());
    assert forall|i: int| 0 <= i < n implies #[trigger] out_degree_fn(edges)(i) == weight_by_source(
        edges,
        every_edge(),
    )(i) by {
        lemma_weight_sum_eq(edges, from_source(i), both(from_source(i), every_edge()));
    }
    lemma_sum_to_eq(n, out_degree_fn(edges), weight_by_source(edges, every_edge()));
    assert forall|i: int| 0 <= i < n implies #[trigger] in_degree_fn(edges)(i) == weight_by_target(
        edges,
        every_edge(),
    )(i) by {
        lemma_weight_sum_eq(edges, into_target(i), both(into_target(i), every_edge()));
    }
    lemma_sum_to_eq(n, in_degree_fn(edges), weight_by_target(edges, every_edge()));
}

/// The target of every edge of a sequence.
pub open spec fn targets(edges: Seq<Edge>) -> Seq<NodeIndex> {
    Seq::new(edges.len(), |k: int| edges[k].target)
}

/// The source of every edge of a sequence.
pub open spec fn sources(edges: Seq<Edge>) -> Seq<NodeIndex> {
    Seq::new(edges.len(), |k: int| edges[k].source)
}

/// The weight of every edge of a sequence.
pub open spec fn weights(edges: Seq<Edge>) -> Seq<u64> {
    Seq::new(edges.len(), |k: int| edges[k].weight)
}

/// The weights of the edges that enter the first `n` nodes, node by node.
pub open spec fn weights_by_target(edges: Seq<Edge>, n: nat) -> Seq<u64>
    decreases n,
{
    if n == 0 {
        Seq::empty()
    } else {
        weights_by_target(edges, (n - 1) as nat) + weights(in_edges_of(edges, n - 1))
    }
}

/// What a graph is: the names of its nodes, by index, and its edges in the
/// order of their insertion.
pub struct GraphView {
    pub ids: Seq<Seq<char>>,
    pub edges: Seq<Edge>,
}

/// A directed graph whose nodes are numbered from zero in the order of their
/// insertion. Each node carries the summed weight of its incident edges, and
/// each edge is listed under its source and under its target.
#[derive(Clone, Debug, PartialEq, Eq)]
pub struct Graph {
    pub nodes: Vec<Node>,
    pub edges: Vec<Edge>,
    pub in_adjacency: Vec<Vec<Edge>>,
    pub out_adjacency: Vec<Vec<Edge>>,
}

impl View for Graph {
    type V = GraphView;

    open spec fn view(&self) -> GraphView {
        GraphView {
            ids: Seq::new(self.nodes.len() as nat, |i: int| self.nodes[i].id@),
            edges: self.edges@,
        }
    }
}

impl Graph {
    /// The stored degrees and adjacency lists agree with the edge list, every
    /// edge joins two existing nodes, and the total weight is within bounds.
    pub open spec fn wf(&self) -> bool {
        &&& self.in_adjacency.len() == self.nodes.len()
        &&& self.out_adjacency.len() == self.nodes.len()
        &&& total_weight(self.edges@) <= MAX_TOTAL_WEIGHT
        &&& forall|k: int|
            0 <= k < self.edges.len() ==> (#[trigger] self.edges[k]).source < self.nodes.len()
                && self.edges[k].target < self.nodes.len()
        &&& forall|i: int|
            0 <= i < self.nodes.len() ==> {
                &&& (#[trigger] self.nodes[i]).index == i
                &&& self.nodes[i].out_degree == out_degree_of(self.edges@, i)
                &&& self.nodes[i].in_degree == in_degree_of(self.edges@, i)
            }
        &&& forall|i: int|
            0 <= i < self.nodes.len() ==> (#[trigger] self.out_adjacency[i])@ == out_edges_of(
                self.edges@,
                i,
            )
        &&& forall|i: int|
            0 <= i < self.nodes.len() ==> (#[trigger] self.in_adjacency[i])@ == in_edges_of(
                self.edges@,
                i,
            )
    }

    /// The number of nodes, in specifications.
    pub open spec fn spec_node_count(&self) -> nat {
        self.nodes.len() as nat
    }

    /// The total edge weight, in specifications.
    pub open spec fn spec_size(&self) -> int {
        total_weight(self.edges@)
    }

    /// The out-degree that every node carries, as a function of the node.
    pub open spec fn stored_out_degrees(&self) -> spec_fn(int) -> int {
        |i: int| self.nodes[i].out_degree as int
    }

    /// The in-degree that every node carries, as a function of the node.
    pub open spec fn stored_in_degrees(&self) -> spec_fn(int) -> int {
        |i: int| self.nodes[i].in_degree as int
    }

    /// In a well-formed graph the out-degrees that the nodes carry sum to
    /// the total edge weight, and so do the in-degrees.
    pub proof fn lemma_stored_degrees(&self)
        requires
            self.wf(),
        ensures
            sum_to(self.spec_node_count(), self.stored_out_degrees()) == self.spec_size(),
            sum_to(self.spec_node_count(), self.stored_in_degrees()) == self.spec_size(),
    {
        let n = self.spec_node_count();
        lemma_degree_sums(self.edges@, n);
        assert forall|i: int| 0 <= i < n implies #[trigger] self.stored_out_degrees()(i) == out_degree_fn(
            self.edges@,
        )(i) by {
            assert(self.nodes[i].out_degree == out_degree_of(self.edges@, i));
        }
        lemma_sum_to_eq(n, self.stored_out_degrees(), out_degree_fn(self.edges@));
        assert forall|i: int| 0 <= i < n implies #[trigger] self.stored_in_degrees()(i) == in_degree_fn(
            self.edges@,
        )(i) by {
            assert(self.nodes[i].in_degree == in_degree_of(self.edges@, i));
        }
        lemma_sum_to_eq(n, self.stored_in_degrees(), in_degree_fn(self.edges@));
    }

    /// The degrees of a well-formed graph are bounded by its total weight.
    pub proof fn lemma_degree_bounds(&self, node: int)
        requires
            self.wf(),
        ensures
            0 <= out_degree_of(self.edges@, node) <= self.spec_size() <= MAX_TOTAL_WEIGHT,
            0 <= in_degree_of(self.edges@, node) <= self.spec_size(),
    {
        lemma_weight_sum_le(self.edges@, from_source(node), every_edge());
        lemma_weight_sum_le(self.edges@, into_target(node), every_edge());
    }

    /// The empty graph.
    pub fn new() -> (graph: Graph)
        ensures
            graph.wf(),
            graph@.ids == Seq::<Seq<char>>::empty(),
            graph@.edges == Seq::<Edge>::empty(),
            graph.spec_node_count() == 0,
            graph.spec_size() == 0,
    {
        Graph {
            nodes: Vec::new(),
            edges: Vec::new(),
            in_adjacency: Vec::new(),
            out_adjacency: Vec::new(),
        }
    }

    /// The total edge weight, summed from the out-degrees of the nodes.
    pub fn size(&self) -> (m: u64)
        requires
            self.wf(),
        ensures
            m == total_weight(self@.edges),
            m <= MAX_TOTAL_WEIGHT,
    {
        let mut total: u64 = 0;
        let mut i: usize = 0;
        proof {
            lemma_degree_sums(self.edges@, self.nodes.len() as nat);
        }
        while i < self.nodes.len()
            invariant
                self.wf(),
                i <= self.nodes.len(),
                total == sum_to(i as nat, out_degree_fn(self.edges@)),
                sum_to(self.nodes.len() as nat, out_degree_fn(self.edges@)) == total_weight(
                    self.edges@,
                ),
            decreases self.nodes.len() - i,
        {
            proof {
                assert forall|k: int| 0 <= k < self.nodes.len() implies 0 <= #[trigger] out_degree_fn(
                    self.edges@,
                )(k) by {
                    self.lemma_degree_bounds(k);
                }
                lemma_sum_to_monotone((i + 1) as nat, self.nodes.len() as nat, out_degree_fn(self.edges@));
                assert(self.nodes[i as int].out_degree == out_degree_fn(self.edges@)(i as int));
            }
            total = total + self.nodes[i].out_degree;
            i = i + 1;
        }
        total
    }

    /// All edges, in the order of their insertion.
    pub fn edges(&self) -> (edges: &Vec<Edge>)
        ensures
            edges@ == self@.edges,
    {
        &self.edges
    }

    /// The number of nodes.
    pub fn node_count(&self) -> (n: usize)
        ensures
            n == self@.ids.len(),
            n == self.spec_node_count(),
    {
        self.nodes.len()
    }

    /// Appends a node without edges. Nodes are numbered in the order of their
    /// insertion, so `node_index` is the number of nodes so far.
    pub fn add_node(&mut self, node_index: NodeIndex, id: &str)
        requires
            old(self).wf(),
            node_index == old(self).spec_node_count(),
        ensures
            final(self).wf(),
            final(self)@.ids == old(self)@.ids.push(id@),
            final(self)@.edges == old(self)@.edges,
            final(self).spec_node_count() == old(self).spec_node_count() + 1,
    {
        let node = Node { index: node_index, id: id.to_owned(), in_degree: 0, out_degree: 0 };
        proof {
            self.lemma_degree_bounds(node_index as int);
            lemma_no_edge_at(self.edges@, node_index as int);
        }
        self.in_adjacency.push(Vec::new());
        self.out_adjacency.push(Vec::new());
        self.nodes.push(node);
        assert(self@.ids =~= old(self)@.ids.push(id@));
    }

    /// Appends an edge between two existing nodes, and adds its weight to the
    /// out-degree of its source and to the in-degree of its target.
    pub fn add_edge(&mut self, source: NodeIndex, target: NodeIndex, weight: u64)
        requires
            old(self).wf(),
            source < old(self).spec_node_count(),
            target < old(self).spec_node_count(),
            old(self).spec_size() + weight <= MAX_TOTAL_WEIGHT,
        ensures
            final(self).wf(),
            final(self)@.ids == old(self)@.ids,
            final(self)@.edges == old(self)@.edges.push(Edge { source, target, weight }),
            final(self).spec_node_count() == old(self).spec_node_count(),
            final(self).spec_size() == old(self).spec_size() + weight,
            forall|i: int|
                #[trigger] out_degree_of(final(self)@.edges, i) == out_degree_of(old(self)@.edges, i) + if i
                    == source {
                    weight as int
                } else {
                    0
                },
            forall|i: int|
                #[trigger] in_degree_of(final(self)@.edges, i) == in_degree_of(old(self)@.edges, i) + if i
                    == target {
                    weight as int
                } else {
                    0
                },
    {
        let edge = Edge { source, target, weight };
        let ghost before = self.edges@;
        proof {
            self.lemma_degree_bounds(source as int);
            self.lemma_degree_bounds(target as int);
            lemma_weight_sum_push(before, edge, every_edge());
            assert forall|i: int| #[trigger]
                out_degree_of(before.push(edge), i) == out_degree_of(before, i) + if i == source {
                    weight as int
                } else {
                    0
                } by {
                lemma_weight_sum_push(before, edge, from_source(i));
            }
            assert forall|i: int| #[trigger]
                in_degree_of(before.push(edge), i) == in_degree_of(before, i) + if i == target {
                    weight as int
                } else {
                    0
                } by {
                lemma_weight_sum_push(before, edge, into_target(i));
            }
            assert forall|i: int| #[trigger]
                out_edges_of(before.push(edge), i) == if i == source {
                    out_edges_of(before, i).push(edge)
                } else {
                    out_edges_of(before, i)
                } by {
                lemma_weight_sum_push(before, edge, from_source(i));
            }
            assert forall|i: int| #[trigger]
                in_edges_of(before.push(edge), i) == if i == target {
                    in_edges_of(before, i).push(edge)
                } else {
                    in_edges_of(before, i)
                } by {
                lemma_weight_sum_push(before, edge, into_target(i));
            }
        }
        self.nodes[source].out_degree = self.nodes[source].out_degree + weight;
        self.nodes[target].in_degree = self.nodes[target].in_degree + weight;
        self.out_adjacency[source].push(edge);
        self.in_adjacency[target].push(edge);
        self.edges.push(edge);
        assert(self@.ids =~= old(self)@.ids);
    }

    /// The edges that enter `node`, in the order of their insertion.
    pub fn in_edges(&self, node: NodeIndex) -> (edges: &Vec<Edge>)
        requires
            self.wf(),
            node < self.spec_node_count(),
        ensures
            edges@ == in_edges_of(self@.edges, node as int),
    {
        &self.in_adjacency[node]
    }

    /// The edges that leave `node`, in the order of their insertion.
    pub fn out_edges(&self, node: NodeIndex) -> (edges: &Vec<Edge>)
        requires
            self.wf(),
            node < self.spec_node_count(),
        ensures
            edges@ == out_edges_of(self@.edges, node as int),
    {
        &self.out_adjacency[node]
    }

    /// The in-degree of every node, by index.
    pub fn in_degrees(&self) -> (degrees: Vec<u64>)
        requires
            self.wf(),
        ensures
            degrees.len() == self.spec_node_count(),
            forall|i: int|
                0 <= i < degrees.len() ==> #[trigger] degrees[i] == in_degree_of(self@.edges, i),
    {
        let mut degrees: Vec<u64> = Vec::new();
        let mut i: usize = 0;
        while i < self.nodes.len()
            invariant
                self.wf(),
                i <= self.nodes.len(),
                degrees.len() == i,
                forall|k: int| 0 <= k < i ==> #[trigger] degrees[k] == in_degree_of(self.edges@, k),
            decreases self.nodes.len() - i,
        {
            degrees.push(self.nodes[i].in_degree);
            i = i + 1;
        }
        degrees
    }

    /// The out-degree of every node, by index.
    pub fn out_degrees(&self) -> (degrees: Vec<u64>)
        requires
            self.wf(),
        ensures
            degrees.len() == self.spec_node_count(),
            forall|i: int|
                0 <= i < degrees.len() ==> #[trigger] degrees[i] == out_degree_of(self@.edges, i),
    {
        let mut degrees: Vec<u64> = Vec::new();
        let mut i: usize = 0;
        while i < self.nodes.len()
            invariant
                self.wf(),
                i <= self.nodes.len(),
                degrees.len() == i,
                forall|k: int| 0 <= k < i ==> #[trigger] degrees[k] == out_degree_of(self.edges@, k),
            decreases self.nodes.len() - i,
        {
            degrees.push(self.nodes[i].out_degree);
            i = i + 1;
        }
        degrees
    }

    /// The weight of every edge, grouped by the node that the edge enters.
    pub fn edge_weights(&self) -> (all: Vec<u64>)
        requires
            self.wf(),
        ensures
            all@ == weights_by_target(self@.edges, self.spec_node_count()),
    {
        let mut all: Vec<u64> = Vec::new();
        let mut i: usize = 0;
        while i < self.nodes.len()
            invariant
                self.wf(),
                i <= self.nodes.len(),
                all@ == weights_by_target(self.edges@, i as nat),
            decreases self.nodes.len() - i,
        {
            let entering = &self.in_adjacency[i];
            let ghost before = all@;
            let mut j: usize = 0;
            while j < entering.len()
                invariant
                    j <= entering.len(),
                    all@ == before + weights(entering@.take(j as int)),
                decreases entering.len() - j,
            {
                all.push(entering[j].weight);
                assert(all@ =~= before + weights(entering@.take(j as int + 1)));
                j = j + 1;
            }
            assert(entering@.take(entering.len() as int) =~= entering@);
            i = i + 1;
        }
        all
    }

    /// The nodes at the far end of the edges of `node`: first the targets of
    /// the edges that leave it, then the sources of the edges that enter it.
    /// A node is listed once for every edge.
    pub fn neighbors(&self, node: NodeIndex) -> (near: Vec<NodeIndex>)
        requires
            self.wf(),
            node < self.spec_node_count(),
        ensures
            near@ == targets(out_edges_of(self@.edges, node as int)) + sources(
                in_edges_of(self@.edges, node as int),
            ),
    {
        let leaving = &self.out_adjacency[node];
        let entering = &self.in_adjacency[node];
        let mut near: Vec<NodeIndex> = Vec::new();
        let mut j: usize = 0;
        while j < leaving.len()
            invariant
                j <= leaving.len(),
                near@ == targets(leaving@.take(j as int)),
            decreases leaving.len() - j,
        {
            near.push(leaving[j].target);
            assert(near@ =~= targets(leaving@.take(j as int + 1)));
            j = j + 1;
        }
        assert(leaving@.take(leaving.len() as int) =~= leaving@);
        let mut k: usize = 0;
        while k < entering.len()
            invariant
                k <= entering.len(),
                near@ == targets(leaving@) + sources(entering@.take(k as int)),
            decreases entering.len() - k,
        {
            near.push(entering[k].source);
            assert(near@ =~= targets(leaving@) + sources(entering@.take(k as int + 1)));
            k = k + 1;
        }
        assert(entering@.take(entering.len() as int) =~= entering@);
        near
    }

    /// The edges between `source` and `target`: first those from `source` to
    /// `target`, then those from `target` to `source`. A loop is listed
    /// twice.
    pub fn edges_connecting(&self, source: NodeIndex, target: NodeIndex) -> (between: Vec<Edge>)
        requires
            self.wf(),
            source < self.spec_node_count(),
        ensures
            between@ == select(out_edges_of(self@.edges, source as int), into_target(target as int)) + select(
                in_edges_of(self@.edges, source as int),
                from_source(target as int),
            ),
    {
        let leaving = &self.out_adjacency[source];
        let entering = &self.in_adjacency[source];
        let ghost forth = into_target(target as int);
        let ghost back = from_source(target as int);
        let mut between: Vec<Edge> = Vec::new();
        let mut j: usize = 0;
        while j < leaving.len()
            invariant
                j <= leaving.len(),
                forth == into_target(target as int),
                between@ == select(leaving@.take(j as int), forth),
            decreases leaving.len() - j,
        {
            proof {
                assert(leaving@.take(j as int + 1) =~= leaving@.take(j as int).push(leaving[j as int]));
                lemma_weight_sum_push(leaving@.take(j as int), leaving[j as int], forth);
            }
            if leaving[j].target == target {
                between.push(leaving[j]);
            }
            j = j + 1;
        }
        assert(leaving@.take(leaving.len() as int) =~= leaving@);
        let mut k: usize = 0;
        while k < entering.len()
            invariant
                k <= entering.len(),
                back == from_source(target as int),
                between@ == select(leaving@, forth) + select(entering@.take(k as int), back),
            decreases entering.len() - k,
        {
            proof {
                assert(entering@.take(k as int + 1) =~= entering@.take(k as int).push(entering[k as int]));
                lemma_weight_sum_push(entering@.take(k as int), entering[k as int], back);
            }
            if entering[k].source == target {
                between.push(entering[k]);
                assert(between@ =~= select(leaving@, forth) + select(entering@.take(k as int + 1), back));
            }
            k = k + 1;
        }
        assert(entering@.take(entering.len() as int) =~= entering@);
        between
    }

    /// The index of every node, in order.
    pub fn node_indices(&self) -> (indices: Vec<NodeIndex>)
        requires
            self.wf(),
        ensures
            indices.len() == self.spec_node_count(),
            forall|i: int| 0 <= i < indices.len() ==> #[trigger] indices[i] == i,
    {
        let mut indices: Vec<NodeIndex> = Vec::new();
        let mut i: usize = 0;
        while i < self.nodes.len()
            invariant
                self.wf(),
                i <= self.nodes.len(),
                indices.len() == i,
                forall|k: int| 0 <= k < i ==> #[trigger] indices[k] == k,
            decreases self.nodes.len() - i,
        {
            indices.push(self.nodes[i].index);
            i = i + 1;
        }
        indices
    }
}

/// A node that no edge touches has no incident edges and degree zero.
pub proof fn lemma_no_edge_at(edges: Seq<Edge>, node: int)
    requires
        forall|k: int| 0 <= k < edges.len() ==> (#[trigger] edges[k]).source != node && edges[k].target != node,
    ensures
        out_degree_of(edges, node) == 0,
        in_degree_of(edges, node) == 0,
        out_edges_of(edges, node) == Seq::<Edge>::empty(),
        in_edges_of(edges, node) == Seq::<Edge>::empty(),
    decreases edges.len(),
{
    if edges.len() > 0 {
        let rest = edges.drop_last();
        assert forall|k: int| 0 <= k < rest.len() implies (#[trigger] rest[k]).source != node
            && rest[k].target != node by {
            assert(rest[k] == edges[k]);
        }
        lemma_no_edge_at(rest, node);
        assert(edges.last() == edges[edges.len() - 1]);
    }
}

} // verus!
