//! Building graphs from plain descriptions: a list of edges, a list of
//! one-based arcs, or a matrix of weights. A description that names a node
//! that is not there, or that weighs too much, is refused.

use crate::graph::{
    balanced, every_edge, from_source, in_degree_of, into_target, lemma_weight_sum_push,
    lemma_weight_sum_take, out_degree_of, total_weight, weight_sum, Edge, Graph, MAX_TOTAL_WEIGHT,
};
use crate::sums::{lemma_sum_to_eq, sum_to};
use vstd::prelude::*;

verus! {

/// Why a description gives no graph.
#[derive(Clone, Copy, Debug, PartialEq, Eq)]
pub enum BuildError {
    /// An edge names a node that the graph does not have.
    NodeOutOfRange,
    /// The edges weigh more than `MAX_TOTAL_WEIGHT` together.
    TooHeavy,
}

/// The names of a list of nodes, as sequences of characters.
pub open spec fn names(ids: Seq<String>) -> Seq<Seq<char>> {
    Seq::new(ids.len(), |i: int| ids[i]@)
}

/// Every edge joins two of the first `n` indices.
pub open spec fn in_range(edges: Seq<Edge>, n: nat) -> bool {
    forall|k: int| 0 <= k < edges.len() ==> (#[trigger] edges[k]).source < n && edges[k].target < n
}

/// The graph with the given node names and the given edges, in their order.
/// It is refused with `NodeOutOfRange` if an edge names a node beyond the
/// last name, and with `TooHeavy` if all edges are in range but weigh more
/// than the limit together.
pub fn graph_from_edges(ids: &Vec<String>, edges: &Vec<Edge>) -> (built: Result<Graph, BuildError>)
    ensures
        built is Ok <==> in_range(edges@, ids.len() as nat) && total_weight(edges@) <= MAX_TOTAL_WEIGHT,
        built == Err::<Graph, BuildError>(BuildError::NodeOutOfRange) <==> !in_range(edges@, ids.len() as nat),
        built == Err::<Graph, BuildError>(BuildError::TooHeavy) <==> in_range(edges@, ids.len() as nat)
            && total_weight(edges@) > MAX_TOTAL_WEIGHT,
        built matches Ok(graph) ==> graph.wf() && graph@.ids == names(ids@) && graph@.edges == edges@,
{
    let n = ids.len();
    let mut k: usize = 0;
    while k < edges.len()
        invariant
            n == ids.len(),
            k <= edges.len(),
            forall|i: int| 0 <= i < k ==> (#[trigger] edges[i]).source < n && edges[i].target < n,
        decreases edges.len() - k,
    {
        if edges[k].source >= n || edges[k].target >= n {
            return Err(BuildError::NodeOutOfRange);
        }
        k = k + 1;
    }
    let mut graph = Graph::new();
    let mut i: usize = 0;
    while i < n
        invariant
            n == ids.len(),
            i <= n,
            graph.wf(),
            graph.spec_node_count() == i,
            graph@.ids == names(ids@.take(i as int)),
            graph@.edges == Seq::<Edge>::empty(),
        decreases n - i,
    {
        graph.add_node(i, ids[i].as_str());
        assert(graph@.ids =~= names(ids@.take(i as int + 1)));
        i = i + 1;
    }
    assert(ids@.take(n as int) =~= ids@);
    let mut total: u64 = 0;
    let mut j: usize = 0;
    while j < edges.len()
        invariant
            n == ids.len(),
            j <= edges.len(),
            in_range(edges@, n as nat),
            graph.wf(),
            graph.spec_node_count() == n,
            graph@.ids == names(ids@),
            graph@.edges == edges@.take(j as int),
            total == total_weight(edges@.take(j as int)),
            total <= MAX_TOTAL_WEIGHT,
        decreases edges.len() - j,
    {
        let edge = edges[j];
        proof {
            lemma_weight_sum_take(edges@, j as int, every_edge());
            lemma_weight_sum_take(edges@, j as int + 1, every_edge());
            assert(edges@.take(j as int + 1) =~= edges@.take(j as int).push(edge));
        }
        if edge.weight > MAX_TOTAL_WEIGHT - total {
            return Err(BuildError::TooHeavy);
        }
        graph.add_edge(edge.source, edge.target, edge.weight);
        total = total + edge.weight;
        j = j + 1;
    }
    assert(edges@.take(edges.len() as int) =~= edges@);
    Ok(graph)
}

/// An arc counts its nodes from one.
pub open spec fn one_based(arcs: Seq<Edge>) -> bool {
    forall|k: int| 0 <= k < arcs.len() ==> (#[trigger] arcs[k]).source >= 1 && arcs[k].target >= 1
}

/// The arcs with both ends counted from zero.
pub open spec fn shifted(arcs: Seq<Edge>) -> Seq<Edge> {
    Seq::new(
        arcs.len(),
        |k: int|
            Edge {
                source: (arcs[k].source - 1) as usize,
                target: (arcs[k].target - 1) as usize,
                weight: arcs[k].weight,
            },
    )
}

/// Turns arcs that count their nodes from one into edges that count them
/// from zero. An arc that names node zero has no such edge.
pub fn zero_based_edges(arcs: &Vec<Edge>) -> (edges: Option<Vec<Edge>>)
    ensures
        edges is Some <==> one_based(arcs@),
        edges matches Some(list) ==> list@ == shifted(arcs@),
{
    let mut edges: Vec<Edge> = Vec::new();
    let mut k: usize = 0;
    while k < arcs.len()
        invariant
            k <= arcs.len(),
            one_based(arcs@.take(k as int)),
            edges@ == shifted(arcs@.take(k as int)),
        decreases arcs.len() - k,
    {
        let arc = arcs[k];
        if arc.source == 0 || arc.target == 0 {
            return None;
        }
        edges.push(Edge { source: arc.source - 1, target: arc.target - 1, weight: arc.weight });
        proof {
            assert(edges@ =~= shifted(arcs@.take(k as int + 1)));
            assert forall|i: int| 0 <= i < k + 1 implies (#[trigger] arcs@.take(k as int + 1)[i]).source >= 1
                && arcs@.take(k as int + 1)[i].target >= 1 by {
                if i < k {
                    assert(arcs@.take(k as int)[i] == arcs[i]);
                }
            }
        }
        k = k + 1;
    }
    assert(arcs@.take(arcs.len() as int) =~= arcs@);
    Some(edges)
}

/// The graph with the given node names and the given arcs, which count
/// their nodes from one.
pub fn graph_from_arcs(ids: &Vec<String>, arcs: &Vec<Edge>) -> (built: Result<Graph, BuildError>)
    ensures
        built is Ok <==> one_based(arcs@) && in_range(shifted(arcs@), ids.len() as nat) && total_weight(
            shifted(arcs@),
        ) <= MAX_TOTAL_WEIGHT,
        built == Err::<Graph, BuildError>(BuildError::NodeOutOfRange) <==> !(one_based(arcs@) && in_range(
            shifted(arcs@),
            ids.len() as nat,
        )),
        built == Err::<Graph, BuildError>(BuildError::TooHeavy) <==> one_based(arcs@) && in_range(
            shifted(arcs@),
            ids.len() as nat,
        ) && total_weight(shifted(arcs@)) > MAX_TOTAL_WEIGHT,
        built matches Ok(graph) ==> graph.wf() && graph@.ids == names(ids@) && graph@.edges == shifted(arcs@),
{
    match zero_based_edges(arcs) {
        Some(edges) => graph_from_edges(ids, &edges),
        None => Err(BuildError::NodeOutOfRange),
    }
}

/// The cells of a matrix, row by row.
pub open spec fn cells(rows: Seq<Vec<u64>>) -> Seq<Seq<u64>> {
    Seq::new(rows.len(), |i: int| rows[i]@)
}

/// The edges that the first `upto` cells of one row of a weight matrix
/// stand for: one from the node of the row to the node of the column for
/// every cell above zero.
pub open spec fn row_arcs(row: Seq<u64>, source: int, upto: int) -> Seq<Edge>
    decreases upto,
{
    if upto <= 0 {
        Seq::empty()
    } else if row[upto - 1] > 0 {
        row_arcs(row, source, upto - 1).push(
            Edge { source: source as usize, target: (upto - 1) as usize, weight: row[upto - 1] },
        )
    } else {
        row_arcs(row, source, upto - 1)
    }
}

/// The edges that the first `upto` rows of a weight matrix stand for, row
/// by row.
pub open spec fn matrix_arcs(matrix: Seq<Seq<u64>>, upto: int) -> Seq<Edge>
    decreases upto,
{
    if upto <= 0 {
        Seq::empty()
    } else {
        matrix_arcs(matrix, upto - 1) + row_arcs(matrix[upto - 1], upto - 1, matrix[upto - 1].len() as int)
    }
}

/// The edges that a weight matrix stands for.
pub fn matrix_edges(rows: &Vec<Vec<u64>>) -> (edges: Vec<Edge>)
    ensures
        edges@ == matrix_arcs(cells(rows@), rows.len() as int),
{
    let ghost matrix = cells(rows@);
    let mut edges: Vec<Edge> = Vec::new();
    let mut i: usize = 0;
    while i < rows.len()
        invariant
            matrix == cells(rows@),
            i <= rows.len(),
            edges@ == matrix_arcs(matrix, i as int),
        decreases rows.len() - i,
    {
        let row = &rows[i];
        let ghost before = edges@;
        let mut j: usize = 0;
        while j < row.len()
            invariant
                j <= row.len(),
                edges@ == before + row_arcs(row@, i as int, j as int),
            decreases row.len() - j,
        {
            if row[j] > 0 {
                edges.push(Edge { source: i, target: j, weight: row[j] });
            }
            assert(edges@ =~= before + row_arcs(row@, i as int, j as int + 1));
            j = j + 1;
        }
        assert(matrix[i as int] == row@);
        i = i + 1;
    }
    edges
}

/// The graph of a weight matrix: the nodes carry the given names, and every
/// cell above zero is an edge from the node of its row to the node of its
/// column.
pub fn graph_from_matrix(ids: &Vec<String>, rows: &Vec<Vec<u64>>) -> (built: Result<Graph, BuildError>)
    ensures
        built is Ok <==> in_range(matrix_arcs(cells(rows@), rows.len() as int), ids.len() as nat) && total_weight(
            matrix_arcs(cells(rows@), rows.len() as int),
        ) <= MAX_TOTAL_WEIGHT,
        built == Err::<Graph, BuildError>(BuildError::NodeOutOfRange) <==> !in_range(
            matrix_arcs(cells(rows@), rows.len() as int),
            ids.len() as nat,
        ),
        built == Err::<Graph, BuildError>(BuildError::TooHeavy) <==> in_range(
            matrix_arcs(cells(rows@), rows.len() as int),
            ids.len() as nat,
        ) && total_weight(matrix_arcs(cells(rows@), rows.len() as int)) > MAX_TOTAL_WEIGHT,
        built matches Ok(graph) ==> graph.wf() && graph@.ids == names(ids@) && graph@.edges == matrix_arcs(
            cells(rows@),
            rows.len() as int,
        ),
        built matches Ok(graph) ==> (rows.len() == ids.len() && symmetric(cells(rows@)) ==> forall|i: int|
            0 <= i < graph.nodes.len() ==> (#[trigger] graph.nodes[i]).in_degree == graph.nodes[i].out_degree),
{
    let edges = matrix_edges(rows);
    let built = graph_from_edges(ids, &edges);
    proof {
        if built is Ok {
            let graph = built->Ok_0;
            if rows.len() == ids.len() && symmetric(cells(rows@)) {
                lemma_symmetric_matrix_is_balanced(cells(rows@));
                assert forall|i: int| 0 <= i < graph.nodes.len() implies (#[trigger] graph.nodes[i]).in_degree
                    == graph.nodes[i].out_degree by {
                    let matrix = cells(rows@);
                    assert(matrix.len() == rows.len());
                    assert(graph@.ids.len() == ids.len());
                    assert(graph.edges@ == matrix_arcs(matrix, matrix.len() as int));
                    assert(in_degree_of(graph.edges@, i) == out_degree_of(graph.edges@, i));
                }
            }
        }
    }
    built
}

/// The matrix is square, and every cell equals the cell that mirrors it
/// across the diagonal.
pub open spec fn symmetric(matrix: Seq<Seq<u64>>) -> bool {
    &&& forall|i: int| 0 <= i < matrix.len() ==> (#[trigger] matrix[i]).len() == matrix.len()
    &&& forall|i: int, j: int|
        0 <= i < matrix.len() && 0 <= j < matrix.len() ==> #[trigger] matrix[i][j] == matrix[j][i]
}

/// The cells of one row, as a function of the column.
pub open spec fn row_fn(row: Seq<u64>) -> spec_fn(int) -> int {
    |j: int| row[j] as int
}

/// The cells of one column, as a function of the row.
pub open spec fn column_fn(matrix: Seq<Seq<u64>>, column: int) -> spec_fn(int) -> int {
    |i: int| matrix[i][column] as int
}

/// The weight of two lists of edges together is the weight of the one plus
/// the weight of the other.
pub proof fn lemma_weight_sum_concat(first: Seq<Edge>, second: Seq<Edge>, p: spec_fn(Edge) -> bool)
    ensures
        weight_sum(first + second, p) == weight_sum(first, p) + weight_sum(second, p),
    decreases second.len(),
{
    if second.len() == 0 {
        assert(first + second =~= first);
    } else {
        lemma_weight_sum_concat(first, second.drop_last(), p);
        assert((first + second).drop_last() =~= first + second.drop_last());
        assert((first + second).last() == second.last());
    }
}

/// The edges of one row leave the node of the row with the sum of the cells,
/// and enter the node of each column with the cell of that column.
pub proof fn lemma_row_degrees(row: Seq<u64>, source: int, upto: int, x: int)
    requires
        0 <= source <= usize::MAX,
        0 <= upto <= row.len(),
        upto <= usize::MAX,
        0 <= x,
    ensures
        out_degree_of(row_arcs(row, source, upto), x) == if x == source {
            sum_to(upto as nat, row_fn(row))
        } else {
            0
        },
        in_degree_of(row_arcs(row, source, upto), x) == if x < upto {
            row[x] as int
        } else {
            0
        },
    decreases upto,
{
    if upto > 0 {
        lemma_row_degrees(row, source, upto - 1, x);
        let before = row_arcs(row, source, upto - 1);
        let e = Edge { source: source as usize, target: (upto - 1) as usize, weight: row[upto - 1] };
        lemma_weight_sum_push(before, e, from_source(x));
        lemma_weight_sum_push(before, e, into_target(x));
    }
}

/// The edges of the first rows of a square matrix leave every node with the
/// sum of its row, and enter it with the sum of its column.
pub proof fn lemma_matrix_degrees(matrix: Seq<Seq<u64>>, upto: int, x: int)
    requires
        matrix.len() <= usize::MAX,
        forall|i: int| 0 <= i < matrix.len() ==> (#[trigger] matrix[i]).len() == matrix.len(),
        0 <= upto <= matrix.len(),
        0 <= x < matrix.len(),
    ensures
        out_degree_of(matrix_arcs(matrix, upto), x) == if x < upto {
            sum_to(matrix.len(), row_fn(matrix[x]))
        } else {
            0
        },
        in_degree_of(matrix_arcs(matrix, upto), x) == sum_to(upto as nat, column_fn(matrix, x)),
    decreases upto,
{
    if upto > 0 {
        lemma_matrix_degrees(matrix, upto - 1, x);
        let row = matrix[upto - 1];
        let before = matrix_arcs(matrix, upto - 1);
        let added = row_arcs(row, upto - 1, row.len() as int);
        lemma_row_degrees(row, upto - 1, row.len() as int, x);
        lemma_weight_sum_concat(before, added, from_source(x));
        lemma_weight_sum_concat(before, added, into_target(x));
    }
}

/// A symmetric weight matrix gives a graph in which every node takes in as
/// much weight as it sends out.
pub proof fn lemma_symmetric_matrix_is_balanced(matrix: Seq<Seq<u64>>)
    requires
        matrix.len() <= usize::MAX,
        symmetric(matrix),
    ensures
        balanced(matrix_arcs(matrix, matrix.len() as int), matrix.len()),
{
    let n = matrix.len();
    let edges = matrix_arcs(matrix, n as int);
    assert forall|x: int| 0 <= x < n implies in_degree_of(edges, x) == #[trigger] out_degree_of(edges, x) by {
        lemma_matrix_degrees(matrix, n as int, x);
        assert forall|j: int| 0 <= j < n implies #[trigger] row_fn(matrix[x])(j) == column_fn(matrix, x)(j) by {
            assert(matrix[x][j] == matrix[j][x]);
        }
        lemma_sum_to_eq(n, row_fn(matrix[x]), column_fn(matrix, x));
    }
}

} // verus!
