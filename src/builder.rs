//! Filling a graph from rows of integers: a header `[nodes, edges]`, then one
//! row `[a, b, weight]` per edge with 1-based endpoints.
use vstd::prelude::*;

use crate::model::{apply_calls, lists_edges, Edge, Node, Weight};
use crate::Graph;

verus! {

/// Why a set of rows cannot describe a graph.
#[derive(Debug, Clone, Copy, PartialEq, Eq, Structural)]
pub enum BuildError {
    /// There is no header row.
    EmptyInput,
    /// The header row does not hold exactly two values.
    BadHeader,
    /// The graph cannot hold that many nodes on this machine.
    TooManyNodes,
    /// Fewer edge rows follow the header than it announces.
    MissingRows,
    /// An edge row does not hold exactly three values.
    BadEdgeRow,
    /// An edge row names a node outside `1..=nodes`.
    UnknownNode,
}

/// What is wrong with one edge row, in a graph of `n` nodes.
pub open spec fn row_error(row: Seq<u32>, n: u32) -> Option<BuildError> {
    if row.len() != 3 {
        Some(BuildError::BadEdgeRow)
    } else if row[0] == 0 || row[1] == 0 || row[0] > n || row[1] > n {
        Some(BuildError::UnknownNode)
    } else {
        None
    }
}

/// The first error among the edge rows `rows[1..=k]`.
pub open spec fn rows_error(rows: Seq<Vec<u32>>, k: int, n: u32) -> Option<BuildError>
    decreases k,
{
    if k <= 0 {
        None
    } else {
        match rows_error(rows, k - 1, n) {
            Some(e) => Some(e),
            None => row_error(rows[k]@, n),
        }
    }
}

/// Why `rows` cannot fill a graph of type `G`, if they cannot.
pub open spec fn build_error<G: Graph>(rows: Seq<Vec<u32>>) -> Option<BuildError> {
    if rows.len() == 0 {
        Some(BuildError::EmptyInput)
    } else if rows[0]@.len() != 2 {
        Some(BuildError::BadHeader)
    } else if !G::room_for(rows[0]@[0] as nat) {
        Some(BuildError::TooManyNodes)
    } else if rows.len() - 1 < rows[0]@[1] {
        Some(BuildError::MissingRows)
    } else {
        rows_error(rows, rows[0]@[1] as int, rows[0]@[0])
    }
}

/// The edge writes that the rows ask for, with 0-based endpoints.
pub open spec fn edge_calls(rows: Seq<Vec<u32>>) -> Seq<Edge> {
    Seq::new(
        rows[0]@[1] as nat,
        |k: int|
            (
                (rows[k + 1]@[0] - 1) as Node,
                (rows[k + 1]@[1] - 1) as Node,
                rows[k + 1]@[2],
            ),
    )
}

proof fn lemma_rows_error_prefix(rows: Seq<Vec<u32>>, k: int, n: u32, j: int)
    requires
        rows_error(rows, k, n) is None,
        1 <= j <= k,
    ensures
        row_error(rows[j]@, n) is None,
    decreases k,
{
    if j < k {
        lemma_rows_error_prefix(rows, k - 1, n, j);
    }
}

proof fn lemma_rows_error_stays(rows: Seq<Vec<u32>>, k: int, n: u32, big: int)
    requires
        rows_error(rows, k, n) is Some,
        k <= big,
    ensures
        rows_error(rows, big, n) == rows_error(rows, k, n),
    decreases big - k,
{
    if k < big {
        lemma_rows_error_stays(rows, k, n, big - 1);
    }
}

/// Fills the empty `graph` from `input_data`: the header's node count of
/// nodes, then one edge write per edge row. Nothing is added unless every
/// row the header announces is well-formed.
pub fn fill_graph<G: Graph>(input_data: &[Vec<u32>], graph: &mut G) -> (r: Result<(), BuildError>)
    requires
        old(graph).wf(),
        old(graph).count() == 0,
    ensures
        r matches Err(e) ==> build_error::<G>(input_data@) == Some(e) && *final(graph) == *old(graph),
        r is Ok ==> build_error::<G>(input_data@) is None,
        r is Ok ==> final(graph).wf() && final(graph).count() == input_data@[0]@[0] as nat
            && final(graph).weights() == apply_calls(
            Map::empty(),
            edge_calls(input_data@),
            G::drops_zero_weight(),
        ),
{
    let ghost rows = input_data@;
    if input_data.len() == 0 {
        return Err(BuildError::EmptyInput);
    }
    let head = &input_data[0];
    if head.len() != 2 {
        return Err(BuildError::BadHeader);
    }
    let vertex_count = head[0];
    let edge_count = head[1] as usize;
    if !G::has_room_for(vertex_count) {
        return Err(BuildError::TooManyNodes);
    }
    if input_data.len() - 1 < edge_count {
        return Err(BuildError::MissingRows);
    }
    let mut k: usize = 0;
    while k < edge_count
        invariant
            rows == input_data@,
            rows.len() >= 1,
            rows[0]@.len() == 2,
            vertex_count == rows[0]@[0],
            edge_count == rows[0]@[1],
            edge_count <= rows.len() - 1,
            0 <= k <= edge_count,
            rows_error(rows, k as int, vertex_count) is None,
            G::room_for(vertex_count as nat),
            *graph == *old(graph),
        decreases edge_count - k,
    {
        let row = &input_data[k + 1];
        if row.len() != 3 {
            proof {
                lemma_rows_error_stays(rows, k + 1, vertex_count, edge_count as int);
            }
            return Err(BuildError::BadEdgeRow);
        }
        if row[0] == 0 || row[1] == 0 || row[0] > vertex_count || row[1] > vertex_count {
            proof {
                lemma_rows_error_stays(rows, k + 1, vertex_count, edge_count as int);
            }
            return Err(BuildError::UnknownNode);
        }
        k = k + 1;
    }
    proof {
        graph.lemma_wf_model();
        assert(graph.count() == 0);
        assert forall|p: (Node, Node)| !graph.weights().contains_key(p) by {
            assert(!graph.weights().contains_key((p.0, p.1)));
        }
        assert(graph.weights() =~= Map::<(Node, Node), Weight>::empty());
    }
    let mut i: u32 = 0;
    while i < vertex_count
        invariant
            graph.wf(),
            G::room_for(vertex_count as nat),
            0 <= i <= vertex_count,
            graph.count() == i as nat,
            graph.weights() == Map::<(Node, Node), Weight>::empty(),
        decreases vertex_count - i,
    {
        proof {
            G::lemma_room_for_fewer(vertex_count as nat, i as nat + 1);
        }
        graph.add_node();
        i = i + 1;
    }
    let ghost calls = edge_calls(rows);
    let mut k: usize = 0;
    while k < edge_count
        invariant
            rows == input_data@,
            rows.len() >= 1,
            rows[0]@.len() == 2,
            vertex_count == rows[0]@[0],
            edge_count == rows[0]@[1],
            edge_count <= rows.len() - 1,
            rows_error(rows, edge_count as int, vertex_count) is None,
            calls == edge_calls(rows),
            0 <= k <= edge_count,
            graph.wf(),
            graph.count() == vertex_count as nat,
            graph.weights() == apply_calls(Map::empty(), calls.take(k as int), G::drops_zero_weight()),
        decreases edge_count - k,
    {
        let row = &input_data[k + 1];
        proof {
            lemma_rows_error_prefix(rows, edge_count as int, vertex_count, k + 1);
        }
        graph.add_edge(row[0] - 1, row[1] - 1, row[2]);
        proof {
            assert(calls.take(k + 1).drop_last() =~= calls.take(k as int));
        }
        k = k + 1;
    }
    proof {
        assert(calls.take(edge_count as int) =~= calls);
    }
    Ok(())
}

/// Moves an edge to 1-based endpoints, as the input writes them.
pub open spec fn one_based(e: Edge) -> Edge {
    ((e.0 + 1) as Node, (e.1 + 1) as Node, e.2)
}

/// The graph's edges, each exactly once, with 1-based endpoints.
pub fn report_edges<G: Graph>(graph: &G) -> (r: Vec<Edge>)
    requires
        graph.wf(),
    ensures
        exists|s: Seq<Edge>| lists_edges(s, graph.weights()) && r@ == s.map_values(|e: Edge| one_based(e)),
{
    let all = graph.edges();
    proof {
        graph.lemma_wf_model();
    }
    let mut r: Vec<Edge> = Vec::new();
    let mut i: usize = 0;
    while i < all.len()
        invariant
            graph.wf(),
            lists_edges(all@, graph.weights()),
            graph.count() <= u32::MAX,
            crate::model::within(graph.weights(), graph.count()),
            0 <= i <= all@.len(),
            r@ == all@.take(i as int).map_values(|e: Edge| one_based(e)),
        decreases all@.len() - i,
    {
        let e = all[i];
        assert(graph.weights().contains_key((e.0, e.1)));
        r.push((e.0 + 1, e.1 + 1, e.2));
        proof {
            assert(r@ =~= all@.take(i + 1).map_values(|e: Edge| one_based(e)));
        }
        i = i + 1;
    }
    proof {
        assert(all@.take(all@.len() as int) =~= all@);
    }
    r
}

} // verus!
