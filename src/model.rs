//! The mathematical model shared by both graph representations.
use vstd::prelude::*;

verus! {

/// Node identifiers: dense, zero-based, assigned in increasing order.
pub type Node = u32;

/// Edge weights; zero doubles as "no edge" in the matrix representation.
pub type Weight = u32;

/// An undirected edge: two endpoints and a weight.
pub type Edge = (Node, Node, Weight);

/// Each pair is present in both orientations, with the same weight.
pub open spec fn symmetric(m: Map<(Node, Node), Weight>) -> bool {
    forall|a: Node, b: Node| #[trigger]
        m.contains_key((a, b)) ==> m.contains_key((b, a)) && m[(b, a)] == m[(a, b)]
}

/// Every endpoint is one of the `n` nodes.
pub open spec fn within(m: Map<(Node, Node), Weight>, n: nat) -> bool {
    forall|a: Node, b: Node| #[trigger] m.contains_key((a, b)) ==> a < n && b < n
}

/// The weight map after writing `w` on the pair `a`, `b`; a representation
/// that drops zero weights erases the pair instead.
pub open spec fn edge_update(
    m: Map<(Node, Node), Weight>,
    a: Node,
    b: Node,
    w: Weight,
    drop_zero: bool,
) -> Map<(Node, Node), Weight> {
    if drop_zero && w == 0 {
        m.remove((a, b)).remove((b, a))
    } else {
        m.insert((a, b), w).insert((b, a), w)
    }
}

/// The weights after a sequence of edge writes, in order.
pub open spec fn apply_calls(
    m: Map<(Node, Node), Weight>,
    calls: Seq<Edge>,
    drop_zero: bool,
) -> Map<(Node, Node), Weight>
    decreases calls.len(),
{
    if calls.len() == 0 {
        m
    } else {
        let c = calls.last();
        edge_update(apply_calls(m, calls.drop_last(), drop_zero), c.0, c.1, c.2, drop_zero)
    }
}

pub open spec fn weight_of(m: Map<(Node, Node), Weight>, a: Node, b: Node) -> Option<Weight> {
    if m.contains_key((a, b)) {
        Some(m[(a, b)])
    } else {
        None
    }
}

/// The edges of `m` that touch node `a`.
pub open spec fn incident(m: Map<(Node, Node), Weight>, a: Node) -> Map<(Node, Node), Weight> {
    Map::new(|p: (Node, Node)| m.contains_key(p) && (p.0 == a || p.1 == a), |p: (Node, Node)| m[p])
}

/// Edge `e` joins `a` and `b`, in either orientation.
pub open spec fn same_pair(e: Edge, a: Node, b: Node) -> bool {
    (e.0 == a && e.1 == b) || (e.0 == b && e.1 == a)
}

/// `s` lists each edge of the symmetric map `m` exactly once, in either
/// orientation and with its weight.
pub open spec fn lists_edges(s: Seq<Edge>, m: Map<(Node, Node), Weight>) -> bool {
    &&& forall|i: int|
        0 <= i < s.len() ==> m.contains_key((#[trigger] s[i].0, s[i].1)) && m[(s[i].0, s[i].1)]
            == s[i].2
    &&& forall|a: Node, b: Node| #[trigger]
        m.contains_key((a, b)) ==> exists|i: int| 0 <= i < s.len() && same_pair(s[i], a, b)
    &&& forall|i: int, j: int|
        0 <= i < j < s.len() ==> !same_pair(#[trigger] s[i], #[trigger] s[j].0, s[j].1)
}

pub fn same_pair_exec(e: Edge, a: Node, b: Node) -> (r: bool)
    ensures
        r == same_pair(e, a, b),
{
    (e.0 == a && e.1 == b) || (e.0 == b && e.1 == a)
}

} // verus!
