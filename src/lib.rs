//! Undirected weighted graphs in two representations (adjacency lists and an
//! adjacency matrix) behind one trait, and a builder that fills either from
//! rows of integers.
use vstd::prelude::*;

pub mod builder;
pub mod graph_adj;
pub mod graph_mat;
pub mod laws;
pub mod model;



pub use builder::{fill_graph, report_edges, BuildError};
pub use graph_adj::GraphAdj;
pub use graph_mat::GraphMat;
pub use model::{Edge, Node, Weight};

verus! {

use crate::model::{edge_update, incident, lists_edges, same_pair, same_pair_exec, symmetric, weight_of, within};

/// What every graph representation offers.
///
/// A graph is modelled by its node count and by a map from ordered pairs of
/// nodes to weights that holds each undirected edge in both orientations.
pub trait Graph: Sized {
    /// The representation's internal invariant.
    spec fn wf(&self) -> bool;

    /// Number of nodes created so far.
    spec fn count(&self) -> nat;

    /// Weight of each edge, keyed by both orientations of its endpoints.
    spec fn weights(&self) -> Map<(Node, Node), Weight>;

    /// Whether writing weight zero erases the edge instead of storing it.
    spec fn drops_zero_weight() -> bool;

    /// Whether the representation can hold `n` nodes within the machine's
    /// integer widths.
    spec fn room_for(n: nat) -> bool;

    /// Room for some number of nodes means room for any fewer.
    proof fn lemma_room_for_fewer(n: nat, k: nat)
        requires
            Self::room_for(n),
            k <= n,
        ensures
            Self::room_for(k),
    ;

    fn has_room_for(n: u32) -> (r: bool)
        ensures
            r == Self::room_for(n as nat),
    ;

    /// A well-formed graph has a symmetric weight map over its own nodes.
    proof fn lemma_wf_model(&self)
        requires
            self.wf(),
        ensures
            symmetric(self.weights()),
            within(self.weights(), self.count()),
            self.count() <= u32::MAX,
    ;

    /// Adds a node and returns its identifier, the previous node count.
    fn add_node(&mut self) -> (r: Node)
        requires
            old(self).wf(),
            Self::room_for(old(self).count() + 1),
        ensures
            final(self).wf(),
            r as nat == old(self).count(),
            final(self).count() == old(self).count() + 1,
            final(self).weights() == old(self).weights(),
    ;

    /// Records the undirected edge between `a` and `b`, replacing any earlier
    /// weight of that pair.
    fn add_edge(&mut self, a: Node, b: Node, weight: Weight)
        requires
            old(self).wf(),
            a < old(self).count(),
            b < old(self).count(),
        ensures
            final(self).wf(),
            final(self).count() == old(self).count(),
            final(self).weights() == edge_update(
                old(self).weights(),
                a,
                b,
                weight,
                Self::drops_zero_weight(),
            ),
    ;

    /// Every edge exactly once, in either orientation.
    fn edges(&self) -> (r: Vec<Edge>)
        requires
            self.wf(),
        ensures
            lists_edges(r@, self.weights()),
    ;

    /// Number of nodes created so far.
    fn node_count(&self) -> (r: usize)
        requires
            self.wf(),
        ensures
            r as nat == self.count(),
    ;

    /// The edges that touch `a`, each exactly once.
    fn get_node_edges(&self, a: Node) -> (r: Vec<Edge>)
        requires
            self.wf(),
        ensures
            lists_edges(r@, incident(self.weights(), a)),
    {
        let all = self.edges();
        let mut r: Vec<Edge> = Vec::new();
        let mut i: usize = 0;
        while i < all.len()
            invariant
                self.wf(),
                lists_edges(all@, self.weights()),
                0 <= i <= all@.len(),
                forall|k: int| 0 <= k < r@.len() ==> (#[trigger] r@[k].0 == a || r@[k].1 == a),
                forall|k: int| 0 <= k < r@.len() ==> exists|j: int| 0 <= j < i && all@[j] == #[trigger] r@[k],
                forall|j: int|
                    0 <= j < i && (all@[j].0 == a || all@[j].1 == a) ==> exists|k: int|
                        0 <= k < r@.len() && r@[k] == #[trigger] all@[j],
                forall|k1: int, k2: int|
                    0 <= k1 < k2 < r@.len() ==> !same_pair(#[trigger] r@[k1], #[trigger] r@[k2].0, r@[k2].1),
            decreases all@.len() - i,
        {
            let e = all[i];
            if e.0 == a || e.1 == a {
                proof {
                    assert forall|k: int| 0 <= k < r@.len() implies !same_pair(#[trigger] r@[k], e.0, e.1) by {
                        let j = choose|j: int| 0 <= j < i && all@[j] == r@[k];
                        assert(!same_pair(all@[j], all@[i as int].0, all@[i as int].1));
                    }
                }
                let ghost before = r@;
                r.push(e);
                proof {
                    assert forall|j: int|
                        0 <= j < i + 1 && (all@[j].0 == a || all@[j].1 == a) implies exists|k: int|
                        0 <= k < r@.len() && r@[k] == #[trigger] all@[j] by {
                        if j == i {
                            assert(r@[r@.len() - 1] == all@[j]);
                        } else {
                            let k = choose|k: int| 0 <= k < before.len() && before[k] == all@[j];
                            assert(r@[k] == before[k]);
                        }
                    }
                    assert forall|k: int| 0 <= k < r@.len() implies exists|j: int|
                        0 <= j < i + 1 && all@[j] == #[trigger] r@[k] by {
                        if k == before.len() {
                            assert(all@[i as int] == r@[k]);
                        } else {
                            assert(r@[k] == before[k]);
                        }
                    }
                }
            }
            i = i + 1;
        }
        proof {
            let m = self.weights();
            let im = incident(m, a);
            assert forall|x: Node, y: Node| #[trigger] im.contains_key((x, y)) implies exists|k: int|
                0 <= k < r@.len() && same_pair(r@[k], x, y) by {
                let j = choose|j: int| 0 <= j < all@.len() && same_pair(all@[j], x, y);
                let k = choose|k: int| 0 <= k < r@.len() && r@[k] == all@[j];
                assert(same_pair(r@[k], x, y));
            }
        }
        r
    }

    /// The weight of the edge between `a` and `b`, if there is one.
    fn get_edge_weight(&self, a: Node, b: Node) -> (r: Option<Weight>)
        requires
            self.wf(),
        ensures
            r == weight_of(self.weights(), a, b),
    {
        let all = self.edges();
        let mut i: usize = 0;
        while i < all.len()
            invariant
                self.wf(),
                lists_edges(all@, self.weights()),
                0 <= i <= all@.len(),
                forall|j: int| 0 <= j < i ==> !same_pair(#[trigger] all@[j], a, b),
            decreases all@.len() - i,
        {
            let e = all[i];
            if same_pair_exec(e, a, b) {
                proof {
                    self.lemma_wf_model();
                }
                return Some(e.2);
            }
            i = i + 1;
        }
        None
    }
}

} // verus!
