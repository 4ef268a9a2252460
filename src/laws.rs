//! Properties that relate several operations of the graphs.
use vstd::prelude::*;

use crate::builder::edge_calls;
use crate::graph_adj::GraphAdj;
use crate::graph_mat::GraphMat;
use crate::model::{apply_calls, edge_update, lists_edges, same_pair, symmetric, weight_of, Edge, Node, Weight};
use crate::Graph;

verus! {

/// After an edge of positive weight is written, it reads back with that
/// weight from both of its endpoints.
pub proof fn lemma_edge_weight_symmetric(
    m: Map<(Node, Node), Weight>,
    a: Node,
    b: Node,
    w: Weight,
    drop_zero: bool,
)
    requires
        w >= 1,
    ensures
        weight_of(edge_update(m, a, b, w, drop_zero), a, b) == Some(w),
        weight_of(edge_update(m, a, b, w, drop_zero), b, a) == Some(w),
{
}

/// Writing the same pair twice leaves what the second write alone would
/// leave: one edge, with the second weight.
pub proof fn lemma_edge_upsert(
    m: Map<(Node, Node), Weight>,
    a: Node,
    b: Node,
    w1: Weight,
    w2: Weight,
    drop_zero: bool,
)
    ensures
        edge_update(edge_update(m, a, b, w1, drop_zero), a, b, w2, drop_zero) == edge_update(
            m,
            a,
            b,
            w2,
            drop_zero,
        ),
        w2 >= 1 || !drop_zero ==> weight_of(
            edge_update(edge_update(m, a, b, w1, drop_zero), a, b, w2, drop_zero),
            a,
            b,
        ) == Some(w2),
{
    assert(edge_update(edge_update(m, a, b, w1, drop_zero), a, b, w2, drop_zero) =~= edge_update(
        m,
        a,
        b,
        w2,
        drop_zero,
    ));
}

/// Without zero weights, dropping them or not makes no difference.
proof fn lemma_calls_agree(m: Map<(Node, Node), Weight>, calls: Seq<Edge>)
    requires
        forall|k: int| 0 <= k < calls.len() ==> #[trigger] calls[k].2 != 0,
    ensures
        apply_calls(m, calls, true) == apply_calls(m, calls, false),
    decreases calls.len(),
{
    if calls.len() > 0 {
        let init = calls.drop_last();
        assert forall|k: int| 0 <= k < init.len() implies #[trigger] init[k].2 != 0 by {
            assert(init[k] == calls[k]);
        }
        lemma_calls_agree(m, init);
        assert(calls.last() == calls[calls.len() - 1]);
    }
}

/// Built from the same rows, with no edge of weight zero, the list and the
/// matrix representations hold the same weighted edges.
pub proof fn lemma_representations_agree(rows: Seq<Vec<u32>>)
    requires
        forall|k: int| 0 <= k < edge_calls(rows).len() ==> #[trigger] edge_calls(rows)[k].2 != 0,
    ensures
        apply_calls(Map::empty(), edge_calls(rows), GraphMat::drops_zero_weight()) == apply_calls(
            Map::empty(),
            edge_calls(rows),
            GraphAdj::drops_zero_weight(),
        ),
{
    lemma_calls_agree(Map::empty(), edge_calls(rows));
}

/// `s` holds edge `e`, in either orientation.
pub open spec fn holds_edge(s: Seq<Edge>, e: Edge) -> bool {
    exists|j: int| 0 <= j < s.len() && same_pair(s[j], e.0, e.1) && s[j].2 == e.2
}

/// Two listings of one edge map hold the same edges, up to order and
/// orientation.
pub proof fn lemma_listings_agree(s1: Seq<Edge>, s2: Seq<Edge>, m: Map<(Node, Node), Weight>)
    requires
        lists_edges(s1, m),
        lists_edges(s2, m),
        symmetric(m),
    ensures
        forall|i: int| 0 <= i < s1.len() ==> holds_edge(s2, #[trigger] s1[i]),
        forall|j: int| 0 <= j < s2.len() ==> holds_edge(s1, #[trigger] s2[j]),
{
    assert forall|i: int| 0 <= i < s1.len() implies holds_edge(s2, #[trigger] s1[i]) by {
        let (a, b) = (s1[i].0, s1[i].1);
        assert(m.contains_key((a, b)));
        let j = choose|j: int| 0 <= j < s2.len() && same_pair(s2[j], a, b);
        assert(m.contains_key((s2[j].0, s2[j].1)));
    }
    assert forall|j: int| 0 <= j < s2.len() implies holds_edge(s1, #[trigger] s2[j]) by {
        let (a, b) = (s2[j].0, s2[j].1);
        assert(m.contains_key((a, b)));
        let i = choose|i: int| 0 <= i < s1.len() && same_pair(s1[i], a, b);
        assert(m.contains_key((s1[i].0, s1[i].1)));
    }
}

/// Starting from no edges, a pair has no weight exactly when no write ever
/// named it, in either orientation; where zero weights are dropped, this
/// holds when no write has weight zero.
pub proof fn lemma_absent_iff_never_written(calls: Seq<Edge>, drop_zero: bool, a: Node, b: Node)
    requires
        drop_zero ==> forall|k: int| 0 <= k < calls.len() ==> #[trigger] calls[k].2 != 0,
    ensures
        weight_of(apply_calls(Map::empty(), calls, drop_zero), a, b) is None <==> !exists|k: int|
            0 <= k < calls.len() && same_pair(#[trigger] calls[k], a, b),
    decreases calls.len(),
{
    if calls.len() > 0 {
        let init = calls.drop_last();
        assert forall|k: int| 0 <= k < init.len() implies #[trigger] init[k] == calls[k] by {}
        lemma_absent_iff_never_written(init, drop_zero, a, b);
        let c = calls[calls.len() - 1];
        assert(calls.last() == c);
        if drop_zero {
            assert(c.2 != 0);
        }
        if same_pair(c, a, b) {
            assert(same_pair(calls[calls.len() - 1], a, b));
        } else if exists|k: int| 0 <= k < calls.len() && same_pair(#[trigger] calls[k], a, b) {
            let k = choose|k: int| 0 <= k < calls.len() && same_pair(#[trigger] calls[k], a, b);
            assert(k < init.len());
            assert(same_pair(init[k], a, b));
        }
    }
}

} // verus!
