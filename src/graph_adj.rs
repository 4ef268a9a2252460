//! Adjacency-list graph: for each node, the list of edges that leave it.
use vstd::prelude::*;

use crate::model::{edge_update, same_pair, symmetric, within, Edge, Node, Weight};
use crate::Graph;

verus! {

/// The targets of an incidence list, each with its weight.
pub open spec fn row_map(s: Seq<Edge>) -> Map<Node, Weight> {
    Map::new(
        |y: Node| exists|i: int| 0 <= i < s.len() && s[i].1 == y,
        |y: Node| s[choose|i: int| 0 <= i < s.len() && s[i].1 == y].2,
    )
}

/// An incidence list of node `x`: every entry leaves `x`, and no target
/// appears twice.
pub open spec fn row_ok(s: Seq<Edge>, x: Node) -> bool {
    &&& forall|i: int| 0 <= i < s.len() ==> #[trigger] s[i].0 == x
    &&& forall|i: int, j: int| 0 <= i < j < s.len() ==> #[trigger] s[i].1 != #[trigger] s[j].1
}

proof fn lemma_row_map_at(s: Seq<Edge>, x: Node, i: int)
    requires
        row_ok(s, x),
        0 <= i < s.len(),
    ensures
        row_map(s).contains_key(s[i].1),
        row_map(s)[s[i].1] == s[i].2,
{
    let y = s[i].1;
    assert(row_map(s).contains_key(y));
    let j = choose|j: int| 0 <= j < s.len() && s[j].1 == y;
    if j < i {
        assert(s[j].1 != s[i].1);
    } else if i < j {
        assert(s[i].1 != s[j].1);
    }
}

/// Sets the weight of the entry from `x` to `y`, appending one if there is
/// none.
fn upsert(list: &mut Vec<Edge>, x: Node, y: Node, w: Weight)
    requires
        row_ok(old(list)@, x),
    ensures
        row_ok(final(list)@, x),
        row_map(final(list)@) == row_map(old(list)@).insert(y, w),
{
    let ghost s = list@;
    let mut i: usize = 0;
    while i < list.len() && list[i].1 != y
        invariant
            list@ == s,
            row_ok(s, x),
            0 <= i <= s.len(),
            forall|j: int| 0 <= j < i ==> #[trigger] s[j].1 != y,
        decreases s.len() - i,
    {
        i = i + 1;
    }
    if i < list.len() {
        list[i] = (x, y, w);
        proof {
            let t = list@;
            assert(t == s.update(i as int, (x, y, w)));
            assert forall|j: int, k: int| 0 <= j < k < t.len() implies #[trigger] t[j].1
                != #[trigger] t[k].1 by {
                assert(s[j].1 != s[k].1);
            }
            assert(row_ok(t, x));
            assert forall|z: Node| #[trigger] row_map(t).contains_key(z) == row_map(s).insert(
                y,
                w,
            ).contains_key(z) by {
                if z != y && row_map(s).contains_key(z) {
                    let j = choose|j: int| 0 <= j < s.len() && s[j].1 == z;
                    assert(t[j].1 == z);
                }
                if z == y {
                    assert(t[i as int].1 == y);
                }
                if row_map(t).contains_key(z) && z != y {
                    let j = choose|j: int| 0 <= j < t.len() && t[j].1 == z;
                    assert(t[j] == s[j]);
                }
            }
            assert forall|z: Node| #[trigger] row_map(t).contains_key(z) implies row_map(t)[z]
                == row_map(s).insert(y, w)[z] by {
                let j = choose|j: int| 0 <= j < t.len() && t[j].1 == z;
                lemma_row_map_at(t, x, j);
                if z != y {
                    assert(t[j] == s[j]);
                    lemma_row_map_at(s, x, j);
                }
            }
            assert(row_map(t) =~= row_map(s).insert(y, w));
        }
        return;
    }
    list.push((x, y, w));
    proof {
        let t = list@;
        assert(t == s.push((x, y, w)));
        assert forall|j: int| 0 <= j < t.len() implies #[trigger] t[j].0 == x by {
            if j < s.len() {
                assert(t[j] == s[j]);
            }
        }
        assert forall|j: int, k: int| 0 <= j < k < t.len() implies #[trigger] t[j].1
            != #[trigger] t[k].1 by {
            assert(t[j] == s[j]);
            if k < s.len() {
                assert(t[k] == s[k]);
                assert(s[j].1 != s[k].1);
            }
        }
        assert(row_ok(t, x));
        assert forall|z: Node| #[trigger] row_map(t).contains_key(z) == row_map(s).insert(
            y,
            w,
        ).contains_key(z) by {
            if row_map(s).contains_key(z) {
                let j = choose|j: int| 0 <= j < s.len() && s[j].1 == z;
                assert(t[j] == s[j]);
            }
            if z == y {
                assert(t[s.len() as int].1 == y);
            }
            if row_map(t).contains_key(z) && z != y {
                let j = choose|j: int| 0 <= j < t.len() && t[j].1 == z;
                assert(t[j] == s[j]);
            }
        }
        assert forall|z: Node| #[trigger] row_map(t).contains_key(z) implies row_map(t)[z]
            == row_map(s).insert(y, w)[z] by {
            let j = choose|j: int| 0 <= j < t.len() && t[j].1 == z;
            lemma_row_map_at(t, x, j);
            if z != y {
                assert(t[j] == s[j]);
                lemma_row_map_at(s, x, j);
            }
        }
        assert(row_map(t) =~= row_map(s).insert(y, w));
    }
}

/// Appends to `r` the entries of the incidence list `s` of node `x` whose
/// source is at most their target, so that each edge is listed from one side
/// only.
fn collect_forward(s: &Vec<Edge>, x: Node, r: &mut Vec<Edge>)
    requires
        row_ok(s@, x),
        forall|k: int| 0 <= k < old(r)@.len() ==> #[trigger] old(r)@[k].0 < x,
        forall|i: int, j: int|
            0 <= i < j < old(r)@.len() ==> !same_pair(#[trigger] old(r)@[i], #[trigger] old(r)@[j].0, old(r)@[j].1),
    ensures
        old(r)@.len() <= final(r)@.len(),
        forall|k: int| 0 <= k < old(r)@.len() ==> #[trigger] final(r)@[k] == old(r)@[k],
        forall|k: int|
            old(r)@.len() <= k < final(r)@.len() ==> #[trigger] final(r)@[k].0 == x && final(r)@[k].0
                <= final(r)@[k].1 && row_map(s@).contains_key(final(r)@[k].1) && row_map(s@)[final(r)@[k].1]
                == final(r)@[k].2,
        forall|y: Node|
            x <= y && #[trigger] row_map(s@).contains_key(y) ==> exists|k: int|
                old(r)@.len() <= k < final(r)@.len() && final(r)@[k].0 == x && final(r)@[k].1 == y,
        forall|i: int, j: int|
            0 <= i < j < final(r)@.len() ==> !same_pair(#[trigger] final(r)@[i], #[trigger] final(r)@[j].0, final(r)@[j].1),
{
    let ghost r0 = r@;
    let ghost mut idx: Seq<int> = Seq::empty();
    let mut i: usize = 0;
    while i < s.len()
        invariant
            row_ok(s@, x),
            0 <= i <= s@.len(),
            r@.len() == r0.len() + idx.len(),
            forall|k: int| 0 <= k < r0.len() ==> #[trigger] r@[k] == r0[k],
            forall|k: int| 0 <= k < r0.len() ==> #[trigger] r0[k].0 < x,
            forall|k: int|
                0 <= k < idx.len() ==> 0 <= #[trigger] idx[k] < i && s@[idx[k]].0 <= s@[idx[k]].1
                    && r@[r0.len() + k] == s@[idx[k]],
            forall|j: int|
                0 <= j < i && s@[j].0 <= s@[j].1 ==> exists|k: int|
                    0 <= k < idx.len() && idx[k] == j,
            forall|a: int, b: int|
                0 <= a < b < r@.len() ==> !same_pair(#[trigger] r@[a], #[trigger] r@[b].0, r@[b].1),
        decreases s@.len() - i,
    {
        let e = s[i];
        if e.0 <= e.1 {
            proof {
                assert forall|k: int| 0 <= k < r@.len() implies !same_pair(#[trigger] r@[k], e.0, e.1) by {
                    if k < r0.len() {
                        assert(r@[k] == r0[k]);
                        assert(r0[k].0 < x);
                    } else {
                        let j = idx[k - r0.len()];
                        assert(s@[j].1 != s@[i as int].1);
                    }
                }
            }
            let ghost before = r@;
            let ghost old_idx = idx;
            r.push(e);
            proof {
                idx = idx.push(i as int);
                assert forall|k: int| 0 <= k < r0.len() implies #[trigger] r@[k] == r0[k] by {
                    assert(r@[k] == before[k]);
                }
                assert forall|k: int| 0 <= k < idx.len() implies 0 <= #[trigger] idx[k] < i + 1 && s@[idx[k]].0
                    <= s@[idx[k]].1 && r@[r0.len() + k] == s@[idx[k]] by {
                    if k < old_idx.len() {
                        assert(idx[k] == old_idx[k]);
                        assert(r@[r0.len() + k] == before[r0.len() + k]);
                    }
                }
                assert forall|j: int| 0 <= j < i + 1 && s@[j].0 <= s@[j].1 implies exists|k: int|
                    0 <= k < idx.len() && idx[k] == j by {
                    if j == i {
                        assert(idx[old_idx.len() as int] == j);
                    } else {
                        let k = choose|k: int| 0 <= k < old_idx.len() && old_idx[k] == j;
                        assert(idx[k] == j);
                    }
                }
            }
        }
        i = i + 1;
    }
    proof {
        assert forall|k: int| r0.len() <= k < r@.len() implies #[trigger] r@[k].0 == x && r@[k].0
            <= r@[k].1 && row_map(s@).contains_key(r@[k].1) && row_map(s@)[r@[k].1] == r@[k].2 by {
            let j = idx[k - r0.len()];
            lemma_row_map_at(s@, x, j);
        }
        assert forall|y: Node| x <= y && #[trigger] row_map(s@).contains_key(y) implies exists|k: int|
            r0.len() <= k < r@.len() && r@[k].0 == x && r@[k].1 == y by {
            let j = choose|j: int| 0 <= j < s@.len() && s@[j].1 == y;
            assert(s@[j].0 == x);
            let k = choose|k: int| 0 <= k < idx.len() && idx[k] == j;
            assert(r@[r0.len() + k] == s@[j]);
        }
    }
}

/// An undirected weighted graph stored as one incidence list per node; each
/// edge is recorded under both of its endpoints.
pub struct GraphAdj {
    pub(crate) node_edges: Vec<Vec<Edge>>,
}

impl GraphAdj {
    pub open(crate) spec fn list(&self, a: int) -> Seq<Edge> {
        self.node_edges@[a]@
    }

    /// An empty graph.
    pub fn new() -> (r: Self)
        ensures
            r.wf(),
            r.count() == 0,
            r.weights() == Map::<(Node, Node), Weight>::empty(),
    {
        let r = GraphAdj { node_edges: Vec::new() };
        assert(r.weights() =~= Map::<(Node, Node), Weight>::empty());
        r
    }
}

impl Default for GraphAdj {
    fn default() -> (r: Self)
        ensures
            r.wf(),
            r.count() == 0,
            r.weights() == Map::<(Node, Node), Weight>::empty(),
    {
        GraphAdj::new()
    }
}

impl Graph for GraphAdj {
    open(crate) spec fn wf(&self) -> bool {
        &&& self.node_edges@.len() <= u32::MAX
        &&& forall|a: int| 0 <= a < self.node_edges@.len() ==> row_ok(#[trigger] self.list(a), a as Node)
        &&& symmetric(self.weights())
        &&& within(self.weights(), self.count())
    }

    open(crate) spec fn count(&self) -> nat {
        self.node_edges@.len()
    }

    open(crate) spec fn weights(&self) -> Map<(Node, Node), Weight> {
        Map::new(
            |p: (Node, Node)|
                p.0 < self.node_edges@.len() && row_map(self.list(p.0 as int)).contains_key(p.1),
            |p: (Node, Node)| row_map(self.list(p.0 as int))[p.1],
        )
    }

    open spec fn drops_zero_weight() -> bool {
        false
    }

    open spec fn room_for(n: nat) -> bool {
        n <= u32::MAX
    }

    proof fn lemma_room_for_fewer(n: nat, k: nat) {
    }

    fn has_room_for(n: u32) -> (r: bool) {
        true
    }

    proof fn lemma_wf_model(&self) {
    }

    fn add_node(&mut self) -> (r: Node) {
        let ghost old_self = *self;
        let n = self.node_edges.len();
        self.node_edges.push(Vec::new());
        proof {
            assert forall|a: int| 0 <= a < self.node_edges@.len() implies row_ok(
                #[trigger] self.list(a),
                a as Node,
            ) by {
                if a < n {
                    assert(self.list(a) == old_self.list(a));
                }
            }
            assert(row_map(self.list(n as int)) =~= Map::<Node, Weight>::empty());
            assert forall|p: (Node, Node)| #[trigger] self.weights().contains_key(p)
                == old_self.weights().contains_key(p) by {
                if p.0 < n {
                    assert(self.list(p.0 as int) == old_self.list(p.0 as int));
                }
            }
            assert forall|p: (Node, Node)| #[trigger] self.weights().contains_key(p) implies
                self.weights()[p] == old_self.weights()[p] by {
                assert(self.list(p.0 as int) == old_self.list(p.0 as int));
            }
            assert(self.weights() =~= old_self.weights());
        }
        n as Node
    }

    fn add_edge(&mut self, a: Node, b: Node, weight: Weight) {
        let ghost old_self = *self;
        assert(row_ok(self.list(a as int), a));
        upsert(&mut self.node_edges[a as usize], a, b, weight);
        let ghost mid = *self;
        assert(row_ok(self.list(b as int), b)) by {
            if a != b {
                assert(self.list(b as int) == old_self.list(b as int));
            }
        }
        upsert(&mut self.node_edges[b as usize], b, a, weight);
        proof {
            let n = self.node_edges@.len();
            assert(n <= u32::MAX);
            let m = edge_update(old_self.weights(), a, b, weight, false);
            assert forall|x: int| 0 <= x < n implies row_ok(#[trigger] self.list(x), x as Node) by {
                if x != a && x != b {
                    assert(self.list(x) == old_self.list(x));
                } else if x == a && x != b {
                    assert(self.list(x) == mid.list(x));
                }
            }
            assert forall|x: int| 0 <= x < n implies #[trigger] row_map(self.list(x)) == if x == a
                && x == b {
                row_map(old_self.list(x)).insert(b, weight).insert(a, weight)
            } else if x == a {
                row_map(old_self.list(x)).insert(b, weight)
            } else if x == b {
                row_map(old_self.list(x)).insert(a, weight)
            } else {
                row_map(old_self.list(x))
            } by {
                if x != a && x != b {
                    assert(self.list(x) == old_self.list(x));
                } else if x == a && x != b {
                    assert(self.list(x) == mid.list(x));
                } else if x == b && x != a {
                    assert(mid.list(x) == old_self.list(x));
                }
            }
            assert forall|p: (Node, Node)| #[trigger] self.weights().contains_key(p)
                == m.contains_key(p) by {
                if p.0 < n {
                    assert(row_map(self.list(p.0 as int)) == row_map(self.list(p.0 as int)));
                }
            }
            assert forall|p: (Node, Node)| #[trigger] self.weights().contains_key(p) implies
                self.weights()[p] == m[p] by {
                assert(row_map(self.list(p.0 as int)) == row_map(self.list(p.0 as int)));
            }
            assert(self.weights() =~= m);
        }
    }

        fn edges(&self) -> (r: Vec<Edge>) {
        let n = self.node_edges.len();
        let mut r: Vec<Edge> = Vec::new();
        let mut row: usize = 0;
        while row < n
            invariant
                self.wf(),
                n == self.node_edges@.len(),
                0 <= row <= n,
                forall|k: int|
                    0 <= k < r@.len() ==> self.weights().contains_key((#[trigger] r@[k].0, r@[k].1))
                        && self.weights()[(r@[k].0, r@[k].1)] == r@[k].2 && r@[k].0 <= r@[k].1
                        && r@[k].0 < row,
                forall|x: Node, y: Node|
                    x < row && x <= y && #[trigger] self.weights().contains_key((x, y)) ==> exists|
                        k: int,
                    | 0 <= k < r@.len() && r@[k].0 == x && r@[k].1 == y,
                forall|i: int, j: int|
                    0 <= i < j < r@.len() ==> !same_pair(#[trigger] r@[i], #[trigger] r@[j].0, r@[j].1),
            decreases n - row,
        {
            let ghost s = self.list(row as int);
            let ghost before = r@;
            assert(row_ok(s, row as Node));
            collect_forward(&self.node_edges[row], row as Node, &mut r);
            proof {
                assert forall|k: int| 0 <= k < r@.len() implies self.weights().contains_key(
                    (#[trigger] r@[k].0, r@[k].1),
                ) && self.weights()[(r@[k].0, r@[k].1)] == r@[k].2 && r@[k].0 <= r@[k].1
                    && r@[k].0 < row + 1 by {
                    if k < before.len() {
                        assert(r@[k] == before[k]);
                    }
                }
                assert forall|x: Node, y: Node|
                    x < row && x <= y && #[trigger] self.weights().contains_key((x, y)) implies exists|
                    k: int,
                | 0 <= k < r@.len() && r@[k].0 == x && r@[k].1 == y by {
                    let k = choose|k: int| 0 <= k < before.len() && before[k].0 == x && before[k].1 == y;
                    assert(r@[k] == before[k]);
                }
            }
            proof {
                assert forall|x: Node, y: Node|
                    x < row + 1 && x <= y && #[trigger] self.weights().contains_key((x, y)) implies exists|
                    k: int,
                | 0 <= k < r@.len() && r@[k].0 == x && r@[k].1 == y by {
                    if x == row {
                        assert(row_map(s).contains_key(y));
                    }
                }
            }
            row = row + 1;
        }
        proof {
            let m = self.weights();
            assert forall|a: Node, b: Node| #[trigger] m.contains_key((a, b)) implies exists|i: int|
                0 <= i < r@.len() && same_pair(r@[i], a, b) by {
                if a <= b {
                    let k = choose|k: int| 0 <= k < r@.len() && r@[k].0 == a && r@[k].1 == b;
                    assert(same_pair(r@[k], a, b));
                } else {
                    assert(m.contains_key((b, a)));
                    let k = choose|k: int| 0 <= k < r@.len() && r@[k].0 == b && r@[k].1 == a;
                    assert(same_pair(r@[k], a, b));
                }
            }
        }
        r
    }

    fn node_count(&self) -> (r: usize) {
        self.node_edges.len()
    }
}

} // verus!
