//! Adjacency-matrix graph: one flat, square, symmetric array of weights.
use vstd::prelude::*;

use crate::model::{edge_update, same_pair, symmetric, Edge, Node, Weight};
use crate::Graph;

verus! {

/// Cell (`r`, `c`) of a square matrix of width `n` laid out row by row.
pub open(crate) spec fn cell_of(s: Seq<Weight>, n: int, r: int, c: int) -> Weight {
    s[r * n + c]
}

/// Row-major indices stay below the size of the matrix.
proof fn lemma_cell_index(r: int, c: int, rows: int, n: int)
    requires
        0 <= r < rows,
        0 <= c < n,
    ensures
        0 <= r * n + c < rows * n,
        r * n + c < (r + 1) * n,
{
    assert(0 <= r * n) by (nonlinear_arith)
        requires
            0 <= r,
            0 <= n,
    ;
    assert(r * n + c < (r + 1) * n) by (nonlinear_arith)
        requires
            c < n,
    ;
    assert((r + 1) * n <= rows * n) by (nonlinear_arith)
        requires
            r + 1 <= rows,
            0 <= n,
    ;
}

/// Distinct cells have distinct row-major indices.
proof fn lemma_cell_index_distinct(r1: int, c1: int, r2: int, c2: int, n: int)
    requires
        0 <= r1 < n,
        0 <= c1 < n,
        0 <= r2 < n,
        0 <= c2 < n,
        r1 != r2 || c1 != c2,
    ensures
        r1 * n + c1 != r2 * n + c2,
{
    if r1 < r2 {
        lemma_cell_index(r1, c1, r2, n);
        assert(0 <= r2 * n) by (nonlinear_arith)
            requires
                0 <= r2,
                0 <= n,
        ;
    } else if r2 < r1 {
        lemma_cell_index(r2, c2, r1, n);
        assert(0 <= r1 * n) by (nonlinear_arith)
            requires
                0 <= r1,
                0 <= n,
        ;
    }
}

/// An undirected weighted graph stored as a square matrix of weights, where
/// zero means "no edge".
pub struct GraphMat {
    pub(crate) node_count: usize,
    pub(crate) links: Vec<Weight>,
}

impl GraphMat {
    pub open(crate) spec fn cell(&self, r: int, c: int) -> Weight {
        cell_of(self.links@, self.node_count as int, r, c)
    }

    /// An empty graph.
    pub fn new() -> (r: Self)
        ensures
            r.wf(),
            r.count() == 0,
            r.weights() == Map::<(Node, Node), Weight>::empty(),
    {
        let r = GraphMat { node_count: 0, links: Vec::new() };
        assert(r.weights() =~= Map::<(Node, Node), Weight>::empty());
        r
    }
}

impl Default for GraphMat {
    fn default() -> (r: Self)
        ensures
            r.wf(),
            r.count() == 0,
            r.weights() == Map::<(Node, Node), Weight>::empty(),
    {
        GraphMat::new()
    }
}

impl Graph for GraphMat {
    open(crate) spec fn wf(&self) -> bool {
        &&& self.node_count <= u32::MAX
        &&& self.node_count * self.node_count <= usize::MAX
        &&& self.links@.len() == self.node_count * self.node_count
        &&& forall|r: int, c: int|
            0 <= r < self.node_count && 0 <= c < self.node_count ==> #[trigger] self.cell(r, c)
                == self.cell(c, r)
    }

    open(crate) spec fn count(&self) -> nat {
        self.node_count as nat
    }

    open(crate) spec fn weights(&self) -> Map<(Node, Node), Weight> {
        Map::new(
            |p: (Node, Node)|
                p.0 < self.node_count && p.1 < self.node_count && self.cell(p.0 as int, p.1 as int)
                    != 0,
            |p: (Node, Node)| self.cell(p.0 as int, p.1 as int),
        )
    }

    open spec fn drops_zero_weight() -> bool {
        true
    }

    open spec fn room_for(n: nat) -> bool {
        n <= u32::MAX && n * n <= usize::MAX
    }

    proof fn lemma_room_for_fewer(n: nat, k: nat) {
        assert(k * k <= n * n) by (nonlinear_arith)
            requires
                k <= n,
        ;
    }

    fn has_room_for(n: u32) -> (r: bool) {
        (n as usize).checked_mul(n as usize).is_some()
    }

    proof fn lemma_wf_model(&self) {
        let m = self.weights();
        assert(self.node_count <= u32::MAX);
        assert(self.count() == self.node_count as nat);
        assert(self.count() <= u32::MAX);
        assert forall|a: Node, b: Node| #[trigger] m.contains_key((a, b)) implies a
            < self.node_count && b < self.node_count by {}
        assert forall|a: Node, b: Node| #[trigger] m.contains_key((a, b)) implies m.contains_key(
            (b, a),
        ) && m[(b, a)] == m[(a, b)] by {
            assert(self.cell(a as int, b as int) == self.cell(b as int, a as int));
        }
    }

    fn add_node(&mut self) -> (r: Node) {
        let n = self.node_count;
        let m = n + 1;
        let ghost old_links = self.links@;
        let mut new_links: Vec<Weight> = Vec::new();
        let mut row: usize = 0;
        while row < m
            invariant
                self.wf(),
                n == self.node_count,
                m == n + 1,
                m * m <= usize::MAX,
                old_links == self.links@,
                0 <= row <= m,
                new_links@.len() == row * m,
                forall|r: int, c: int|
                    0 <= r < row && 0 <= c < m ==> #[trigger] cell_of(new_links@, m as int, r, c)
                        == if r < n && c < n {
                        self.cell(r, c)
                    } else {
                        0
                    },
            decreases m - row,
        {
            let mut col: usize = 0;
            while col < m
                invariant
                    self.wf(),
                    n == self.node_count,
                    m == n + 1,
                    m * m <= usize::MAX,
                    0 <= row < m,
                    0 <= col <= m,
                    new_links@.len() == row * m + col,
                    forall|r: int, c: int|
                        0 <= r < row && 0 <= c < m ==> #[trigger] cell_of(new_links@, m as int, r, c)
                            == if r < n && c < n {
                            self.cell(r, c)
                        } else {
                            0
                        },
                    forall|c: int|
                        0 <= c < col ==> #[trigger] cell_of(new_links@, m as int, row as int, c)
                            == if row < n && c < n {
                            self.cell(row as int, c)
                        } else {
                            0
                        },
                decreases m - col,
            {
                let w: Weight = if row < n && col < n {
                    proof {
                        lemma_cell_index(row as int, col as int, n as int, n as int);
                    }
                    self.links[row * n + col]
                } else {
                    0
                };
                proof {
                    lemma_cell_index(row as int, col as int, m as int, m as int);
                }
                let ghost before = new_links@;
                new_links.push(w);
                proof {
                    assert forall|r: int, c: int| 0 <= r < row && 0 <= c < m implies #[trigger] cell_of(
                        new_links@,
                        m as int,
                        r,
                        c,
                    ) == cell_of(before, m as int, r, c) by {
                        lemma_cell_index(r, c, row as int, m as int);
                    }
                    assert forall|c: int| 0 <= c < col + 1 implies #[trigger] cell_of(
                        new_links@,
                        m as int,
                        row as int,
                        c,
                    ) == if row < n && c < n {
                        self.cell(row as int, c)
                    } else {
                        0
                    } by {
                        if c < col {
                            assert(cell_of(new_links@, m as int, row as int, c) == cell_of(
                                before,
                                m as int,
                                row as int,
                                c,
                            ));
                        }
                    }
                }
                col = col + 1;
            }
            assert(row * m + m == (row + 1) * m) by (nonlinear_arith);
            row = row + 1;
        }
        assert(new_links@.len() == m * m);
        let ghost old_self = *self;
        self.links = new_links;
        self.node_count = m;
        proof {
            assert forall|r: int, c: int| 0 <= r < m && 0 <= c < m implies #[trigger] self.cell(r, c)
                == self.cell(c, r) by {
                assert(self.cell(r, c) == cell_of(new_links@, m as int, r, c));
                assert(self.cell(c, r) == cell_of(new_links@, m as int, c, r));
                if r < n && c < n {
                    assert(old_self.cell(r, c) == old_self.cell(c, r));
                }
            }
            assert forall|r: int, c: int| 0 <= r < n && 0 <= c < n implies self.cell(r, c)
                == old_self.cell(r, c) by {
                assert(self.cell(r, c) == cell_of(new_links@, m as int, r, c));
            }
            assert(self.weights() =~= old_self.weights()) by {
                assert forall|p: (Node, Node)| #[trigger] self.weights().contains_key(p)
                    == old_self.weights().contains_key(p) by {
                    if p.0 < m && p.1 < m {
                        assert(self.cell(p.0 as int, p.1 as int) == cell_of(
                            new_links@,
                            m as int,
                            p.0 as int,
                            p.1 as int,
                        ));
                    }
                }
            }
        }
        n as Node
    }

    fn add_edge(&mut self, a: Node, b: Node, weight: Weight) {
        let n = self.node_count;
        proof {
            lemma_cell_index(a as int, b as int, n as int, n as int);
            lemma_cell_index(b as int, a as int, n as int, n as int);
        }
        let ghost old_self = *self;
        let i = a as usize * n + b as usize;
        let j = b as usize * n + a as usize;
        self.links[i] = weight;
        self.links[j] = weight;
        proof {
            assert forall|r: int, c: int|
                0 <= r < n && 0 <= c < n && !(r == a && c == b) && !(r == b && c == a) implies #[trigger] self.cell(r, c)
                == old_self.cell(r, c) by {
                lemma_cell_index_distinct(r, c, a as int, b as int, n as int);
                lemma_cell_index_distinct(r, c, b as int, a as int, n as int);
                lemma_cell_index(r, c, n as int, n as int);
            }
            assert(self.cell(a as int, b as int) == weight);
            assert(self.cell(b as int, a as int) == weight);
            assert forall|r: int, c: int| 0 <= r < n && 0 <= c < n implies #[trigger] self.cell(r, c)
                == self.cell(c, r) by {
                assert(old_self.cell(r, c) == old_self.cell(c, r));
            }
            assert(self.weights() =~= edge_update(old_self.weights(), a, b, weight, true));
        }
    }

    fn edges(&self) -> (r: Vec<Edge>) {
        let n = self.node_count;
        let mut r: Vec<Edge> = Vec::new();
        let mut row: usize = 0;
        while row < n
            invariant
                self.wf(),
                n == self.node_count,
                0 <= row <= n,
                forall|k: int|
                    0 <= k < r@.len() ==> self.weights().contains_key((#[trigger] r@[k].0, r@[k].1))
                        && self.weights()[(r@[k].0, r@[k].1)] == r@[k].2 && r@[k].0 <= r@[k].1
                        && r@[k].0 < row,
                forall|x: Node, y: Node|
                    x < row && x <= y && #[trigger] self.weights().contains_key((x, y)) ==> exists|
                        k: int,
                    | 0 <= k < r@.len() && r@[k].0 == x && r@[k].1 == y,
                forall|i: int, j: int|
                    0 <= i < j < r@.len() ==> !same_pair(#[trigger] r@[i], #[trigger] r@[j].0, r@[j].1),
            decreases n - row,
        {
            let mut col: usize = row;
            while col < n
                invariant
                    self.wf(),
                    n == self.node_count,
                    0 <= row < n,
                    row <= col <= n,
                    forall|k: int|
                        0 <= k < r@.len() ==> self.weights().contains_key(
                            (#[trigger] r@[k].0, r@[k].1),
                        ) && self.weights()[(r@[k].0, r@[k].1)] == r@[k].2 && r@[k].0 <= r@[k].1 && (
                        r@[k].0 < row || (r@[k].0 == row && r@[k].1 < col)),
                    forall|x: Node, y: Node|
                        (x < row || (x == row && y < col)) && x <= y
                            && #[trigger] self.weights().contains_key((x, y)) ==> exists|k: int|
                            0 <= k < r@.len() && r@[k].0 == x && r@[k].1 == y,
                    forall|i: int, j: int|
                        0 <= i < j < r@.len() ==> !same_pair(#[trigger] r@[i], #[trigger] r@[j].0, r@[j].1),
                decreases n - col,
            {
                proof {
                    lemma_cell_index(row as int, col as int, n as int, n as int);
                }
                let w = self.links[row * n + col];
                if w != 0 {
                    let e: Edge = (row as Node, col as Node, w);
                    assert(self.weights().contains_key((e.0, e.1)));
                    let ghost before = r@;
                    r.push(e);
                    proof {
                        assert forall|x: Node, y: Node|
                            (x < row || (x == row && y < col + 1)) && x <= y
                                && #[trigger] self.weights().contains_key((x, y)) implies exists|k: int|
                            0 <= k < r@.len() && r@[k].0 == x && r@[k].1 == y by {
                            if x == row && y == col {
                                assert(r@[r@.len() - 1] == e);
                            } else {
                                let k = choose|k: int| 0 <= k < before.len() && before[k].0 == x && before[k].1 == y;
                                assert(r@[k] == before[k]);
                            }
                        }
                    }
                } else {
                    proof {
                        assert forall|x: Node, y: Node|
                            (x < row || (x == row && y < col + 1)) && x <= y
                                && #[trigger] self.weights().contains_key((x, y)) implies exists|k: int|
                            0 <= k < r@.len() && r@[k].0 == x && r@[k].1 == y by {
                            if x == row && y == col {
                                assert(false);
                            }
                        }
                    }
                }
                col = col + 1;
            }
            row = row + 1;
        }
        proof {
            let m = self.weights();
            self.lemma_wf_model();
            assert forall|a: Node, b: Node| #[trigger] m.contains_key((a, b)) implies exists|i: int|
                0 <= i < r@.len() && same_pair(r@[i], a, b) by {
                if a <= b {
                    let k = choose|k: int| 0 <= k < r@.len() && r@[k].0 == a && r@[k].1 == b;
                    assert(same_pair(r@[k], a, b));
                } else {
                    assert(m.contains_key((b, a)));
                    let k = choose|k: int| 0 <= k < r@.len() && r@[k].0 == b && r@[k].1 == a;
                    assert(same_pair(r@[k], a, b));
                }
            }
        }
        r
    }

    fn node_count(&self) -> (r: usize) {
        self.node_count
    }

    fn get_edge_weight(&self, a: Node, b: Node) -> (r: Option<Weight>) {
        let n = self.node_count;
        if (a as usize) < n && (b as usize) < n {
            proof {
                lemma_cell_index(a as int, b as int, n as int, n as int);
            }
            let w = self.links[a as usize * n + b as usize];
            if w == 0 {
                None
            } else {
                Some(w)
            }
        } else {
            None
        }
    }
}

} // verus!
