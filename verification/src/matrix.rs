//! The adjacency matrix of a graph, dense and as a list of entries.

use crate::graph::{half_edges, row_edges, Graph};
use vstd::prelude::*;

verus! {

/// `a` and `b` are joined by an edge: one of them lists the other.
pub open spec fn joined(adj: Seq<Seq<usize>>, a: int, b: int) -> bool {
    adj[a].contains(b as usize) || adj[b].contains(a as usize)
}

/// `a` and `b` are joined by one of the half-edges looked at so far: all
/// those of the vertices below `node`, and the first `upto` of `node`.
pub open spec fn joined_so_far(adj: Seq<Seq<usize>>, node: int, upto: int, a: int, b: int) -> bool {
    ||| a < node && adj[a].contains(b as usize)
    ||| b < node && adj[b].contains(a as usize)
    ||| a == node && adj[a].take(upto).contains(b as usize)
    ||| b == node && adj[b].take(upto).contains(a as usize)
}

/// `matrix` is square, with 1 where `marked` holds and 0 elsewhere.
pub open spec fn marks(matrix: Seq<Seq<i32>>, n: int, marked: spec_fn(int, int) -> bool) -> bool {
    &&& matrix.len() == n
    &&& forall|a: int| 0 <= a < n ==> (#[trigger] matrix[a]).len() == n
    &&& forall|a: int, b: int|
        0 <= a < n && 0 <= b < n ==> #[trigger] matrix[a][b] == if marked(a, b) {
            1i32
        } else {
            0i32
        }
}

/// The rows of a matrix.
pub open spec fn cells(matrix: &Vec<Vec<i32>>) -> Seq<Seq<i32>> {
    Seq::new(matrix@.len(), |a: int| matrix@[a]@)
}

/// The entries of a sparse square matrix, each of weight one: entry `k`
/// stands in row `row_indices[k]` and column `col_indices[k]`. A position
/// that is listed twice holds two.
pub struct UnitEntries {
    pub size: usize,
    pub row_indices: Vec<usize>,
    pub col_indices: Vec<usize>,
}

/// The positions that two lists of indices give, one by one.
pub open spec fn positions(rows: Seq<usize>, cols: Seq<usize>) -> Seq<(usize, usize)> {
    Seq::new(rows.len(), |k: int| (rows[k], cols[k]))
}

/// Every half-edge, followed by itself turned round.
pub open spec fn mirrored(edges: Seq<(usize, usize)>) -> Seq<(usize, usize)>
    decreases edges.len(),
{
    if edges.len() == 0 {
        Seq::empty()
    } else {
        mirrored(edges.drop_last()).push(edges.last()).push((edges.last().1, edges.last().0))
    }
}

impl View for UnitEntries {
    type V = Seq<(usize, usize)>;

    open spec fn view(&self) -> Seq<(usize, usize)> {
        positions(self.row_indices@, self.col_indices@)
    }
}

impl UnitEntries {
    /// There are as many row indices as column indices, all of them
    /// below `size`.
    pub open spec fn wf(&self) -> bool {
        &&& self.row_indices@.len() == self.col_indices@.len()
        &&& forall|k: int| 0 <= k < self.row_indices@.len() ==> self.row_indices@[k] < self.size
        &&& forall|k: int| 0 <= k < self.col_indices@.len() ==> self.col_indices@[k] < self.size
    }
}

/// One more entry of a list is one more value that the list holds.
pub proof fn lemma_take_contains(row: Seq<usize>, upto: int, x: usize)
    requires
        0 <= upto < row.len(),
    ensures
        row.take(upto + 1).contains(x) == (row.take(upto).contains(x) || row[upto] == x),
        !row.take(0).contains(x),
        row.take(row.len() as int) == row,
{
    let short = row.take(upto);
    let long = row.take(upto + 1);
    assert(row.take(row.len() as int) =~= row);
    if short.contains(x) {
        let k = short.index_of(x);
        assert(long[k] == x);
    }
    if row[upto] == x {
        assert(long[upto] == x);
    }
    if long.contains(x) {
        let k = long.index_of(x);
        if k < upto {
            assert(short[k] == x);
        }
    }
}

/// A square matrix of zeros.
pub fn zero_matrix(n: usize) -> (matrix: Vec<Vec<i32>>)
    ensures
        marks(cells(&matrix), n as int, |a: int, b: int| false),
{
    let mut matrix: Vec<Vec<i32>> = Vec::new();
    let mut a: usize = 0;
    while a < n
        invariant
            a <= n,
            matrix@.len() == a,
            forall|r: int| 0 <= r < a ==> (#[trigger] matrix@[r])@.len() == n,
            forall|r: int, c: int| 0 <= r < a && 0 <= c < n ==> #[trigger] matrix@[r]@[c] == 0,
        decreases n - a,
    {
        let mut row: Vec<i32> = Vec::new();
        let mut b: usize = 0;
        while b < n
            invariant
                b <= n,
                row@.len() == b,
                forall|c: int| 0 <= c < b ==> row@[c] == 0,
            decreases n - b,
        {
            row.push(0);
            b += 1;
        }
        matrix.push(row);
        a += 1;
    }
    matrix
}

impl Graph {
    /// The adjacency matrix: `vertices` rows of `vertices` entries, with 1
    /// where the two vertices are joined by an edge and 0 where they are
    /// not.
    pub fn to_adjacency_matrix(&self) -> (matrix: Vec<Vec<i32>>)
        requires
            self.wf(),
        ensures
            marks(cells(&matrix), self.vertices as int, |a: int, b: int| joined(self@, a, b)),
    {
        let n = self.vertices;
        let mut matrix = zero_matrix(n);
        let mut node: usize = 0;
        proof {
            assert forall|a: int, b: int| 0 <= a < n && 0 <= b < n implies !joined_so_far(
                self@,
                0,
                0,
                a,
                b,
            ) by {
                assert(self@[a].take(0) =~= Seq::<usize>::empty());
                assert(self@[b].take(0) =~= Seq::<usize>::empty());
            }
        }
        while node < n
            invariant
                self.wf(),
                n == self.vertices,
                node <= n,
                marks(
                    cells(&matrix),
                    n as int,
                    |a: int, b: int| joined_so_far(self@, node as int, 0, a, b),
                ),
            decreases n - node,
        {
            let edges = &self.adj_list[node];
            let mut i: usize = 0;
            while i < edges.len()
                invariant
                    self.wf(),
                    n == self.vertices,
                    node < n,
                    edges@ == self@[node as int],
                    i <= edges.len(),
                    marks(
                        cells(&matrix),
                        n as int,
                        |a: int, b: int| joined_so_far(self@, node as int, i as int, a, b),
                    ),
                decreases edges.len() - i,
            {
                let edge = edges[i];
                assert(edge < n) by {
                    assert(self@[node as int][i as int] < n);
                }
                let ghost before = cells(&matrix);
                assert(before.len() == n);
                assert(before[node as int].len() == n && before[edge as int].len() == n);
                matrix[node][edge] = 1;
                assert(cells(&matrix) =~= before.update(
                    node as int,
                    before[node as int].update(edge as int, 1i32),
                ));
                let ghost between = cells(&matrix);
                matrix[edge][node] = 1;
                proof {
                    let after = cells(&matrix);
                    assert(after =~= between.update(
                        edge as int,
                        between[edge as int].update(node as int, 1i32),
                    ));
                    assert forall|a: int, b: int|
                        0 <= a < n && 0 <= b < n implies #[trigger] after[a][b]
                        == if joined_so_far(self@, node as int, i + 1, a, b) {
                        1i32
                    } else {
                        0i32
                    } by {
                        lemma_take_contains(self@[node as int], i as int, a as usize);
                        lemma_take_contains(self@[node as int], i as int, b as usize);
                        assert(before[a][b] == if joined_so_far(
                            self@,
                            node as int,
                            i as int,
                            a,
                            b,
                        ) {
                            1i32
                        } else {
                            0i32
                        });
                    }
                }
                i += 1;
            }
            proof {
                let m = cells(&matrix);
                assert forall|a: int, b: int| 0 <= a < n && 0 <= b < n implies #[trigger] m[a][b]
                    == if joined_so_far(self@, node + 1, 0, a, b) {
                    1i32
                } else {
                    0i32
                } by {
                    assert(self@[node as int].take(i as int) =~= self@[node as int]);
                    if node + 1 < n {
                        assert(self@[node + 1].take(0) =~= Seq::<usize>::empty());
                    }
                    assert(m[a][b] == if joined_so_far(self@, node as int, i as int, a, b) {
                        1i32
                    } else {
                        0i32
                    });
                }
            }
            node += 1;
        }
        proof {
            let m = cells(&matrix);
            assert forall|a: int, b: int| 0 <= a < n && 0 <= b < n implies #[trigger] m[a][b]
                == if joined(self@, a, b) {
                1i32
            } else {
                0i32
            } by {
                assert(m[a][b] == if joined_so_far(self@, n as int, 0, a, b) {
                    1i32
                } else {
                    0i32
                });
            }
        }
        matrix
    }

    /// The entries of the sparse adjacency matrix, before they are
    /// compressed: for every half-edge from `u` to `v`, in the order of the
    /// lists, one entry in row `u` and column `v` and its mirror image in
    /// row `v` and column `u`.
    pub fn to_adjacency_matrix_sparse(&self) -> (entries: UnitEntries)
        requires
            self.wf(),
        ensures
            entries.size == self.vertices,
            entries.wf(),
            entries@ == mirrored(half_edges(self@)),
    {
        let n = self.vertices;
        let mut row_indices: Vec<usize> = Vec::new();
        let mut col_indices: Vec<usize> = Vec::new();
        let mut node: usize = 0;
        let ghost adj = self@;
        proof {
            assert(adj.take(0) =~= Seq::<Seq<usize>>::empty());
            assert(positions(row_indices@, col_indices@) =~= Seq::<(usize, usize)>::empty());
        }
        while node < n
            invariant
                self.wf(),
                adj == self@,
                n == self.vertices,
                node <= n,
                row_indices@.len() == col_indices@.len(),
                forall|k: int| 0 <= k < row_indices@.len() ==> row_indices@[k] < n,
                forall|k: int| 0 <= k < col_indices@.len() ==> col_indices@[k] < n,
                positions(row_indices@, col_indices@) == mirrored(
                    half_edges(adj.take(node as int)),
                ),
            decreases n - node,
        {
            let edges = &self.adj_list[node];
            let ghost earlier = half_edges(adj.take(node as int));
            let ghost row = adj[node as int];
            let mut i: usize = 0;
            proof {
                assert(row.take(0) =~= Seq::<usize>::empty());
                assert(earlier + row_edges(node, row.take(0)) =~= earlier);
            }
            while i < edges.len()
                invariant
                    self.wf(),
                    adj == self@,
                    n == self.vertices,
                    node < n,
                    edges@ == row,
                    row == adj[node as int],
                    i <= edges.len(),
                    row_indices@.len() == col_indices@.len(),
                    forall|k: int| 0 <= k < row_indices@.len() ==> row_indices@[k] < n,
                    forall|k: int| 0 <= k < col_indices@.len() ==> col_indices@[k] < n,
                    positions(row_indices@, col_indices@) == mirrored(
                        earlier + row_edges(node, row.take(i as int)),
                    ),
                decreases edges.len() - i,
            {
                let edge = edges[i];
                assert(edge < n) by {
                    assert(adj[node as int][i as int] < n);
                }
                let ghost before = positions(row_indices@, col_indices@);
                row_indices.push(node);
                col_indices.push(edge);
                row_indices.push(edge);
                col_indices.push(node);
                proof {
                    let longer = earlier + row_edges(node, row.take(i + 1));
                    assert(longer.drop_last() =~= earlier + row_edges(node, row.take(i as int)));
                    assert(longer.last() == (node, edge));
                    assert(positions(row_indices@, col_indices@) =~= before.push((node, edge)).push(
                        (edge, node),
                    ));
                }
                i += 1;
            }
            proof {
                assert(row.take(i as int) =~= row);
                assert(adj.take(node + 1).drop_last() =~= adj.take(node as int));
                assert(adj.take(node + 1).last() == row);
            }
            node += 1;
        }
        proof {
            assert(adj.take(node as int) =~= adj);
        }
        UnitEntries { size: n, row_indices, col_indices }
    }
}

} // verus!
