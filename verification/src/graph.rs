//! The graph store: an adjacency-list representation of an undirected
//! multigraph over the vertices `0..vertices`.

use vstd::prelude::*;

verus! {

/// Why a construction call was refused.
#[derive(Clone, Copy, Debug, PartialEq, Eq, Structural)]
pub enum GraphError {
    /// An edge endpoint is not below the vertex count.
    IndexOutOfRange,
}

/// An undirected graph. `adj_list[u]` lists the neighbours of `u` in the
/// order in which the edges were added; parallel edges and self-loops are
/// kept as they come.
pub struct Graph {
    pub adj_list: Vec<Vec<usize>>,
    pub vertices: usize,
}

/// The lists that a vector of vectors holds.
pub open spec fn lists(v: &Vec<Vec<usize>>) -> Seq<Seq<usize>> {
    Seq::new(v@.len(), |i: int| v@[i]@)
}

/// How often `x` occurs in `s`.
pub open spec fn multiplicity(s: Seq<usize>, x: usize) -> nat {
    s.to_multiset().count(x)
}

/// Every entry of every list names one of the `n` vertices.
pub open spec fn in_range(adj: Seq<Seq<usize>>, n: int) -> bool {
    forall|u: int, i: int|
        0 <= u < adj.len() && 0 <= i < adj[u].len() ==> (#[trigger] adj[u][i]) < n
}

/// `v` occurs in the list of `u` as often as `u` occurs in the list of `v`.
pub open spec fn symmetric(adj: Seq<Seq<usize>>) -> bool {
    forall|u: int, v: int|
        0 <= u < adj.len() && 0 <= v < adj.len() ==> multiplicity(adj[u], v as usize)
            == multiplicity(#[trigger] adj[v], #[trigger] (u as usize))
}

/// Every vertex lists itself an even number of times: a loop is recorded
/// twice in the list of its vertex.
pub open spec fn loops_paired(adj: Seq<Seq<usize>>) -> bool {
    forall|u: int| 0 <= u < adj.len() ==> multiplicity(#[trigger] adj[u], u as usize) % 2 == 0
}

/// Each list of `b` holds the entries of the same list of `a`, each as
/// often, in some order.
pub open spec fn rearranged(a: Seq<Seq<usize>>, b: Seq<Seq<usize>>) -> bool {
    &&& a.len() == b.len()
    &&& forall|u: int| 0 <= u < a.len() ==> (#[trigger] a[u]).to_multiset() == b[u].to_multiset()
}

/// The adjacency structure after one more edge between `src` and `des`.
pub open spec fn with_edge(adj: Seq<Seq<usize>>, src: int, des: int) -> Seq<Seq<usize>> {
    let first = adj.update(src, adj[src].push(des as usize));
    first.update(des, first[des].push(src as usize))
}

/// The adjacency structure of `n` vertices without an edge.
pub open spec fn no_edges(n: nat) -> Seq<Seq<usize>> {
    Seq::new(n, |u: int| Seq::<usize>::empty())
}

/// Both endpoints of every edge are below `n`.
pub open spec fn edges_in_range(edges: Seq<(usize, usize)>, n: int) -> bool {
    forall|k: int| 0 <= k < edges.len() ==> (#[trigger] edges[k]).0 < n && edges[k].1 < n
}

/// The adjacency structure after the edges of `edges` were added to `adj`,
/// first to last.
pub open spec fn edges_applied(adj: Seq<Seq<usize>>, edges: Seq<(usize, usize)>) -> Seq<
    Seq<usize>,
>
    decreases edges.len(),
{
    if edges.len() == 0 {
        adj
    } else {
        with_edge(
            edges_applied(adj, edges.drop_last()),
            edges.last().0 as int,
            edges.last().1 as int,
        )
    }
}

/// The half-edges that the list of vertex `u` holds, in its order.
pub open spec fn row_edges(u: usize, row: Seq<usize>) -> Seq<(usize, usize)> {
    Seq::new(row.len(), |i: int| (u, row[i]))
}

/// Every half-edge of an adjacency structure: those of vertex 0 first, each
/// list in its own order.
pub open spec fn half_edges(adj: Seq<Seq<usize>>) -> Seq<(usize, usize)>
    decreases adj.len(),
{
    if adj.len() == 0 {
        Seq::empty()
    } else {
        half_edges(adj.drop_last()) + row_edges((adj.len() - 1) as usize, adj.last())
    }
}

/// The sum of the lengths of all lists.
pub open spec fn total_degree(adj: Seq<Seq<usize>>) -> nat
    decreases adj.len(),
{
    if adj.len() == 0 {
        0
    } else {
        total_degree(adj.drop_last()) + adj.last().len()
    }
}

/// The empty list holds nothing.
pub proof fn lemma_multiplicity_empty(x: usize)
    ensures
        multiplicity(Seq::<usize>::empty(), x) == 0,
{
    broadcast use vstd::seq_lib::to_multiset_contains;

    assert(!Seq::<usize>::empty().contains(x));
}

/// Appending `a` raises the multiplicity of `a` by one and no other.
pub proof fn lemma_multiplicity_push(s: Seq<usize>, a: usize, x: usize)
    ensures
        multiplicity(s.push(a), x) == multiplicity(s, x) + if a == x { 1nat } else { 0nat },
{
    broadcast use vstd::seq_lib::to_multiset_build;
    broadcast use vstd::multiset::group_multiset_axioms;

}

/// Adding an edge between two vertices keeps the structure valid.
pub proof fn lemma_with_edge_wf(adj: Seq<Seq<usize>>, src: int, des: int)
    requires
        adj.len() <= usize::MAX,
        in_range(adj, adj.len() as int),
        symmetric(adj),
        loops_paired(adj),
        0 <= src < adj.len(),
        0 <= des < adj.len(),
    ensures
        with_edge(adj, src, des).len() == adj.len(),
        in_range(with_edge(adj, src, des), adj.len() as int),
        symmetric(with_edge(adj, src, des)),
        loops_paired(with_edge(adj, src, des)),
{
    let next = with_edge(adj, src, des);
    assert forall|u: int| 0 <= u < next.len() implies multiplicity(
        #[trigger] next[u],
        u as usize,
    ) % 2 == 0 by {
        lemma_with_edge_multiplicity(adj, src, des, u, u as usize);
        assert(multiplicity(adj[u], u as usize) % 2 == 0);
    }
    assert forall|u: int, v: int| 0 <= u < next.len() && 0 <= v < next.len() implies multiplicity(
        next[u],
        v as usize,
    ) == multiplicity(#[trigger] next[v], #[trigger] (u as usize)) by {
        lemma_with_edge_multiplicity(adj, src, des, u, v as usize);
        lemma_with_edge_multiplicity(adj, src, des, v, u as usize);
        assert(multiplicity(adj[u], v as usize) == multiplicity(adj[v], u as usize));
    }
}

/// What one more edge between `src` and `des` does to the multiplicity of
/// `x` in the list of `u`.
pub proof fn lemma_with_edge_multiplicity(
    adj: Seq<Seq<usize>>,
    src: int,
    des: int,
    u: int,
    x: usize,
)
    requires
        adj.len() <= usize::MAX,
        0 <= src < adj.len(),
        0 <= des < adj.len(),
        0 <= u < adj.len(),
    ensures
        multiplicity(with_edge(adj, src, des)[u], x) == multiplicity(adj[u], x) + (if u == src
            && x == des {
            1nat
        } else {
            0nat
        }) + (if u == des && x == src {
            1nat
        } else {
            0nat
        }),
{
    let first = adj.update(src, adj[src].push(des as usize));
    lemma_multiplicity_push(adj[src], des as usize, x);
    lemma_multiplicity_push(first[des], src as usize, x);
}

impl View for Graph {
    type V = Seq<Seq<usize>>;

    open spec fn view(&self) -> Seq<Seq<usize>> {
        lists(&self.adj_list)
    }
}

impl Graph {
    /// The validity of a graph: one list per vertex, every neighbour a
    /// vertex, and every edge recorded at both of its ends, a loop twice
    /// at its vertex.
    pub open spec fn wf(&self) -> bool {
        &&& self@.len() == self.vertices
        &&& in_range(self@, self.vertices as int)
        &&& symmetric(self@)
        &&& loops_paired(self@)
    }

    /// A graph of `vertices` vertices and no edge.
    pub fn new(vertices: usize) -> (graph: Graph)
        ensures
            graph.wf(),
            graph.vertices == vertices,
            graph@ == no_edges(vertices as nat),
    {
        let adj_list: Vec<Vec<usize>> = vec![Vec::new(); vertices];
        let graph = Graph { adj_list, vertices };
        proof {
            assert(graph@ =~= no_edges(vertices as nat));
            assert forall|u: int, v: int| 0 <= u < graph@.len() && 0 <= v < graph@.len() implies
                multiplicity(graph@[u], v as usize) == multiplicity(
                #[trigger] graph@[v],
                #[trigger] (u as usize),
            ) by {
                lemma_multiplicity_empty(v as usize);
                lemma_multiplicity_empty(u as usize);
            }
            assert forall|u: int| 0 <= u < graph@.len() implies multiplicity(
                #[trigger] graph@[u],
                u as usize,
            ) % 2 == 0 by {
                lemma_multiplicity_empty(u as usize);
            }
        }
        graph
    }

    /// Adds one edge between `src` and `des`: `des` is appended to the list
    /// of `src`, then `src` to the list of `des`. An endpoint that is no
    /// vertex is refused and the graph stays as it was.
    pub fn add_edge(&mut self, src: usize, des: usize) -> (res: Result<(), GraphError>)
        requires
            old(self).wf(),
        ensures
            final(self).wf(),
            final(self).vertices == old(self).vertices,
            src < old(self).vertices && des < old(self).vertices ==> res == Ok::<(), GraphError>(())
                && final(self)@ == with_edge(old(self)@, src as int, des as int),
            src >= old(self).vertices || des >= old(self).vertices ==> res == Err::<
                (),
                GraphError,
            >(GraphError::IndexOutOfRange) && final(self)@ == old(self)@,
    {
        if src >= self.vertices || des >= self.vertices {
            return Err(GraphError::IndexOutOfRange);
        }
        self.adj_list[src].push(des);
        self.adj_list[des].push(src);
        proof {
            assert(self@ =~= with_edge(old(self)@, src as int, des as int));
            lemma_with_edge_wf(old(self)@, src as int, des as int);
        }
        Ok(())
    }

    /// The graph of `vertices` vertices that holds the edges of `edge_list`,
    /// added first to last. An edge with an endpoint that is no vertex
    /// refuses the whole list.
    pub fn from_edgelist(edge_list: Vec<(usize, usize)>, vertices: usize) -> (res: Result<
        Graph,
        GraphError,
    >)
        ensures
            match res {
                Ok(graph) => edges_in_range(edge_list@, vertices as int) && graph.wf()
                    && graph.vertices == vertices && graph@ == edges_applied(
                    no_edges(vertices as nat),
                    edge_list@,
                ),
                Err(e) => !edges_in_range(edge_list@, vertices as int) && e
                    == GraphError::IndexOutOfRange,
            },
    {
        let mut graph = Graph::new(vertices);
        let mut k: usize = 0;
        while k < edge_list.len()
            invariant
                k <= edge_list.len(),
                graph.wf(),
                graph.vertices == vertices,
                edges_in_range(edge_list@.take(k as int), vertices as int),
                graph@ == edges_applied(no_edges(vertices as nat), edge_list@.take(k as int)),
            decreases edge_list.len() - k,
        {
            let (src, dest) = edge_list[k];
            match graph.add_edge(src, dest) {
                Ok(()) => {},
                Err(e) => {
                    return Err(e);
                },
            }
            proof {
                assert(edge_list@.take(k + 1).drop_last() =~= edge_list@.take(k as int));
            }
            k += 1;
        }
        proof {
            assert(edge_list@.take(k as int) =~= edge_list@);
        }
        Ok(graph)
    }

    /// The number of entries in each vertex's list.
    pub fn degree(&self) -> (degrees: Vec<usize>)
        ensures
            degrees@.len() == self@.len(),
            forall|u: int| 0 <= u < self@.len() ==> degrees@[u] == (#[trigger] self@[u]).len(),
    {
        let mut degrees: Vec<usize> = Vec::new();
        let mut u: usize = 0;
        while u < self.adj_list.len()
            invariant
                u <= self.adj_list.len(),
                degrees@.len() == u,
                forall|w: int| 0 <= w < u ==> degrees@[w] == (#[trigger] self@[w]).len(),
            decreases self.adj_list.len() - u,
        {
            degrees.push(self.adj_list[u].len());
            u += 1;
        }
        degrees
    }
}

} // verus!
