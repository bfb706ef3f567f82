//! A graph from an adjacency list: which entries of the lists stand for an
//! edge of their own, and the graph that these edges make.

use crate::graph::{
    edges_applied, edges_in_range, in_range, lemma_multiplicity_empty, lemma_multiplicity_push,
    loops_paired, multiplicity, no_edges, rearranged, symmetric, Graph, GraphError,
};
use crate::laws::{
    law_edges_count, law_edges_make_valid_graph, lemma_occurrences_join, occurrences,
};
use vstd::prelude::*;

verus! {

/// Entry `i` of the list of `u` gives an edge of its own. An edge is listed
/// at both of its ends, so an entry `v` above `u` gives an edge, and an
/// entry `v` below `u` gives one only where the list of `v` holds no entry
/// `u` to go with it: the first entries `v` of `u` go with the entries `u`
/// of `v`, one by one. A loop is listed twice at its vertex, so of the
/// entries `u` of `u` every other one gives an edge, beginning with the
/// first.
pub open spec fn gives_edge(adj: Seq<Seq<usize>>, u: int, i: int) -> bool {
    let v = adj[u][i];
    let earlier = multiplicity(adj[u].take(i), v);
    if v > u {
        true
    } else if v < u {
        earlier >= multiplicity(adj[v as int], u as usize)
    } else {
        earlier % 2 == 0
    }
}

/// The edges that the first `upto` entries of the list of `u` give, in
/// their order.
pub open spec fn row_given(adj: Seq<Seq<usize>>, u: int, upto: int) -> Seq<(usize, usize)>
    decreases upto,
{
    if upto <= 0 {
        Seq::empty()
    } else if gives_edge(adj, u, upto - 1) {
        row_given(adj, u, upto - 1).push((u as usize, adj[u][upto - 1]))
    } else {
        row_given(adj, u, upto - 1)
    }
}

/// The edges that the lists of the vertices below `rows` give: those of
/// vertex 0 first, each list in its own order.
pub open spec fn edges_given(adj: Seq<Seq<usize>>, rows: int) -> Seq<(usize, usize)>
    decreases rows,
{
    if rows <= 0 {
        Seq::empty()
    } else {
        edges_given(adj, rows - 1) + row_given(adj, rows - 1, adj[rows - 1].len() as int)
    }
}

/// The adjacency structure of the graph that an adjacency list describes.
pub open spec fn replayed(adj: Seq<Seq<usize>>) -> Seq<Seq<usize>> {
    edges_applied(no_edges(adj.len()), edges_given(adj, adj.len() as int))
}

/// The number of edges to `x` that `c` entries `x` in the list of `u` give.
pub open spec fn given_count(adj: Seq<Seq<usize>>, u: int, x: usize, c: nat) -> nat {
    if x > u {
        c
    } else if x < u {
        let listed = multiplicity(adj[x as int], u as usize);
        if c >= listed {
            (c - listed) as nat
        } else {
            0
        }
    } else {
        (c + 1) / 2
    }
}

/// How many edges from `a` to `x` the first `upto` entries of the list of
/// `u` give.
pub proof fn lemma_row_given_count(adj: Seq<Seq<usize>>, u: int, upto: int, a: usize, x: usize)
    requires
        0 <= u < adj.len(),
        adj.len() <= usize::MAX,
        0 <= upto <= adj[u].len(),
    ensures
        occurrences(row_given(adj, u, upto), a, x) == if a == u {
            given_count(adj, u, x, multiplicity(adj[u].take(upto), x))
        } else {
            0
        },
    decreases upto,
{
    let row = adj[u];
    if upto == 0 {
        assert(row.take(0) =~= Seq::<usize>::empty());
        lemma_multiplicity_empty(x);
    } else {
        let v = row[upto - 1];
        lemma_row_given_count(adj, u, upto - 1, a, x);
        assert(row.take(upto) =~= row.take(upto - 1).push(v));
        lemma_multiplicity_push(row.take(upto - 1), v, x);
        let before = row_given(adj, u, upto - 1);
        if gives_edge(adj, u, upto - 1) {
            let after = before.push((u as usize, v));
            assert(after.drop_last() =~= before);
            assert(after.last() == (u as usize, v));
        }
    }
}

/// How many edges from `a` to `x` the lists of the vertices below `rows`
/// give.
pub proof fn lemma_edges_given_count(adj: Seq<Seq<usize>>, rows: int, a: usize, x: usize)
    requires
        0 <= rows <= adj.len(),
        adj.len() <= usize::MAX,
    ensures
        occurrences(edges_given(adj, rows), a, x) == if a < rows {
            given_count(adj, a as int, x, multiplicity(adj[a as int], x))
        } else {
            0
        },
    decreases rows,
{
    if rows > 0 {
        let u = rows - 1;
        lemma_edges_given_count(adj, u, a, x);
        lemma_row_given_count(adj, u, adj[u].len() as int, a, x);
        lemma_occurrences_join(
            edges_given(adj, u),
            row_given(adj, u, adj[u].len() as int),
            a,
            x,
        );
        assert(adj[u].take(adj[u].len() as int) =~= adj[u]);
    }
}

/// The entries of the lists of the vertices below `rows` are vertices.
pub open spec fn rows_in_range(adj: Seq<Seq<usize>>, rows: int) -> bool {
    forall|u: int, j: int|
        0 <= u < rows && 0 <= j < adj[u].len() ==> (#[trigger] adj[u][j]) < adj.len()
}

/// The edges that a list of vertices gives join vertices.
pub proof fn lemma_row_given_in_range(adj: Seq<Seq<usize>>, u: int, upto: int)
    requires
        0 <= u < adj.len(),
        adj.len() <= usize::MAX,
        0 <= upto <= adj[u].len(),
        forall|j: int| 0 <= j < upto ==> (#[trigger] adj[u][j]) < adj.len(),
    ensures
        edges_in_range(row_given(adj, u, upto), adj.len() as int),
    decreases upto,
{
    if upto > 0 {
        lemma_row_given_in_range(adj, u, upto - 1);
        let before = row_given(adj, u, upto - 1);
        let after = row_given(adj, u, upto);
        assert(adj[u][upto - 1] < adj.len());
        assert forall|k: int| 0 <= k < after.len() implies (#[trigger] after[k]).0 < adj.len()
            && after[k].1 < adj.len() by {
            if k < before.len() {
                assert(after[k] == before[k]);
            }
        }
    }
}

/// The edges that lists of vertices give join vertices.
pub proof fn lemma_edges_given_in_range(adj: Seq<Seq<usize>>, rows: int)
    requires
        0 <= rows <= adj.len(),
        adj.len() <= usize::MAX,
        rows_in_range(adj, rows),
    ensures
        edges_in_range(edges_given(adj, rows), adj.len() as int),
    decreases rows,
{
    if rows > 0 {
        let u = rows - 1;
        lemma_edges_given_in_range(adj, u);
        lemma_row_given_in_range(adj, u, adj[u].len() as int);
        let front = edges_given(adj, u);
        let back = row_given(adj, u, adj[u].len() as int);
        let all = edges_given(adj, rows);
        assert forall|k: int| 0 <= k < all.len() implies (#[trigger] all[k]).0 < adj.len()
            && all[k].1 < adj.len() by {
            if k < front.len() {
                assert(all[k] == front[k]);
            } else {
                assert(all[k] == back[k - front.len()]);
            }
        }
    }
}

/// What the vertices below `src` have listed at `src` when their lists are
/// read: every vertex `x` below `src`, as often as it lists `src`.
pub proof fn lemma_listed_below(adj: Seq<Seq<usize>>, src: int, x: usize)
    requires
        0 <= src < adj.len(),
        adj.len() <= usize::MAX,
        rows_in_range(adj, src),
    ensures
        multiplicity(edges_applied(no_edges(adj.len()), edges_given(adj, src))[src], x) == if x
            < src {
            multiplicity(adj[x as int], src as usize)
        } else {
            0
        },
{
    let edges = edges_given(adj, src);
    lemma_edges_given_in_range(adj, src);
    law_edges_count(adj.len(), edges, src as usize, x);
    lemma_edges_given_count(adj, src, src as usize, x);
    lemma_edges_given_count(adj, src, x, src as usize);
}

/// How many entries `src` in the list of `x`, a vertex below `u`, have no
/// entry `x` among the first `upto` entries of `u` to go with them.
pub open spec fn unmatched(adj: Seq<Seq<usize>>, u: int, upto: int, x: usize) -> nat {
    if x < u {
        let listed = multiplicity(adj[x as int], u as usize);
        let seen = multiplicity(adj[u].take(upto), x);
        if listed >= seen {
            (listed - seen) as nat
        } else {
            0
        }
    } else {
        0
    }
}

/// `owed` holds for every vertex how often `row` holds it.
pub open spec fn holds_counts(owed: Seq<usize>, row: Seq<usize>) -> bool {
    forall|x: usize| x < owed.len() ==> owed[x as int] == #[trigger] multiplicity(row, x)
}

/// `owed` holds for every vertex its unmatched entries.
pub open spec fn holds_unmatched(
    owed: Seq<usize>,
    adj: Seq<Seq<usize>>,
    u: int,
    upto: int,
) -> bool {
    forall|x: usize| x < owed.len() ==> owed[x as int] == #[trigger] unmatched(adj, u, upto, x)
}

/// `owed` holds nothing but at the vertices that `listed` holds from
/// index `from` on.
pub open spec fn holds_only(owed: Seq<usize>, listed: Seq<usize>, from: int) -> bool {
    forall|x: int|
        0 <= x < owed.len() && (#[trigger] owed[x]) != 0 ==> listed.skip(from).contains(x as usize)
}

/// What the graph of an adjacency list holds: between two vertices as many
/// edges as the one lists the other, or the other the one, whichever is
/// more; and at a vertex half as many loops as it lists itself, rounded
/// up, each of them listed twice.
pub proof fn law_replayed_multiplicity(adj: Seq<Seq<usize>>, u: usize, x: usize)
    requires
        adj.len() <= usize::MAX,
        in_range(adj, adj.len() as int),
        u < adj.len(),
        x < adj.len(),
    ensures
        replayed(adj).len() == adj.len(),
        in_range(replayed(adj), adj.len() as int),
        symmetric(replayed(adj)),
        loops_paired(replayed(adj)),
        multiplicity(replayed(adj)[u as int], x) == if x != u {
            if multiplicity(adj[u as int], x) >= multiplicity(adj[x as int], u) {
                multiplicity(adj[u as int], x)
            } else {
                multiplicity(adj[x as int], u)
            }
        } else {
            multiplicity(adj[u as int], u) + multiplicity(adj[u as int], u) % 2
        },
{
    let n = adj.len();
    let edges = edges_given(adj, n as int);
    lemma_edges_given_in_range(adj, n as int);
    law_edges_make_valid_graph(n, edges);
    law_edges_count(n, edges, u, x);
    lemma_edges_given_count(adj, n as int, u, x);
    lemma_edges_given_count(adj, n as int, x, u);
}

/// A valid adjacency list describes itself: the graph that it gives has
/// the same entries in every list, each as often.
pub proof fn law_valid_lists_replay(adj: Seq<Seq<usize>>)
    requires
        adj.len() <= usize::MAX,
        in_range(adj, adj.len() as int),
        symmetric(adj),
        loops_paired(adj),
    ensures
        rearranged(adj, replayed(adj)),
{
    let n = adj.len();
    let edges = edges_given(adj, n as int);
    lemma_edges_given_in_range(adj, n as int);
    law_edges_make_valid_graph(n, edges);
    let again = replayed(adj);
    assert forall|u: int| 0 <= u < n implies (#[trigger] adj[u]).to_multiset()
        == again[u].to_multiset() by {
        assert forall|x: usize| adj[u].to_multiset().count(x) == again[u].to_multiset().count(
            x,
        ) by {
            if x < n {
                law_replayed_multiplicity(adj, u as usize, x);
                assert(multiplicity(adj[u], x as int as usize) == multiplicity(
                    adj[x as int],
                    u as usize,
                ));
                assert(multiplicity(adj[u], u as usize) % 2 == 0);
            } else {
                vstd::seq_lib::to_multiset_contains(adj[u], x);
                vstd::seq_lib::to_multiset_contains(again[u], x);
                if adj[u].contains(x) {
                    let i = adj[u].index_of(x);
                    assert(adj[u][i] < n);
                }
                if again[u].contains(x) {
                    let i = again[u].index_of(x);
                    assert(again[u][i] < n);
                }
            }
        }
        assert(adj[u].to_multiset() =~= again[u].to_multiset());
    }
}

/// Round trip: the graph of a list of edges, rebuilt from its own
/// adjacency list, has the same vertices and the same entries in every
/// list, each as often.
pub proof fn law_round_trip(n: nat, edges: Seq<(usize, usize)>)
    requires
        n <= usize::MAX,
        edges_in_range(edges, n as int),
    ensures
        rearranged(
            edges_applied(no_edges(n), edges),
            replayed(edges_applied(no_edges(n), edges)),
        ),
{
    law_edges_make_valid_graph(n, edges);
    law_valid_lists_replay(edges_applied(no_edges(n), edges));
}

impl Graph {
    /// The graph that an adjacency list describes. The lists are read in
    /// order, and every entry that stands for an edge of its own adds that
    /// edge: of the two entries that list one edge at its two ends, and of
    /// the two that list a loop, one does. Where the lists are valid, the
    /// graph has their entries again; where an edge is listed at one end
    /// only, the graph has it at both. An entry that is no vertex refuses
    /// the list.
    pub fn from_adjlist(adj_list: Vec<Vec<usize>>) -> (res: Result<Graph, GraphError>)
        ensures
            match res {
                Ok(graph) => {
                    &&& in_range(adj_list.deep_view(), adj_list.len() as int)
                    &&& graph.wf()
                    &&& graph.vertices == adj_list.len()
                    &&& graph@ == replayed(adj_list.deep_view())
                    &&& symmetric(adj_list.deep_view()) && loops_paired(adj_list.deep_view())
                        ==> rearranged(adj_list.deep_view(), graph@)
                },
                Err(e) => !in_range(adj_list.deep_view(), adj_list.len() as int) && e
                    == GraphError::IndexOutOfRange,
            },
    {
        let vertices = adj_list.len();
        let mut graph = Graph::new(vertices);
        let mut owed: Vec<usize> = vec![0usize; vertices];
        let ghost rows = adj_list.deep_view();
        let mut src: usize = 0;
        while src < vertices
            invariant
                src <= vertices,
                vertices == adj_list.len(),
                rows == adj_list.deep_view(),
                rows.len() == vertices,
                graph.wf(),
                graph.vertices == vertices,
                rows_in_range(rows, src as int),
                graph@ == edges_applied(no_edges(vertices as nat), edges_given(rows, src as int)),
                owed@.len() == vertices,
                forall|x: int| 0 <= x < vertices ==> owed@[x] == 0,
            decreases vertices - src,
        {
            let neighbors = &adj_list[src];
            let ghost done = edges_given(rows, src as int);
            let ghost row = rows[src as int];
            assert(row == neighbors@);
            // What the vertices below have listed here is owed to them.
            let listed: Vec<usize> = graph.adj_list[src].clone();
            assert(listed@ =~= graph@[src as int]);
            let mut j: usize = 0;
            proof {
                assert(listed@.take(0) =~= Seq::<usize>::empty());
                assert forall|x: usize| x < owed@.len() implies owed@[x as int]
                    == #[trigger] multiplicity(listed@.take(0), x) by {
                    lemma_multiplicity_empty(x);
                }
            }
            while j < listed.len()
                invariant
                    j <= listed.len(),
                    owed@.len() == vertices,
                    forall|k: int| 0 <= k < listed@.len() ==> (#[trigger] listed@[k]) < vertices,
                    holds_counts(owed@, listed@.take(j as int)),
                    forall|x: int| 0 <= x < vertices ==> (#[trigger] owed@[x]) <= j,
                decreases listed.len() - j,
            {
                let x = listed[j];
                let ghost before = owed@;
                owed[x] = owed[x] + 1;
                proof {
                    assert(listed@.take(j + 1) =~= listed@.take(j as int).push(x));
                    assert forall|y: usize| y < owed@.len() implies owed@[y as int]
                        == #[trigger] multiplicity(listed@.take(j + 1), y) by {
                        lemma_multiplicity_push(listed@.take(j as int), x, y);
                        assert(before[y as int] == multiplicity(listed@.take(j as int), y));
                    }
                }
                j += 1;
            }
            let mut open_loop = false;
            let mut i: usize = 0;
            proof {
                assert(listed@.take(j as int) =~= listed@);
                assert(row.take(0) =~= Seq::<usize>::empty());
                lemma_multiplicity_empty(src);
                assert forall|x: usize| x < owed@.len() implies owed@[x as int]
                    == #[trigger] unmatched(rows, src as int, 0, x) by {
                    lemma_listed_below(rows, src as int, x);
                    lemma_multiplicity_empty(x);
                    assert(owed@[x as int] == multiplicity(listed@, x));
                }
                assert(done + row_given(rows, src as int, 0) =~= done);
            }
            while i < neighbors.len()
                invariant
                    i <= neighbors.len(),
                    src < vertices,
                    row == neighbors@,
                    rows == adj_list.deep_view(),
                    rows.len() == vertices,
                    vertices == adj_list.len(),
                    rows[src as int] == row,
                    done == edges_given(rows, src as int),
                    graph.wf(),
                    graph.vertices == vertices,
                    rows_in_range(rows, src as int),
                    forall|k: int| 0 <= k < i ==> (#[trigger] row[k]) < vertices,
                    graph@ == edges_applied(
                        no_edges(vertices as nat),
                        done + row_given(rows, src as int, i as int),
                    ),
                    owed@.len() == vertices,
                    holds_unmatched(owed@, rows, src as int, i as int),
                    open_loop == (multiplicity(row.take(i as int), src) % 2 == 1),
                decreases neighbors.len() - i,
            {
                let dest = neighbors[i];
                if dest >= vertices {
                    assert(rows[src as int][i as int] >= vertices);
                    return Err(GraphError::IndexOutOfRange);
                }
                let ghost before = owed@;
                proof {
                    assert(row.take(i + 1) =~= row.take(i as int).push(dest));
                    lemma_multiplicity_push(row.take(i as int), dest, src);
                    assert(before[dest as int] == unmatched(rows, src as int, i as int, dest));
                }
                let gives = if dest > src {
                    true
                } else if dest < src {
                    if owed[dest] > 0 {
                        owed[dest] = owed[dest] - 1;
                        false
                    } else {
                        true
                    }
                } else {
                    open_loop = !open_loop;
                    open_loop
                };
                proof {
                    assert(gives == gives_edge(rows, src as int, i as int));
                    assert forall|y: usize| y < owed@.len() implies owed@[y as int]
                        == #[trigger] unmatched(rows, src as int, i + 1, y) by {
                        lemma_multiplicity_push(row.take(i as int), dest, y);
                        assert(before[y as int] == unmatched(rows, src as int, i as int, y));
                    }
                }
                if gives {
                    match graph.add_edge(src, dest) {
                        Ok(()) => {},
                        Err(e) => {
                            return Err(e);
                        },
                    }
                    proof {
                        let longer = done + row_given(rows, src as int, i + 1);
                        assert(longer.drop_last() =~= done + row_given(
                            rows,
                            src as int,
                            i as int,
                        ));
                        assert(longer.last() == (src, dest));
                    }
                }
                i += 1;
            }
            // Whatever is still owed goes back to nothing.
            let mut j: usize = 0;
            proof {
                assert(listed@.skip(0) =~= listed@);
                assert forall|x: int| 0 <= x < owed@.len() && (#[trigger] owed@[x])
                    != 0 implies listed@.skip(0).contains(x as usize) by {
                    assert(owed@[x as usize as int] == unmatched(
                        rows,
                        src as int,
                        i as int,
                        x as usize,
                    ));
                    lemma_listed_below(rows, src as int, x as usize);
                    vstd::seq_lib::to_multiset_contains(listed@, x as usize);
                }
            }
            while j < listed.len()
                invariant
                    j <= listed.len(),
                    owed@.len() == vertices,
                    forall|k: int| 0 <= k < listed@.len() ==> (#[trigger] listed@[k]) < vertices,
                    holds_only(owed@, listed@, j as int),
                decreases listed.len() - j,
            {
                let x = listed[j];
                let ghost before = owed@;
                owed[x] = 0;
                proof {
                    assert forall|y: int| 0 <= y < owed@.len() && (#[trigger] owed@[y])
                        != 0 implies listed@.skip(j + 1).contains(y as usize) by {
                        assert(before[y] != 0);
                        let k = listed@.skip(j as int).index_of(y as usize);
                        assert(listed@.skip(j as int)[k] == y as usize);
                        assert(listed@.skip(j + 1)[k - 1] == y as usize);
                    }
                }
                j += 1;
            }
            proof {
                assert forall|x: int| 0 <= x < vertices implies owed@[x] == 0 by {
                    if owed@[x] != 0 {
                        assert(listed@.skip(j as int).contains(x as usize));
                    }
                }
                assert(row.take(i as int) =~= row);
            }
            src += 1;
        }
        proof {
            assert(in_range(rows, vertices as int));
            if symmetric(rows) && loops_paired(rows) {
                law_valid_lists_replay(rows);
            }
        }
        Ok(graph)
    }
}

} // verus!
