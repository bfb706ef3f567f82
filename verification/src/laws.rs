//! What holds of every graph that the constructors build, and of every
//! result of a search.

use crate::centrality::{closeness, finite, total_distance};
use crate::graph::{
    edges_applied, edges_in_range, in_range, lemma_multiplicity_empty,
    lemma_with_edge_multiplicity, lemma_with_edge_wf, loops_paired, multiplicity, no_edges,
    symmetric, total_degree, with_edge, Graph,
};
use crate::geodesics::{is_pred, last_step, lemma_walks_via_is_sum, pred_list, walk_count};
use crate::paths::{distances_from, is_distance, is_walk, reachable, step, walk_between};
use crate::search::{lemma_distances_are_unique, shortest_paths_from};
use crate::sums::{lemma_sum_below_positive, lemma_sum_below_term, lemma_sum_over_zero};
use vstd::prelude::*;

verus! {

/// Symmetry: in a valid graph `v` occurs in the list of `u` as often as `u`
/// occurs in the list of `v`.
pub proof fn law_symmetry(graph: &Graph, u: int, v: int)
    requires
        graph.wf(),
        0 <= u < graph.vertices,
        0 <= v < graph.vertices,
    ensures
        multiplicity(graph@[u], v as usize) == multiplicity(graph@[v], u as usize),
{
}

/// Adding edges between vertices to a graph without edges gives a valid
/// graph: one list per vertex, every entry a vertex, every edge recorded
/// at both of its ends.
pub proof fn law_edges_make_valid_graph(n: nat, edges: Seq<(usize, usize)>)
    requires
        n <= usize::MAX,
        edges_in_range(edges, n as int),
    ensures
        edges_applied(no_edges(n), edges).len() == n,
        in_range(edges_applied(no_edges(n), edges), n as int),
        symmetric(edges_applied(no_edges(n), edges)),
        loops_paired(edges_applied(no_edges(n), edges)),
    decreases edges.len(),
{
    if edges.len() == 0 {
        assert forall|u: int| 0 <= u < n implies multiplicity(
            #[trigger] no_edges(n)[u],
            u as usize,
        ) % 2 == 0 by {
            lemma_multiplicity_empty(u as usize);
        }
        assert forall|u: int, v: int| 0 <= u < n && 0 <= v < n implies multiplicity(
            no_edges(n)[u],
            v as usize,
        ) == multiplicity(#[trigger] no_edges(n)[v], #[trigger] (u as usize)) by {
            lemma_multiplicity_empty(v as usize);
            lemma_multiplicity_empty(u as usize);
        }
    } else {
        let rest = edges.drop_last();
        assert forall|k: int| 0 <= k < rest.len() implies (#[trigger] rest[k]).0 < n && rest[k].1
            < n by {
            assert(rest[k] == edges[k]);
        }
        law_edges_make_valid_graph(n, rest);
        assert(edges[edges.len() - 1].0 < n && edges[edges.len() - 1].1 < n);
        lemma_with_edge_wf(
            edges_applied(no_edges(n), rest),
            edges.last().0 as int,
            edges.last().1 as int,
        );
    }
}

/// Appending to one list adds one to the sum of the lengths.
pub proof fn lemma_total_degree_push(adj: Seq<Seq<usize>>, u: int, x: usize)
    requires
        0 <= u < adj.len(),
    ensures
        total_degree(adj.update(u, adj[u].push(x))) == total_degree(adj) + 1,
    decreases adj.len(),
{
    let next = adj.update(u, adj[u].push(x));
    if u == adj.len() - 1 {
        assert(next.drop_last() =~= adj.drop_last());
    } else {
        lemma_total_degree_push(adj.drop_last(), u, x);
        assert(next.drop_last() =~= adj.drop_last().update(u, adj[u].push(x)));
    }
}

/// A graph without edges has no entry in any list.
pub proof fn lemma_total_degree_empty(n: nat)
    ensures
        total_degree(no_edges(n)) == 0,
    decreases n,
{
    if n > 0 {
        lemma_total_degree_empty((n - 1) as nat);
        assert(no_edges(n).drop_last() =~= no_edges((n - 1) as nat));
    }
}

/// Degree sum: the degrees of a graph built from a list of edges add up to
/// twice the number of the edges.
pub proof fn law_degree_sum(n: nat, edges: Seq<(usize, usize)>)
    requires
        n <= usize::MAX,
        edges_in_range(edges, n as int),
    ensures
        total_degree(edges_applied(no_edges(n), edges)) == 2 * edges.len(),
    decreases edges.len(),
{
    if edges.len() == 0 {
        lemma_total_degree_empty(n);
    } else {
        let rest = edges.drop_last();
        assert forall|k: int| 0 <= k < rest.len() implies (#[trigger] rest[k]).0 < n && rest[k].1
            < n by {
            assert(rest[k] == edges[k]);
        }
        law_degree_sum(n, rest);
        law_edges_make_valid_graph(n, rest);
        assert(edges[edges.len() - 1].0 < n && edges[edges.len() - 1].1 < n);
        let before = edges_applied(no_edges(n), rest);
        let src = edges.last().0 as int;
        let des = edges.last().1 as int;
        let first = before.update(src, before[src].push(des as usize));
        lemma_total_degree_push(before, src, des as usize);
        lemma_total_degree_push(first, des, src as usize);
    }
}

/// One more edge adds two to the sum of the degrees.
pub proof fn law_edge_adds_two_degrees(adj: Seq<Seq<usize>>, src: int, des: int)
    requires
        0 <= src < adj.len(),
        0 <= des < adj.len(),
    ensures
        total_degree(with_edge(adj, src, des)) == total_degree(adj) + 2,
{
    let first = adj.update(src, adj[src].push(des as usize));
    lemma_total_degree_push(adj, src, des as usize);
    lemma_total_degree_push(first, des, src as usize);
}

/// How often the half-edge from `a` to `b` occurs in a list.
pub open spec fn occurrences(edges: Seq<(usize, usize)>, a: usize, b: usize) -> nat
    decreases edges.len(),
{
    if edges.len() == 0 {
        0
    } else {
        occurrences(edges.drop_last(), a, b) + if edges.last() == (a, b) {
            1nat
        } else {
            0nat
        }
    }
}

/// The occurrences in two lists add up in the lists joined.
pub proof fn lemma_occurrences_join(
    front: Seq<(usize, usize)>,
    back: Seq<(usize, usize)>,
    a: usize,
    b: usize,
)
    ensures
        occurrences(front + back, a, b) == occurrences(front, a, b) + occurrences(back, a, b),
    decreases back.len(),
{
    if back.len() == 0 {
        assert(front + back =~= front);
    } else {
        lemma_occurrences_join(front, back.drop_last(), a, b);
        assert((front + back).drop_last() =~= front + back.drop_last());
    }
}

/// In the graph built from a list of edges, `x` occurs in the list of `u`
/// once for every edge from `u` to `x` and once for every edge from `x` to
/// `u`.
pub proof fn law_edges_count(n: nat, edges: Seq<(usize, usize)>, u: usize, x: usize)
    requires
        n <= usize::MAX,
        edges_in_range(edges, n as int),
        u < n,
    ensures
        multiplicity(edges_applied(no_edges(n), edges)[u as int], x) == occurrences(edges, u, x)
            + occurrences(edges, x, u),
    decreases edges.len(),
{
    if edges.len() == 0 {
        lemma_multiplicity_empty(x);
    } else {
        let rest = edges.drop_last();
        assert forall|k: int| 0 <= k < rest.len() implies (#[trigger] rest[k]).0 < n && rest[k].1
            < n by {
            assert(rest[k] == edges[k]);
        }
        law_edges_count(n, rest, u, x);
        law_edges_make_valid_graph(n, rest);
        assert(edges[edges.len() - 1].0 < n && edges[edges.len() - 1].1 < n);
        lemma_with_edge_multiplicity(
            edges_applied(no_edges(n), rest),
            edges.last().0 as int,
            edges.last().1 as int,
            u as int,
            x,
        );
    }
}

/// The base cases of a search: the source is at distance 0, every other
/// vertex that the source lists is at distance 1, and a vertex that no walk
/// reaches keeps `usize::MAX`.
pub proof fn law_search_base_cases(adj: Seq<Seq<usize>>, s: int, dist: Seq<usize>, v: int)
    requires
        adj.len() <= usize::MAX,
        distances_from(adj, s, dist),
        0 <= s < adj.len(),
        0 <= v < adj.len(),
    ensures
        dist[s] == 0,
        adj[s].contains(v as usize) && v != s ==> dist[v] == 1,
        !reachable(adj, s, v) ==> dist[v] == usize::MAX,
{
    let alone = seq![s as usize];
    assert(walk_between(adj, alone, s, s));
    assert(reachable(adj, s, s));
    assert(is_distance(adj, s, s, dist[s] as int));
    if adj[s].contains(v as usize) && v != s {
        let hop = seq![s as usize, v as usize];
        assert(step(adj, hop, 0));
        assert(walk_between(adj, hop, s, v));
        assert(reachable(adj, s, v));
        assert(is_distance(adj, s, v, dist[v] as int));
        if dist[v] == 0 {
            let p = choose|p: Seq<usize>| #[trigger] walk_between(adj, p, s, v) && p.len() == 1;
            assert(p.first() == p.last());
        }
    }
    if !reachable(adj, s, v) && dist[v] != usize::MAX {
        let p = choose|p: Seq<usize>| #[trigger]
            walk_between(adj, p, s, v) && p.len() == dist[v] + 1;
        assert(walk_between(adj, p, s, v));
    }
}

/// Every walk is counted: where a walk of `k` edges leads from `s` to `t`,
/// the number of such walks is not zero.
pub proof fn law_walks_are_counted(adj: Seq<Seq<usize>>, s: int, p: Seq<usize>)
    requires
        adj.len() <= usize::MAX,
        is_walk(adj, p),
        p.first() == s,
    ensures
        walk_count(adj, s, p.last() as int, (p.len() - 1) as nat) > 0,
    decreases p.len(),
{
    broadcast use vstd::seq_lib::to_multiset_contains;

    if p.len() > 1 {
        let q = p.drop_last();
        let k1 = (q.len() - 1) as nat;
        let u = q.last() as int;
        let t = p.last();
        assert forall|i: int| 0 <= i < q.len() - 1 implies #[trigger] step(adj, q, i) by {
            assert(step(adj, p, i));
        }
        assert(q[0] == p[0]);
        law_walks_are_counted(adj, s, q);
        assert(step(adj, p, p.len() - 2));
        assert(adj[u].contains(t));
        assert(last_step(adj, s, t as int, k1)(u) > 0) by (nonlinear_arith)
            requires
                last_step(adj, s, t as int, k1)(u) == multiplicity(adj[u], t) * walk_count(
                    adj,
                    s,
                    u,
                    k1,
                ),
                multiplicity(adj[u], t) > 0,
                walk_count(adj, s, u, k1) > 0,
        ;
        lemma_sum_below_term(last_step(adj, s, t as int, k1), adj.len(), u);
        lemma_walks_via_is_sum(adj, s, t as int, k1, adj.len());
    }
}

/// Only walks are counted: where the number of walks of `k` edges from `s`
/// to `t` is not zero, there is such a walk.
pub proof fn law_counted_walks_exist(adj: Seq<Seq<usize>>, s: int, t: int, k: nat) -> (p: Seq<
    usize,
>)
    requires
        adj.len() <= usize::MAX,
        0 <= s < adj.len(),
        0 <= t < adj.len(),
        walk_count(adj, s, t, k) > 0,
    ensures
        walk_between(adj, p, s, t),
        p.len() == k + 1,
    decreases k,
{
    broadcast use vstd::seq_lib::to_multiset_contains;

    if k == 0 {
        let alone = seq![s as usize];
        assert(is_walk(adj, alone));
        alone
    } else {
        let k1 = (k - 1) as nat;
        lemma_walks_via_is_sum(adj, s, t, k1, adj.len());
        let u = lemma_sum_below_positive(last_step(adj, s, t, k1), adj.len());
        assert(multiplicity(adj[u], t as usize) > 0 && walk_count(adj, s, u, k1) > 0) by (
        nonlinear_arith)
            requires
                multiplicity(adj[u], t as usize) * walk_count(adj, s, u, k1) > 0,
        ;
        let q = law_counted_walks_exist(adj, s, u, k1);
        let p = q.push(t as usize);
        assert(adj[u].contains(t as usize));
        assert forall|i: int| 0 <= i < p.len() - 1 implies #[trigger] step(adj, p, i) by {
            if i < q.len() - 1 {
                assert(step(adj, q, i));
            }
        }
        assert forall|i: int| 0 <= i < p.len() implies (#[trigger] p[i]) < adj.len() by {
            if i < q.len() {
                assert(q[i] < adj.len());
            }
        }
        p
    }
}

/// Every predecessor of `w` in the list that a search gives is a vertex of
/// `done` that lists `w` and lies one step before it.
pub proof fn lemma_pred_list_members(
    adj: Seq<Seq<usize>>,
    dist: Seq<usize>,
    done: Seq<usize>,
    w: int,
    k: int,
)
    requires
        0 <= k < pred_list(adj, dist, done, w).len(),
    ensures
        done.contains(pred_list(adj, dist, done, w)[k]),
        is_pred(dist, pred_list(adj, dist, done, w)[k] as int, w),
    decreases done.len(),
{
    if done.len() > 0 {
        let rest = done.drop_last();
        let front = pred_list(adj, dist, rest, w);
        if k < front.len() {
            lemma_pred_list_members(adj, dist, rest, w, k);
            let j = rest.index_of(front[k]);
            assert(done[j] == front[k]);
        } else {
            assert(done[done.len() - 1] == done.last());
        }
    }
}

/// Every vertex lists every other vertex.
pub open spec fn complete(adj: Seq<Seq<usize>>) -> bool {
    forall|u: int, v: int|
        0 <= u < adj.len() && 0 <= v < adj.len() && u != v ==> #[trigger] adj[u].contains(
            v as usize,
        )
}

/// In a complete graph a search from `s` finds every other vertex at
/// distance 1, and no vertex but `s` is ever a predecessor: no shortest
/// walk passes through a third vertex.
pub proof fn law_complete_graph_predecessors(
    adj: Seq<Seq<usize>>,
    s: int,
    order: Seq<usize>,
    preds: Seq<Seq<usize>>,
    sigma: Seq<usize>,
    dist: Seq<usize>,
    w: int,
    k: int,
)
    requires
        adj.len() <= usize::MAX,
        complete(adj),
        0 <= s < adj.len(),
        shortest_paths_from(adj, s, order, preds, sigma, dist),
        0 <= w < adj.len(),
        0 <= k < preds[w].len(),
    ensures
        w != s,
        dist[w] == 1,
        preds[w][k] == s,
{
    lemma_pred_list_members(adj, dist, order, w, k);
    let u = preds[w][k];
    let j = order.index_of(u);
    assert(order[j] == u);
    law_search_base_cases(adj, s, dist, w);
    if w != s {
        assert(adj[s].contains(w as usize));
        assert(is_distance(adj, s, u as int, dist[u as int] as int));
        let p = choose|p: Seq<usize>| #[trigger] walk_between(adj, p, s, u as int) && p.len() == 1;
        assert(p.first() == p.last());
    }
}

/// The closeness of a vertex without neighbours is zero.
pub proof fn law_isolated_closeness(adj: Seq<Seq<usize>>, v: int, dist: Seq<usize>)
    requires
        adj.len() <= usize::MAX,
        0 <= v < adj.len(),
        adj[v].len() == 0,
        distances_from(adj, v, dist),
    ensures
        closeness(adj, v) == (0nat, 1nat),
{
    lemma_distances_are_unique(adj, v, dist);
    law_search_base_cases(adj, v, dist, v);
    assert forall|k: int| 0 <= k < dist.len() implies finite()(#[trigger] dist[k] as int) == 0 by {
        if k != v && dist[k] != usize::MAX {
            let p = choose|p: Seq<usize>| #[trigger]
                walk_between(adj, p, v, k) && p.len() == dist[k] + 1;
            assert(walk_between(adj, p, v, k));
            assert(is_walk(adj, p));
            if p.len() > 1 {
                assert(step(adj, p, 0));
            }
        }
    }
    lemma_sum_over_zero(finite(), dist);
    assert(total_distance(adj, v) == 0);
}

} // verus!
