//! The single-source search that the centrality measures build on: visit
//! order, predecessors, numbers of shortest walks and distances.

use crate::counting::{
    lemma_count_begins, lemma_count_finds, lemma_count_looks, lemma_count_takes,
};
use crate::geodesics::{counting, is_pred, lemma_found_distance, pred_list, walk_count};
use crate::graph::{lists, Graph};
use crate::ordering::{
    in_order_found, lemma_trace_ends, lemma_trace_finds, lemma_trace_passes, lemma_trace_takes,
    tracing,
};
use crate::paths::{
    base_cases, bfs_shortest_paths, distances_bounded, distances_from, is_distance,
    lemma_base_cases, lemma_distinct_bounded, lemma_search_begins, lemma_search_ends,
    lemma_search_finds, lemma_search_is_bounded, lemma_search_passes, lemma_search_takes,
    reachable, searching, walk_between,
};
use std::collections::VecDeque;
use vstd::prelude::*;

verus! {

/// For every vertex, the number of shortest walks to it from `s` fits
/// into a `usize`.
pub open spec fn geodesics_fit(adj: Seq<Seq<usize>>, s: int) -> bool {
    forall|w: int, d: int|
        0 <= w < adj.len() && 0 <= d && #[trigger] is_distance(adj, s, w, d) ==> walk_count(
            adj,
            s,
            w,
            d as nat,
        ) <= usize::MAX
}

/// What a search from `s` returns. `dist` holds the distances. `order`
/// holds each vertex that can be reached once, `s` first and the others as
/// they were found, so nearer vertices before further ones. `sigma` holds
/// for each vertex the number of shortest walks to it, and 0 where there
/// is none. `preds` holds for each vertex its predecessors on shortest
/// walks, in the order of `order`, each as often as it lists the vertex.
pub open spec fn shortest_paths_from(
    adj: Seq<Seq<usize>>,
    s: int,
    order: Seq<usize>,
    preds: Seq<Seq<usize>>,
    sigma: Seq<usize>,
    dist: Seq<usize>,
) -> bool {
    &&& distances_from(adj, s, dist)
    &&& distances_bounded(dist)
    &&& base_cases(adj, s, dist)
    &&& sigma.len() == adj.len()
    &&& preds.len() == adj.len()
    &&& order.len() > 0
    &&& order[0] == s
    &&& order.no_duplicates()
    &&& forall|k: int| 0 <= k < order.len() ==> (#[trigger] order[k]) < adj.len()
    &&& forall|x: int|
        0 <= x < adj.len() ==> ((#[trigger] dist[x]) != usize::MAX <==> order.contains(x as usize))
    &&& forall|a: int, b: int|
        0 <= a <= b < order.len() ==> dist[#[trigger] order[a] as int]
            <= dist[#[trigger] order[b] as int]
    &&& in_order_found(adj, order)
    &&& forall|w: int|
        0 <= w < adj.len() ==> #[trigger] sigma[w] == if dist[w] == usize::MAX {
            0
        } else {
            walk_count(adj, s, w, dist[w] as nat)
        }
    &&& forall|w: int| 0 <= w < adj.len() ==> #[trigger] preds[w] == pred_list(adj, dist, order, w)
}

/// A vertex that was not found has no predecessors.
pub proof fn lemma_unfound_has_no_pred(
    adj: Seq<Seq<usize>>,
    dist: Seq<usize>,
    done: Seq<usize>,
    w: int,
)
    requires
        dist[w] == usize::MAX,
    ensures
        pred_list(adj, dist, done, w) == Seq::<usize>::empty(),
    decreases done.len(),
{
    if done.len() > 0 {
        lemma_unfound_has_no_pred(adj, dist, done.drop_last(), w);
        assert(pred_list(adj, dist, done, w) =~= Seq::<usize>::empty());
    }
}

/// Where distances are known, a vertex has one distance only.
pub proof fn lemma_distance_is_unique(adj: Seq<Seq<usize>>, s: int, w: int, d: int, e: int)
    requires
        is_distance(adj, s, w, d),
        is_distance(adj, s, w, e),
    ensures
        d == e,
{
    let p = choose|p: Seq<usize>| #[trigger] walk_between(adj, p, s, w) && p.len() == d + 1;
    let q = choose|q: Seq<usize>| #[trigger] walk_between(adj, q, s, w) && q.len() == e + 1;
    assert(walk_between(adj, p, s, w));
    assert(walk_between(adj, q, s, w));
}

/// The distances from `s`, with `usize::MAX` for the vertices that cannot
/// be reached.
pub open spec fn distances(adj: Seq<Seq<usize>>, s: int) -> Seq<usize> {
    choose|dist: Seq<usize>| distances_from(adj, s, dist)
}

/// There is one list of distances from `s` only.
pub proof fn lemma_distances_are_unique(adj: Seq<Seq<usize>>, s: int, dist: Seq<usize>)
    requires
        distances_from(adj, s, dist),
    ensures
        dist == distances(adj, s),
{
    let other = distances(adj, s);
    assert(distances_from(adj, s, other));
    assert forall|t: int| 0 <= t < adj.len() implies dist[t] == other[t] by {
        if dist[t] != usize::MAX {
            let p = choose|p: Seq<usize>| #[trigger]
                walk_between(adj, p, s, t) && p.len() == dist[t] + 1;
            assert(walk_between(adj, p, s, t));
            assert(reachable(adj, s, t));
        }
        if other[t] != usize::MAX {
            let q = choose|q: Seq<usize>| #[trigger]
                walk_between(adj, q, s, t) && q.len() == other[t] + 1;
            assert(walk_between(adj, q, s, t));
            assert(reachable(adj, s, t));
        }
        if dist[t] != usize::MAX && other[t] != usize::MAX {
            lemma_distance_is_unique(adj, s, t, dist[t] as int, other[t] as int);
        }
    }
    assert(dist =~= other);
}

/// Once the queue is empty, the search has what `shortest_paths_from`
/// describes, and every number of shortest walks has fitted.
pub proof fn lemma_count_ends(
    adj: Seq<Seq<usize>>,
    s: int,
    dist: Seq<usize>,
    done: Seq<usize>,
    upto: int,
    walks: Seq<Seq<usize>>,
    sigma: Seq<usize>,
    preds: Seq<Seq<usize>>,
    found: Seq<(int, int)>,
)
    requires
        adj.len() <= usize::MAX,
        searching(adj, s, dist, done, Seq::empty(), upto, walks),
        counting(adj, s, dist, done, upto, sigma, preds),
        tracing(adj, done, Seq::empty(), upto, found),
        upto == adj[done.last() as int].len(),
    ensures
        shortest_paths_from(adj, s, done, preds, sigma, dist),
        geodesics_fit(adj, s),
{
    lemma_search_ends(adj, s, dist, done, upto, walks);
    lemma_base_cases(adj, s, dist);
    lemma_trace_ends(adj, done, upto, found);
    lemma_search_is_bounded(adj, s, dist, done, Seq::empty(), upto, walks);
    assert(done + Seq::<usize>::empty() =~= done);
    assert forall|w: int| 0 <= w < adj.len() implies #[trigger] sigma[w] == if dist[w]
        == usize::MAX {
        0
    } else {
        walk_count(adj, s, w, dist[w] as nat)
    } by {
        if dist[w] != usize::MAX {
            assert(done.contains(w as usize));
            let k = done.index_of(w as usize);
            assert(done[k] == w as usize);
        }
    }
    assert forall|w: int| 0 <= w < adj.len() implies #[trigger] preds[w] == pred_list(
        adj,
        dist,
        done,
        w,
    ) by {
        if dist[w] == usize::MAX {
            lemma_unfound_has_no_pred(adj, dist, done, w);
        }
    }
    assert forall|w: int, d: int|
        0 <= w < adj.len() && 0 <= d && #[trigger] is_distance(adj, s, w, d) implies walk_count(
        adj,
        s,
        w,
        d as nat,
    ) <= usize::MAX by {
        let p = choose|p: Seq<usize>| #[trigger] walk_between(adj, p, s, w) && p.len() == d + 1;
        assert(walk_between(adj, p, s, w));
        assert(reachable(adj, s, w));
        assert(dist[w] != usize::MAX);
        lemma_distance_is_unique(adj, s, w, d, dist[w] as int);
        assert(sigma[w] == walk_count(adj, s, w, dist[w] as nat));
    }
}

/// Breadth-first search from `s` that counts shortest walks. It returns the
/// order in which the vertices left the queue, the predecessors of every
/// vertex, the number of shortest walks to every vertex, and the
/// distances; or nothing, where one of those numbers does not fit into a
/// `usize`.
pub fn single_source_shortest_path(graph: &Graph, s: usize) -> (res: Option<
    (Vec<usize>, Vec<Vec<usize>>, Vec<usize>, Vec<usize>),
>)
    requires
        graph.wf(),
        s < graph.vertices,
    ensures
        match res {
            Some((stack, predecessors, shortest_paths, distances)) => geodesics_fit(
                graph@,
                s as int,
            ) && shortest_paths_from(
                graph@,
                s as int,
                stack@,
                lists(&predecessors),
                shortest_paths@,
                distances@,
            ),
            None => !geodesics_fit(graph@, s as int),
        },
{
    let n = graph.vertices;
    let mut distances: Vec<usize> = vec![usize::MAX; n];
    let mut shortest_paths: Vec<usize> = vec![0usize; n];
    let mut predecessors: Vec<Vec<usize>> = vec![Vec::new(); n];
    let mut queue: VecDeque<usize> = VecDeque::new();
    let mut stack: Vec<usize> = Vec::new();
    distances[s] = 0;
    shortest_paths[s] = 1;
    queue.push_back(s);
    let ghost mut walks: Seq<Seq<usize>> = Seq::new(n as nat, |x: int| seq![s]);
    let ghost mut upto: int = 0;
    let ghost mut found: Seq<(int, int)> = Seq::new(n as nat, |x: int| (0int, 0int));
    proof {
        lemma_search_begins(graph@, s as int, n as nat);
        lemma_count_begins(graph@, s as int, n as nat);
        assert(distances@ =~= Seq::new(n as nat, |x: int| usize::MAX).update(s as int, 0usize));
        assert(shortest_paths@ =~= Seq::new(n as nat, |x: int| 0usize).update(s as int, 1usize));
        assert(lists(&predecessors) =~= Seq::new(n as nat, |x: int| Seq::<usize>::empty()));
        assert(queue@ =~= seq![s]);
        assert(stack@ =~= Seq::<usize>::empty());
    }
    while queue.len() > 0
        invariant
            graph.wf(),
            n == graph.vertices,
            searching(graph@, s as int, distances@, stack@, queue@, upto, walks),
            counting(
                graph@,
                s as int,
                distances@,
                stack@,
                upto,
                shortest_paths@,
                lists(&predecessors),
            ),
            tracing(graph@, stack@, queue@, upto, found),
            stack@.len() > 0 ==> upto == graph@[stack@.last() as int].len(),
            stack@.len() + queue@.len() <= n,
        decreases n - stack@.len(),
    {
        proof {
            lemma_search_takes(graph@, s as int, distances@, stack@, queue@, upto, walks);
            lemma_trace_takes(graph@, stack@, queue@, upto, found);
            lemma_count_takes(
                graph@,
                s as int,
                distances@,
                stack@,
                queue@,
                upto,
                walks,
                shortest_paths@,
                lists(&predecessors),
            );
        }
        let v = queue.pop_front().unwrap();
        stack.push(v);
        proof {
            upto = 0;
        }
        let neighbors = &graph.adj_list[v];
        let mut i: usize = 0;
        while i < neighbors.len()
            invariant
                graph.wf(),
                n == graph.vertices,
                v < n,
                neighbors@ == graph@[v as int],
                stack@.len() > 0,
                stack@.last() == v,
                i <= neighbors.len(),
                upto == i,
                searching(graph@, s as int, distances@, stack@, queue@, upto, walks),
                counting(
                    graph@,
                    s as int,
                    distances@,
                    stack@,
                    upto,
                    shortest_paths@,
                    lists(&predecessors),
                ),
                tracing(graph@, stack@, queue@, upto, found),
            decreases neighbors.len() - i,
        {
            let w = neighbors[i];
            assert(w < n) by {
                assert(graph@[v as int][i as int] < n);
            }
            if distances[w] == usize::MAX {
                proof {
                    lemma_count_finds(
                        graph@,
                        s as int,
                        distances@,
                        stack@,
                        queue@,
                        upto,
                        walks,
                        shortest_paths@,
                        lists(&predecessors),
                    );
                    lemma_trace_finds(
                        graph@,
                        s as int,
                        distances@,
                        stack@,
                        queue@,
                        upto,
                        walks,
                        found,
                    );
                    lemma_search_finds(graph@, s as int, distances@, stack@, queue@, upto, walks);
                    walks = walks.update(w as int, walks[v as int].push(w));
                    found = found.update(w as int, (stack@.len() - 1, upto));
                }
                queue.push_back(w);
                distances[w] = distances[v] + 1;
            } else {
                proof {
                    lemma_search_passes(graph@, s as int, distances@, stack@, queue@, upto, walks);
                    lemma_trace_passes(graph@, stack@, queue@, upto, found);
                }
            }
            proof {
                lemma_count_looks(
                    graph@,
                    s as int,
                    distances@,
                    stack@,
                    queue@,
                    upto,
                    walks,
                    shortest_paths@,
                    lists(&predecessors),
                );
                assert((stack@ + queue@).contains(v)) by {
                    assert((stack@ + queue@)[stack@.len() - 1] == v);
                }
            }
            if distances[w] == distances[v] + 1 {
                assert(is_pred(distances@, v as int, w as int));
                match shortest_paths[w].checked_add(shortest_paths[v]) {
                    Some(total) => {
                        let ghost before = lists(&predecessors);
                        shortest_paths[w] = total;
                        predecessors[w].push(v);
                        assert(lists(&predecessors) =~= before.update(
                            w as int,
                            before[w as int].push(v),
                        ));
                    },
                    None => {
                        proof {
                            lemma_found_distance(
                                graph@,
                                s as int,
                                distances@,
                                stack@,
                                queue@,
                                upto + 1,
                                walks,
                                w as int,
                            );
                            assert(is_distance(
                                graph@,
                                s as int,
                                w as int,
                                distances@[w as int] as int,
                            ));
                        }
                        return None;
                    },
                }
            } else {
                assert(!is_pred(distances@, v as int, w as int));
            }
            i += 1;
            proof {
                upto = upto + 1;
            }
        }
        proof {
            lemma_distinct_bounded(stack@ + queue@, n as nat);
        }
    }
    proof {
        assert(queue@ =~= Seq::empty());
        assert((stack@ + queue@).len() > 0);
        lemma_count_ends(
            graph@,
            s as int,
            distances@,
            stack@,
            upto,
            walks,
            shortest_paths@,
            lists(&predecessors),
            found,
        );
    }
    Some((stack, predecessors, shortest_paths, distances))
}

/// The distances between all pairs of vertices: row `s` holds the
/// distances from `s`.
pub fn distance_matrix(graph: &Graph) -> (matrix: Vec<Vec<usize>>)
    requires
        graph.wf(),
    ensures
        matrix@.len() == graph.vertices,
        forall|s: int|
            0 <= s < graph.vertices ==> distances_from(graph@, s, (#[trigger] matrix@[s])@),
{
    let mut matrix: Vec<Vec<usize>> = Vec::new();
    let mut s: usize = 0;
    while s < graph.vertices
        invariant
            graph.wf(),
            s <= graph.vertices,
            matrix@.len() == s,
            forall|t: int| 0 <= t < s ==> distances_from(graph@, t, (#[trigger] matrix@[t])@),
        decreases graph.vertices - s,
    {
        let distances = bfs_shortest_paths(graph, s);
        matrix.push(distances);
        s += 1;
    }
    matrix
}

} // verus!
