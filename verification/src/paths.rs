//! The shortest-path engine: breadth-first search from one source, with the
//! model of walks and distances that its contracts are stated over.

use crate::graph::{in_range, Graph};
use crate::laws::law_search_base_cases;
use std::collections::VecDeque;
use vstd::prelude::*;

verus! {

/// The walk `p` goes from its vertex number `i` to the next along an edge.
pub open spec fn step(adj: Seq<Seq<usize>>, p: Seq<usize>, i: int) -> bool {
    adj[p[i] as int].contains(p[i + 1])
}

/// `p` is a walk: a non-empty sequence of vertices, each listed among the
/// neighbours of the one before it.
pub open spec fn is_walk(adj: Seq<Seq<usize>>, p: Seq<usize>) -> bool {
    &&& p.len() > 0
    &&& forall|i: int| 0 <= i < p.len() ==> (#[trigger] p[i]) < adj.len()
    &&& forall|i: int| 0 <= i < p.len() - 1 ==> #[trigger] step(adj, p, i)
}

/// `p` is a walk from `s` to `t`.
pub open spec fn walk_between(adj: Seq<Seq<usize>>, p: Seq<usize>, s: int, t: int) -> bool {
    is_walk(adj, p) && p.first() == s && p.last() == t
}

/// Some walk leads from `s` to `t`.
pub open spec fn reachable(adj: Seq<Seq<usize>>, s: int, t: int) -> bool {
    exists|p: Seq<usize>| walk_between(adj, p, s, t)
}

/// `d` is the number of edges of a shortest walk from `s` to `t`.
pub open spec fn is_distance(adj: Seq<Seq<usize>>, s: int, t: int, d: int) -> bool {
    &&& exists|p: Seq<usize>| #[trigger] walk_between(adj, p, s, t) && p.len() == d + 1
    &&& forall|p: Seq<usize>| #[trigger] walk_between(adj, p, s, t) ==> p.len() >= d + 1
}

/// `dist` holds, for every vertex, its distance from `s`, and `usize::MAX`
/// for the vertices that no walk from `s` reaches.
pub open spec fn distances_from(adj: Seq<Seq<usize>>, s: int, dist: Seq<usize>) -> bool {
    &&& dist.len() == adj.len()
    &&& forall|t: int|
        0 <= t < adj.len() ==> if #[trigger] dist[t] == usize::MAX {
            !reachable(adj, s, t)
        } else {
            is_distance(adj, s, t, dist[t] as int)
        }
}

/// The first `upto` neighbours of `u` have a distance, at most one more
/// than that of `u`.
pub open spec fn settled(adj: Seq<Seq<usize>>, dist: Seq<usize>, u: int, upto: int) -> bool {
    forall|j: int|
        #![trigger adj[u][j]]
        0 <= j < upto ==> dist[adj[u][j] as int] != usize::MAX && dist[adj[u][j] as int] <= dist[u]
            + 1
}

/// A moment of a breadth-first search from `s`. `done` holds the vertices
/// taken from the queue, in that order, `queue` those that wait, `upto` the
/// number of neighbours of the last vertex of `done` that were looked at,
/// and `walks` a walk of `dist[x]` edges from `s` to every vertex `x` found.
pub open spec fn searching(
    adj: Seq<Seq<usize>>,
    s: int,
    dist: Seq<usize>,
    done: Seq<usize>,
    queue: Seq<usize>,
    upto: int,
    walks: Seq<Seq<usize>>,
) -> bool {
    let order = done + queue;
    &&& in_range(adj, adj.len() as int)
    &&& dist.len() == adj.len()
    &&& walks.len() == adj.len()
    &&& 0 <= s < adj.len()
    &&& dist[s] == 0
    &&& order.len() > 0
    &&& order[0] == s
    &&& done.len() == 0 ==> queue.len() == 1
    &&& order.no_duplicates()
    &&& forall|k: int| 0 <= k < order.len() ==> (#[trigger] order[k]) < adj.len()
    &&& forall|x: int|
        0 <= x < adj.len() ==> ((#[trigger] dist[x]) != usize::MAX <==> order.contains(x as usize))
    &&& forall|a: int, b: int|
        0 <= a <= b < order.len() ==> dist[#[trigger] order[a] as int]
            <= dist[#[trigger] order[b] as int]
    &&& done.len() > 0 ==> dist[order.last() as int] <= dist[done.last() as int] + 1
    &&& forall|k: int| 0 <= k < order.len() ==> dist[#[trigger] order[k] as int] <= k
    &&& forall|k: int|
        0 <= k < done.len() - 1 ==> settled(
            adj,
            dist,
            #[trigger] done[k] as int,
            adj[done[k] as int].len() as int,
        )
    &&& done.len() > 0 ==> 0 <= upto <= adj[done.last() as int].len() && settled(
        adj,
        dist,
        done.last() as int,
        upto,
    )
    &&& forall|x: int|
        0 <= x < adj.len() && (#[trigger] dist[x]) != usize::MAX ==> walk_between(
            adj,
            walks[x],
            s,
            x,
        ) && walks[x].len() == dist[x] + 1
}

/// A sequence of distinct numbers below `n` has at most `n` entries.
pub proof fn lemma_distinct_bounded(order: Seq<usize>, n: nat)
    requires
        order.no_duplicates(),
        forall|k: int| 0 <= k < order.len() ==> (#[trigger] order[k]) < n,
    ensures
        order.len() <= n,
    decreases n,
{
    if n == 0 {
        if order.len() > 0 {
            assert(order[0] < n);
        }
    } else if order.contains((n - 1) as usize) {
        let i = order.index_of((n - 1) as usize);
        let rest = order.remove(i);
        assert forall|k: int| 0 <= k < rest.len() implies (#[trigger] rest[k]) < n - 1 by {
            if k < i {
                assert(rest[k] == order[k]);
            } else {
                assert(rest[k] == order[k + 1]);
            }
        }
        assert(rest.no_duplicates()) by {
            assert forall|a: int, b: int| 0 <= a < rest.len() && 0 <= b < rest.len() && a != b
                implies rest[a] != rest[b] by {
                let a0 = if a < i { a } else { a + 1 };
                let b0 = if b < i { b } else { b + 1 };
                assert(rest[a] == order[a0] && rest[b] == order[b0]);
            }
        }
        lemma_distinct_bounded(rest, (n - 1) as nat);
    } else {
        assert forall|k: int| 0 <= k < order.len() implies (#[trigger] order[k]) < n - 1 by {
            assert(order.contains(order[k]));
        }
        lemma_distinct_bounded(order, (n - 1) as nat);
    }
}

/// The search begins with the source alone in the queue.
pub proof fn lemma_search_begins(adj: Seq<Seq<usize>>, s: int, n: nat)
    requires
        n == adj.len(),
        in_range(adj, n as int),
        0 <= s < n,
        n <= usize::MAX,
    ensures
        searching(
            adj,
            s,
            Seq::new(n, |x: int| usize::MAX).update(s, 0usize),
            Seq::empty(),
            seq![s as usize],
            0,
            Seq::new(n, |x: int| seq![s as usize]),
        ),
{
    let dist = Seq::new(n, |x: int| usize::MAX).update(s, 0usize);
    let order = Seq::<usize>::empty() + seq![s as usize];
    let walks = Seq::new(n, |x: int| seq![s as usize]);
    assert(order =~= seq![s as usize]);
    assert(order[0] == s);
    assert forall|x: int| 0 <= x < adj.len() implies ((#[trigger] dist[x]) != usize::MAX
        <==> order.contains(x as usize)) by {
        if x == s {
            assert(order[0] == x as usize);
        }
    }
    assert(is_walk(adj, walks[s]));
}

/// Taking the head of the queue keeps the search in order.
pub proof fn lemma_search_takes(
    adj: Seq<Seq<usize>>,
    s: int,
    dist: Seq<usize>,
    done: Seq<usize>,
    queue: Seq<usize>,
    upto: int,
    walks: Seq<Seq<usize>>,
)
    requires
        searching(adj, s, dist, done, queue, upto, walks),
        queue.len() > 0,
        done.len() > 0 ==> upto == adj[done.last() as int].len(),
    ensures
        searching(
            adj,
            s,
            dist,
            done.push(queue[0]),
            queue.subrange(1, queue.len() as int),
            0,
            walks,
        ),
        done.len() < adj.len(),
        dist[queue[0] as int] != usize::MAX,
        queue[0] < adj.len(),
{
    let order = done + queue;
    let done2 = done.push(queue[0]);
    let queue2 = queue.subrange(1, queue.len() as int);
    assert(done2 + queue2 =~= order);
    assert(order[done.len() as int] == queue[0]);
    assert(order.contains(queue[0]));
    lemma_distinct_bounded(order, adj.len());
    if done.len() > 0 {
        assert(order[done.len() - 1] == done.last());
    }
    assert forall|k: int| 0 <= k < done2.len() - 1 implies settled(
        adj,
        dist,
        #[trigger] done2[k] as int,
        adj[done2[k] as int].len() as int,
    ) by {
        assert(done2[k] == done[k]);
    }
}

/// Looking at a neighbour that already has a distance changes nothing.
pub proof fn lemma_search_passes(
    adj: Seq<Seq<usize>>,
    s: int,
    dist: Seq<usize>,
    done: Seq<usize>,
    queue: Seq<usize>,
    upto: int,
    walks: Seq<Seq<usize>>,
)
    requires
        searching(adj, s, dist, done, queue, upto, walks),
        done.len() > 0,
        upto < adj[done.last() as int].len(),
        adj[done.last() as int][upto] < adj.len(),
        dist[adj[done.last() as int][upto] as int] != usize::MAX,
    ensures
        searching(adj, s, dist, done, queue, upto + 1, walks),
{
    let order = done + queue;
    let v = done.last() as int;
    let w = adj[v][upto];
    assert(order.contains(w));
    let k = order.index_of(w);
    assert(dist[order[k] as int] <= dist[order[order.len() - 1] as int]);
}

/// A neighbour without a distance gets the distance of the vertex at hand
/// plus one and joins the queue.
pub proof fn lemma_search_finds(
    adj: Seq<Seq<usize>>,
    s: int,
    dist: Seq<usize>,
    done: Seq<usize>,
    queue: Seq<usize>,
    upto: int,
    walks: Seq<Seq<usize>>,
)
    requires
        searching(adj, s, dist, done, queue, upto, walks),
        adj.len() <= usize::MAX,
        done.len() > 0,
        upto < adj[done.last() as int].len(),
        adj[done.last() as int][upto] < adj.len(),
        dist[adj[done.last() as int][upto] as int] == usize::MAX,
    ensures
        dist[done.last() as int] + 1 < adj.len(),
        searching(
            adj,
            s,
            dist.update(
                adj[done.last() as int][upto] as int,
                (dist[done.last() as int] + 1) as usize,
            ),
            done,
            queue.push(adj[done.last() as int][upto]),
            upto + 1,
            walks.update(
                adj[done.last() as int][upto] as int,
                walks[done.last() as int].push(adj[done.last() as int][upto]),
            ),
        ),
{
    let order = done + queue;
    let v = done.last() as int;
    let w = adj[v][upto];
    let queue2 = queue.push(w);
    let order2 = done + queue2;
    let dist2 = dist.update(w as int, (dist[v] + 1) as usize);
    let walks2 = walks.update(w as int, walks[v].push(w));
    assert(order2 =~= order.push(w));
    assert(order[done.len() - 1] == done.last());
    assert(order.contains(done.last()));
    assert(!order.contains(w));
    assert forall|k: int| 0 <= k < order.len() implies (#[trigger] order[k]) != w by {
        assert(order.contains(order[k]));
    }
    assert(order2.no_duplicates());
    lemma_distinct_bounded(order2, adj.len());
    assert(dist[v] <= done.len() - 1);
    assert(dist[v] + 1 < adj.len());
    assert forall|x: int| 0 <= x < adj.len() implies ((#[trigger] dist2[x]) != usize::MAX
        <==> order2.contains(x as usize)) by {
        if x == w {
            assert(order2[order.len() as int] == w);
        } else if dist[x] != usize::MAX {
            let k = order.index_of(x as usize);
            assert(order2[k] == x as usize);
        } else {
            if order2.contains(x as usize) {
                let k = order2.index_of(x as usize);
                assert(order[k] == x as usize);
            }
        }
    }
    assert forall|a: int, b: int|
        0 <= a <= b < order2.len() implies dist2[#[trigger] order2[a] as int]
        <= dist2[#[trigger] order2[b] as int] by {
        if b < order.len() {
            assert(order2[a] == order[a] && order2[b] == order[b]);
        } else if a < order.len() {
            assert(order2[a] == order[a]);
            assert(dist[order[a] as int] <= dist[order[order.len() - 1] as int]);
        }
    }
    assert forall|k: int| 0 <= k < order2.len() implies dist2[#[trigger] order2[k] as int] <= k by {
        if k < order.len() {
            assert(order2[k] == order[k]);
        }
    }
    assert forall|k: int| 0 <= k < done.len() - 1 implies settled(
        adj,
        dist2,
        #[trigger] done[k] as int,
        adj[done[k] as int].len() as int,
    ) by {
        assert(order[k] == done[k]);
        let u = done[k] as int;
        assert(settled(adj, dist, u, adj[u].len() as int));
        assert forall|j: int| 0 <= j < adj[u].len() implies dist2[#[trigger] adj[u][j] as int]
            != usize::MAX && dist2[adj[u][j] as int] <= dist2[u] + 1 by {
            assert(adj[u][j] < adj.len());
        }
    }
    assert(settled(adj, dist2, v, upto + 1)) by {
        assert(settled(adj, dist, v, upto));
        assert forall|j: int| 0 <= j < upto + 1 implies dist2[#[trigger] adj[v][j] as int]
            != usize::MAX && dist2[adj[v][j] as int] <= dist2[v] + 1 by {
            assert(adj[v][j] < adj.len());
        }
    }
    assert forall|x: int|
        0 <= x < adj.len() && (#[trigger] dist2[x]) != usize::MAX implies walk_between(
        adj,
        walks2[x],
        s,
        x,
    ) && walks2[x].len() == dist2[x] + 1 by {
        if x == w {
            let p = walks[v];
            let q = p.push(w);
            assert(is_walk(adj, p));
            assert forall|i: int| 0 <= i < q.len() - 1 implies #[trigger] step(adj, q, i) by {
                if i < p.len() - 1 {
                    assert(step(adj, p, i));
                }
            }
        }
    }
}

/// Once the queue is empty, every vertex of a walk from `s` has a distance,
/// no greater than its place in the walk.
pub proof fn lemma_walk_is_bounded(
    adj: Seq<Seq<usize>>,
    s: int,
    dist: Seq<usize>,
    done: Seq<usize>,
    upto: int,
    walks: Seq<Seq<usize>>,
    p: Seq<usize>,
    i: int,
)
    requires
        searching(adj, s, dist, done, Seq::empty(), upto, walks),
        upto == adj[done.last() as int].len(),
        is_walk(adj, p),
        p.first() == s,
        0 <= i < p.len(),
    ensures
        dist[p[i] as int] != usize::MAX,
        dist[p[i] as int] <= i,
    decreases i,
{
    if i > 0 {
        lemma_walk_is_bounded(adj, s, dist, done, upto, walks, p, i - 1);
        let u = p[i - 1];
        assert(done + Seq::<usize>::empty() =~= done);
        assert(done.contains(u));
        let k = done.index_of(u);
        assert(step(adj, p, i - 1));
        let j = adj[u as int].index_of(p[i]);
        assert(adj[u as int][j] == p[i]);
        if k < done.len() - 1 {
            assert(settled(adj, dist, done[k] as int, adj[done[k] as int].len() as int));
        }
    }
}

/// Once the queue is empty, `dist` holds the distances from `s`.
pub proof fn lemma_search_ends(
    adj: Seq<Seq<usize>>,
    s: int,
    dist: Seq<usize>,
    done: Seq<usize>,
    upto: int,
    walks: Seq<Seq<usize>>,
)
    requires
        searching(adj, s, dist, done, Seq::empty(), upto, walks),
        upto == adj[done.last() as int].len(),
    ensures
        distances_from(adj, s, dist),
{
    assert forall|t: int| 0 <= t < adj.len() implies if #[trigger] dist[t] == usize::MAX {
        !reachable(adj, s, t)
    } else {
        is_distance(adj, s, t, dist[t] as int)
    } by {
        assert forall|p: Seq<usize>| #[trigger] walk_between(adj, p, s, t) implies dist[t]
            != usize::MAX && p.len() >= dist[t] + 1 by {
            lemma_walk_is_bounded(adj, s, dist, done, upto, walks, p, p.len() - 1);
        }
        if dist[t] != usize::MAX {
            assert(walk_between(adj, walks[t], s, t) && walks[t].len() == dist[t] + 1);
        }
    }
}

/// The base cases of a search from `s`: the source is at distance 0, every
/// other vertex that the source lists is at distance 1, and a vertex keeps
/// `usize::MAX` exactly where no walk from the source reaches it.
pub open spec fn base_cases(adj: Seq<Seq<usize>>, s: int, dist: Seq<usize>) -> bool {
    &&& dist[s] == 0
    &&& forall|v: int|
        0 <= v < adj.len() && v != s && adj[s].contains(v as usize) ==> #[trigger] dist[v] == 1
    &&& forall|v: int|
        0 <= v < adj.len() ==> ((#[trigger] dist[v]) == usize::MAX <==> !reachable(adj, s, v))
}

/// Distances from `s` have the base cases of a search.
pub proof fn lemma_base_cases(adj: Seq<Seq<usize>>, s: int, dist: Seq<usize>)
    requires
        adj.len() <= usize::MAX,
        distances_from(adj, s, dist),
        0 <= s < adj.len(),
    ensures
        base_cases(adj, s, dist),
{
    law_search_base_cases(adj, s, dist, s);
    assert forall|v: int|
        0 <= v < adj.len() && v != s && adj[s].contains(v as usize) implies #[trigger] dist[v]
        == 1 by {
        law_search_base_cases(adj, s, dist, v);
    }
    assert forall|v: int| 0 <= v < adj.len() implies ((#[trigger] dist[v]) == usize::MAX
        <==> !reachable(adj, s, v)) by {
        law_search_base_cases(adj, s, dist, v);
    }
}

/// Every distance in `dist` is below the number of vertices.
pub open spec fn distances_bounded(dist: Seq<usize>) -> bool {
    forall|t: int|
        0 <= t < dist.len() ==> (#[trigger] dist[t]) == usize::MAX || dist[t] < dist.len()
}

/// During a search every distance found is below the number of vertices.
pub proof fn lemma_search_is_bounded(
    adj: Seq<Seq<usize>>,
    s: int,
    dist: Seq<usize>,
    done: Seq<usize>,
    queue: Seq<usize>,
    upto: int,
    walks: Seq<Seq<usize>>,
)
    requires
        searching(adj, s, dist, done, queue, upto, walks),
    ensures
        distances_bounded(dist),
{
    let order = done + queue;
    lemma_distinct_bounded(order, adj.len());
    assert forall|t: int| 0 <= t < dist.len() implies (#[trigger] dist[t]) == usize::MAX || dist[t]
        < dist.len() by {
        if dist[t] != usize::MAX {
            assert(order.contains(t as usize));
            let k = order.index_of(t as usize);
            assert(dist[order[k] as int] <= k);
        }
    }
}

/// The distance of every vertex from `start`, by breadth-first search;
/// `usize::MAX` stands for a vertex that cannot be reached.
pub fn bfs_shortest_paths(graph: &Graph, start: usize) -> (distances: Vec<usize>)
    requires
        graph.wf(),
        start < graph.vertices,
    ensures
        distances_from(graph@, start as int, distances@),
        distances_bounded(distances@),
        base_cases(graph@, start as int, distances@),
{
    let n = graph.vertices;
    let mut distances: Vec<usize> = vec![usize::MAX; n];
    let mut queue: VecDeque<usize> = VecDeque::new();
    distances[start] = 0;
    queue.push_back(start);
    let ghost mut done: Seq<usize> = Seq::empty();
    let ghost mut walks: Seq<Seq<usize>> = Seq::new(n as nat, |x: int| seq![start]);
    let ghost mut upto: int = 0;
    proof {
        lemma_search_begins(graph@, start as int, n as nat);
        assert(distances@ =~= Seq::new(n as nat, |x: int| usize::MAX).update(start as int, 0usize));
        assert(queue@ =~= seq![start]);
    }
    while queue.len() > 0
        invariant
            graph.wf(),
            n == graph.vertices,
            searching(graph@, start as int, distances@, done, queue@, upto, walks),
            done.len() > 0 ==> upto == graph@[done.last() as int].len(),
            done.len() + queue@.len() <= n,
        decreases n - done.len(),
    {
        proof {
            lemma_search_takes(graph@, start as int, distances@, done, queue@, upto, walks);
        }
        let node = queue.pop_front().unwrap();
        proof {
            done = done.push(node);
            upto = 0;
        }
        let neighbors = &graph.adj_list[node];
        let mut i: usize = 0;
        while i < neighbors.len()
            invariant
                graph.wf(),
                n == graph.vertices,
                node < n,
                neighbors@ == graph@[node as int],
                done.len() > 0,
                done.last() == node,
                i <= neighbors.len(),
                upto == i,
                searching(graph@, start as int, distances@, done, queue@, upto, walks),
            decreases neighbors.len() - i,
        {
            let neighbor = neighbors[i];
            assert(neighbor < n) by {
                assert(graph@[node as int][i as int] < n);
            }
            if distances[neighbor] == usize::MAX {
                proof {
                    lemma_search_finds(graph@, start as int, distances@, done, queue@, upto, walks);
                    walks = walks.update(neighbor as int, walks[node as int].push(neighbor));
                }
                distances[neighbor] = distances[node] + 1;
                queue.push_back(neighbor);
            } else {
                proof {
                    lemma_search_passes(
                        graph@,
                        start as int,
                        distances@,
                        done,
                        queue@,
                        upto,
                        walks,
                    );
                }
            }
            i += 1;
            proof {
                upto = upto + 1;
            }
        }
        proof {
            lemma_distinct_bounded(done + queue@, n as nat);
        }
    }
    proof {
        assert(queue@ =~= Seq::empty());
        assert((done + queue@).len() > 0);
        lemma_search_ends(graph@, start as int, distances@, done, upto, walks);
        lemma_search_is_bounded(graph@, start as int, distances@, done, queue@, upto, walks);
        lemma_base_cases(graph@, start as int, distances@);
    }
    distances
}

} // verus!
