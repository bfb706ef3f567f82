//! Counting walks: the number of walks of a given length between two
//! vertices, and what a breadth-first search knows of it while it runs.

use crate::graph::{in_range, lemma_multiplicity_push, multiplicity};
use crate::paths::{is_distance, is_walk, searching, settled, step, walk_between};
use crate::sums::{lemma_sum_below_positive, sum_below, sum_over};
use vstd::prelude::*;

verus! {

/// The number of walks of `k` edges from `s` to `t` whose last edge leaves a
/// vertex below `m`. Parallel edges make different walks.
pub open spec fn walks_via(adj: Seq<Seq<usize>>, s: int, t: int, k: nat, m: nat) -> nat
    decreases k, m,
{
    if k == 0 {
        if s == t {
            1
        } else {
            0
        }
    } else if m == 0 {
        0
    } else {
        walks_via(adj, s, t, k, (m - 1) as nat) + multiplicity(adj[m - 1], t as usize) * walks_via(
            adj,
            s,
            m - 1,
            (k - 1) as nat,
            adj.len(),
        )
    }
}

/// The number of walks of `k` edges from `s` to `t`.
pub open spec fn walk_count(adj: Seq<Seq<usize>>, s: int, t: int, k: nat) -> nat {
    walks_via(adj, s, t, k, adj.len())
}

/// The number of walks of `k + 1` edges from `s` to `t` whose last edge
/// leaves `u`, as a function of `u`.
pub open spec fn last_step(adj: Seq<Seq<usize>>, s: int, t: int, k: nat) -> spec_fn(int) -> nat {
    |u: int| multiplicity(adj[u], t as usize) * walk_count(adj, s, u, k)
}

/// A walk of `k + 1` edges is a walk of `k` edges and one more edge.
pub proof fn lemma_walks_via_is_sum(adj: Seq<Seq<usize>>, s: int, t: int, k: nat, m: nat)
    ensures
        walks_via(adj, s, t, k + 1, m) == sum_below(last_step(adj, s, t, k), m),
    decreases m,
{
    if m > 0 {
        lemma_walks_via_is_sum(adj, s, t, k, (m - 1) as nat);
    }
}

/// Every vertex found at a distance below `level` has all its neighbours
/// found, none more than one step further.
pub open spec fn closed_below(adj: Seq<Seq<usize>>, dist: Seq<usize>, level: int) -> bool {
    forall|u: int|
        0 <= u < adj.len() && (#[trigger] dist[u]) != usize::MAX && dist[u] < level ==> settled(
            adj,
            dist,
            u,
            adj[u].len() as int,
        )
}

/// During a search, the vertices nearer than the one at hand are closed.
pub proof fn lemma_closed_below(
    adj: Seq<Seq<usize>>,
    s: int,
    dist: Seq<usize>,
    done: Seq<usize>,
    queue: Seq<usize>,
    upto: int,
    walks: Seq<Seq<usize>>,
)
    requires
        searching(adj, s, dist, done, queue, upto, walks),
        done.len() > 0,
    ensures
        closed_below(adj, dist, dist[done.last() as int] as int),
{
    let order = done + queue;
    let level = dist[done.last() as int];
    assert forall|u: int|
        0 <= u < adj.len() && (#[trigger] dist[u]) != usize::MAX && dist[u] < level implies settled(
        adj,
        dist,
        u,
        adj[u].len() as int,
    ) by {
        assert(order.contains(u as usize));
        let k = order.index_of(u as usize);
        assert(order[done.len() - 1] == done.last());
        if k >= done.len() - 1 {
            assert(dist[order[done.len() - 1] as int] <= dist[order[k] as int]);
        }
        assert(done[k] == order[k]);
    }
}

/// Where the vertices below `level` are closed, a walk from `s` cannot
/// outrun the distances: its vertex number `i` has a distance of at most
/// `i`, for every `i` up to `level`.
pub proof fn lemma_walk_within(
    adj: Seq<Seq<usize>>,
    s: int,
    dist: Seq<usize>,
    level: int,
    p: Seq<usize>,
    i: int,
)
    requires
        dist.len() == adj.len(),
        0 <= s < adj.len(),
        dist[s] == 0,
        closed_below(adj, dist, level),
        is_walk(adj, p),
        p.first() == s,
        0 <= i < p.len(),
        i <= level,
    ensures
        dist[p[i] as int] != usize::MAX,
        dist[p[i] as int] <= i,
    decreases i,
{
    if i > 0 {
        lemma_walk_within(adj, s, dist, level, p, i - 1);
        let u = p[i - 1] as int;
        assert(step(adj, p, i - 1));
        let j = adj[u].index_of(p[i]);
        assert(adj[u][j] == p[i]);
        assert(settled(adj, dist, u, adj[u].len() as int));
    }
}

/// During a search, whatever was found has its true distance.
pub proof fn lemma_found_distance(
    adj: Seq<Seq<usize>>,
    s: int,
    dist: Seq<usize>,
    done: Seq<usize>,
    queue: Seq<usize>,
    upto: int,
    walks: Seq<Seq<usize>>,
    w: int,
)
    requires
        searching(adj, s, dist, done, queue, upto, walks),
        done.len() > 0,
        0 <= w < adj.len(),
        dist[w] != usize::MAX,
    ensures
        is_distance(adj, s, w, dist[w] as int),
{
    let order = done + queue;
    let level = dist[done.last() as int] as int;
    lemma_closed_below(adj, s, dist, done, queue, upto, walks);
    assert(order.contains(w as usize));
    let k = order.index_of(w as usize);
    assert(dist[order[k] as int] <= dist[order[order.len() - 1] as int]);
    assert(dist[w] <= level + 1);
    assert(walk_between(adj, walks[w], s, w) && walks[w].len() == dist[w] + 1);
    assert forall|p: Seq<usize>| #[trigger] walk_between(adj, p, s, w) implies p.len() >= dist[w]
        + 1 by {
        if p.len() < dist[w] + 1 {
            lemma_walk_within(adj, s, dist, level, p, p.len() - 1);
        }
    }
}

/// Where the vertices below `level` are closed, no walk of `k <= level`
/// edges from `s` ends at a vertex that is further than `k` or not found.
pub proof fn lemma_no_short_walk(
    adj: Seq<Seq<usize>>,
    s: int,
    dist: Seq<usize>,
    level: int,
    u: int,
    k: nat,
)
    requires
        in_range(adj, adj.len() as int),
        adj.len() <= usize::MAX,
        dist.len() == adj.len(),
        0 <= s < adj.len(),
        dist[s] == 0,
        closed_below(adj, dist, level),
        0 <= u < adj.len(),
        k <= level,
        dist[u] == usize::MAX || dist[u] > k,
    ensures
        walk_count(adj, s, u, k) == 0,
    decreases k,
{
    broadcast use vstd::seq_lib::to_multiset_contains;

    if k > 0 && walk_count(adj, s, u, k) > 0 {
        let k1 = (k - 1) as nat;
        lemma_walks_via_is_sum(adj, s, u, k1, adj.len());
        let x = lemma_sum_below_positive(last_step(adj, s, u, k1), adj.len());
        assert(multiplicity(adj[x], u as usize) * walk_count(adj, s, x, k1) > 0);
        assert(multiplicity(adj[x], u as usize) > 0 && walk_count(adj, s, x, k1) > 0) by (
        nonlinear_arith)
            requires
                multiplicity(adj[x], u as usize) * walk_count(adj, s, x, k1) > 0,
        ;
        if dist[x] == usize::MAX || dist[x] > k1 {
            lemma_no_short_walk(adj, s, dist, level, x, k1);
        }
        assert(settled(adj, dist, x, adj[x].len() as int));
        assert(adj[x].contains(u as usize));
        let j = adj[x].index_of(u as usize);
        assert(adj[x][j] == u as usize);
    }
}

/// `u` lies one step before `w` on a shortest walk: both were found, and
/// `w` is one further than `u`.
pub open spec fn is_pred(dist: Seq<usize>, u: int, w: int) -> bool {
    dist[u] != usize::MAX && dist[w] != usize::MAX && dist[u] + 1 == dist[w]
}

/// The shortest walks to `w` that arrive from `u` over one of the first
/// `upto` entries of the list of `u`.
pub open spec fn tally(
    adj: Seq<Seq<usize>>,
    s: int,
    dist: Seq<usize>,
    w: int,
    u: int,
    upto: int,
) -> nat {
    if is_pred(dist, u, w) {
        multiplicity(adj[u].take(upto), w as usize) * walk_count(adj, s, u, dist[u] as nat)
    } else {
        0
    }
}

/// The shortest walks to `w` that arrive from `u`, as a function of `u`.
pub open spec fn tally_fn(adj: Seq<Seq<usize>>, s: int, dist: Seq<usize>, w: int) -> spec_fn(
    int,
) -> nat {
    |u: int| tally(adj, s, dist, w, u, adj[u].len() as int)
}

/// `u`, once for each of the first `upto` entries of its list that is `w`,
/// where `u` lies one step before `w`; else nothing.
pub open spec fn pred_row(adj: Seq<Seq<usize>>, dist: Seq<usize>, w: int, u: int, upto: int) -> Seq<
    usize,
> {
    if is_pred(dist, u, w) {
        Seq::new(multiplicity(adj[u].take(upto), w as usize), |i: int| u as usize)
    } else {
        Seq::empty()
    }
}

/// The predecessors of `w` among the vertices of `done`, in the order of
/// `done`, each as often as it lists `w`.
pub open spec fn pred_list(adj: Seq<Seq<usize>>, dist: Seq<usize>, done: Seq<usize>, w: int) -> Seq<
    usize,
>
    decreases done.len(),
{
    if done.len() == 0 {
        Seq::empty()
    } else {
        pred_list(adj, dist, done.drop_last(), w) + pred_row(
            adj,
            dist,
            w,
            done.last() as int,
            adj[done.last() as int].len() as int,
        )
    }
}

/// What a search that counts shortest walks holds in `sigma` and `preds`,
/// at the moment that `searching` describes.
pub open spec fn counting(
    adj: Seq<Seq<usize>>,
    s: int,
    dist: Seq<usize>,
    done: Seq<usize>,
    upto: int,
    sigma: Seq<usize>,
    preds: Seq<Seq<usize>>,
) -> bool {
    &&& sigma.len() == adj.len()
    &&& preds.len() == adj.len()
    &&& forall|k: int|
        0 <= k < done.len() ==> sigma[#[trigger] done[k] as int] == walk_count(
            adj,
            s,
            done[k] as int,
            dist[done[k] as int] as nat,
        )
    &&& forall|w: int| 0 <= w < adj.len() && dist[w] == usize::MAX ==> #[trigger] sigma[w] == 0
    &&& forall|w: int|
        0 <= w < adj.len() && dist[w] == usize::MAX ==> #[trigger] preds[w] == Seq::<usize>::empty()
    &&& done.len() == 0 ==> sigma[s] == 1 && forall|w: int|
        0 <= w < adj.len() ==> #[trigger] preds[w] == Seq::<usize>::empty()
    &&& done.len() > 0 ==> forall|w: int|
        0 <= w < adj.len() && dist[w] != usize::MAX && w != s ==> #[trigger] sigma[w] == sum_over(
            tally_fn(adj, s, dist, w),
            done.drop_last(),
        ) + tally(adj, s, dist, w, done.last() as int, upto)
    &&& done.len() > 0 ==> forall|w: int|
        0 <= w < adj.len() && dist[w] != usize::MAX ==> #[trigger] preds[w] == pred_list(
            adj,
            dist,
            done.drop_last(),
            w,
        ) + pred_row(adj, dist, w, done.last() as int, upto)
}

/// A product of natural numbers grows with its first factor.
pub proof fn lemma_product_grows(a: nat, b: nat, c: nat)
    requires
        a <= b,
    ensures
        a * c <= b * c,
        (a + 1) * c == a * c + c,
{
    assert(a * c <= b * c) by (nonlinear_arith)
        requires
            a <= b,
    ;
    assert((a + 1) * c == a * c + c) by (nonlinear_arith);
}

/// A prefix of a list holds a value no more often than the list.
pub proof fn lemma_multiplicity_prefix(row: Seq<usize>, upto: int, x: usize)
    requires
        0 <= upto <= row.len(),
    ensures
        multiplicity(row.take(upto), x) <= multiplicity(row, x),
    decreases row.len() - upto,
{
    if upto == row.len() {
        assert(row.take(upto) =~= row);
    } else {
        lemma_multiplicity_prefix(row, upto + 1, x);
        assert(row.take(upto + 1) =~= row.take(upto).push(row[upto]));
        lemma_multiplicity_push(row.take(upto), row[upto], x);
    }
}

/// A vertex that no vertex of `done` lists has no predecessor in `done`.
pub proof fn lemma_nothing_arrived(
    adj: Seq<Seq<usize>>,
    s: int,
    dist: Seq<usize>,
    done: Seq<usize>,
    w: int,
)
    requires
        forall|k: int| 0 <= k < done.len() ==> !adj[#[trigger] done[k] as int].contains(w as usize),
    ensures
        sum_over(tally_fn(adj, s, dist, w), done) == 0,
        pred_list(adj, dist, done, w) == Seq::<usize>::empty(),
    decreases done.len(),
{
    broadcast use vstd::seq_lib::to_multiset_contains;

    if done.len() > 0 {
        let rest = done.drop_last();
        let u = done.last() as int;
        assert forall|k: int| 0 <= k < rest.len() implies !adj[#[trigger] rest[k] as int].contains(
            w as usize,
        ) by {
            assert(rest[k] == done[k]);
        }
        lemma_nothing_arrived(adj, s, dist, rest, w);
        assert(!adj[done[done.len() - 1] as int].contains(w as usize));
        assert(adj[u].take(adj[u].len() as int) =~= adj[u]);
        assert(multiplicity(adj[u], w as usize) == 0);
        assert(tally(adj, s, dist, w, u, adj[u].len() as int) == 0) by {
            lemma_product_grows(0, 0, walk_count(adj, s, u, dist[u] as nat));
        }
        assert(pred_row(adj, dist, w, u, adj[u].len() as int) =~= Seq::<usize>::empty());
        assert(pred_list(adj, dist, done, w) =~= Seq::<usize>::empty());
    }
}

/// Distances that agree on `w` and on the vertices of `done` give `w` the
/// same predecessors in `done`, and the same count of arrivals.
pub proof fn lemma_arrivals_agree(
    adj: Seq<Seq<usize>>,
    s: int,
    dist: Seq<usize>,
    dist2: Seq<usize>,
    done: Seq<usize>,
    w: int,
)
    requires
        dist[w] == dist2[w],
        forall|k: int|
            0 <= k < done.len() ==> dist[#[trigger] done[k] as int] == dist2[done[k] as int],
    ensures
        sum_over(tally_fn(adj, s, dist, w), done) == sum_over(tally_fn(adj, s, dist2, w), done),
        pred_list(adj, dist, done, w) == pred_list(adj, dist2, done, w),
    decreases done.len(),
{
    if done.len() > 0 {
        let rest = done.drop_last();
        assert forall|k: int| 0 <= k < rest.len() implies dist[#[trigger] rest[k] as int]
            == dist2[rest[k] as int] by {
            assert(rest[k] == done[k]);
        }
        lemma_arrivals_agree(adj, s, dist, dist2, rest, w);
        assert(dist[done[done.len() - 1] as int] == dist2[done[done.len() - 1] as int]);
    }
}

} // verus!
