//! The steps of a breadth-first search that counts shortest walks: each
//! lemma shows that one step of the search keeps `counting`.

use crate::geodesics::{
    counting, is_pred, last_step, lemma_arrivals_agree, lemma_closed_below,
    lemma_multiplicity_prefix, lemma_no_short_walk, lemma_nothing_arrived, lemma_product_grows,
    lemma_walks_via_is_sum, pred_list, pred_row, tally, tally_fn, walk_count,
};
use crate::graph::{lemma_multiplicity_empty, lemma_multiplicity_push, multiplicity};
use crate::paths::{lemma_search_finds, lemma_search_takes, searching, settled, walk_between};
use crate::sums::{lemma_sum_over_compare, lemma_sum_over_within, sum_over};
use vstd::prelude::*;

verus! {

/// Before the first step only the source counts: one walk of no edge.
pub proof fn lemma_count_begins(adj: Seq<Seq<usize>>, s: int, n: nat)
    requires
        n == adj.len(),
        0 <= s < n,
    ensures
        counting(
            adj,
            s,
            Seq::new(n, |x: int| usize::MAX).update(s, 0usize),
            Seq::empty(),
            0,
            Seq::new(n, |x: int| 0usize).update(s, 1usize),
            Seq::new(n, |x: int| Seq::<usize>::empty()),
        ),
{
}

/// The vertex at the head of the queue has received all its shortest
/// walks: its count is final.
pub proof fn lemma_count_at_head(
    adj: Seq<Seq<usize>>,
    s: int,
    dist: Seq<usize>,
    done: Seq<usize>,
    queue: Seq<usize>,
    upto: int,
    walks: Seq<Seq<usize>>,
    sigma: Seq<usize>,
    preds: Seq<Seq<usize>>,
)
    requires
        adj.len() <= usize::MAX,
        searching(adj, s, dist, done, queue, upto, walks),
        counting(adj, s, dist, done, upto, sigma, preds),
        queue.len() > 0,
        done.len() > 0,
        upto == adj[done.last() as int].len(),
    ensures
        sigma[queue[0] as int] == walk_count(adj, s, queue[0] as int, dist[queue[0] as int] as nat),
{
    broadcast use vstd::seq_lib::to_multiset_contains;

    let n = adj.len();
    let h = queue[0] as int;
    let order = done + queue;
    let done2 = done.push(queue[0]);
    let queue2 = queue.subrange(1, queue.len() as int);
    lemma_search_takes(adj, s, dist, done, queue, upto, walks);
    lemma_closed_below(adj, s, dist, done2, queue2, 0, walks);
    assert(done2.last() == queue[0]);
    assert(order[done.len() as int] == queue[0]);
    assert(order[0] == done[0]);
    assert(h != s);
    let d = dist[h] as int;
    assert(d >= 1) by {
        assert(walk_between(adj, walks[h], s, h) && walks[h].len() == dist[h] + 1);
    }
    let k1 = (d - 1) as nat;
    let g = last_step(adj, s, h, k1);
    let f = tally_fn(adj, s, dist, h);
    assert(sigma[h] == sum_over(f, done.drop_last()) + tally(
        adj,
        s,
        dist,
        h,
        done.last() as int,
        upto,
    ));
    assert(sum_over(f, done) == sum_over(f, done.drop_last()) + f(done.last() as int));
    assert(sigma[h] == sum_over(f, done));
    assert forall|k: int| 0 <= k < done.len() implies f(#[trigger] done[k] as int) == g(
        done[k] as int,
    ) by {
        let u = done[k] as int;
        assert(order[k] == done[k]);
        assert(order.contains(done[k]));
        assert(dist[u] != usize::MAX);
        assert(adj[u].take(adj[u].len() as int) =~= adj[u]);
        if !is_pred(dist, u, h) {
            if dist[u] < d - 1 {
                assert(settled(adj, dist, u, adj[u].len() as int));
                if adj[u].contains(h as usize) {
                    let j = adj[u].index_of(h as usize);
                    assert(adj[u][j] == h as usize);
                }
                assert(multiplicity(adj[u], h as usize) == 0);
                assert(g(u) == 0) by {
                    lemma_product_grows(0, 0, walk_count(adj, s, u, k1));
                }
            } else {
                lemma_no_short_walk(adj, s, dist, d, u, k1);
                assert(g(u) == 0) by (nonlinear_arith)
                    requires
                        g(u) == multiplicity(adj[u], h as usize) * walk_count(adj, s, u, k1),
                        walk_count(adj, s, u, k1) == 0,
                ;
            }
        }
    }
    lemma_sum_over_compare(f, g, done);
    assert(done.no_duplicates()) by {
        assert forall|a: int, b: int|
            0 <= a < done.len() && 0 <= b < done.len() && a != b implies done[a] != done[b] by {
            assert(order[a] == done[a] && order[b] == done[b]);
        }
    }
    assert forall|k: int| 0 <= k < done.len() implies (#[trigger] done[k]) < n by {
        assert(order[k] == done[k]);
    }
    assert forall|u: int| 0 <= u < n && !done.contains(u as usize) implies #[trigger] g(u) == 0 by {
        if dist[u] != usize::MAX {
            assert(order.contains(u as usize));
            let k = order.index_of(u as usize);
            if k < done.len() {
                assert(done[k] == u as usize);
            }
            assert(dist[order[done.len() as int] as int] <= dist[order[k] as int]);
        }
        lemma_no_short_walk(adj, s, dist, d, u, k1);
        assert(g(u) == 0) by (nonlinear_arith)
            requires
                g(u) == multiplicity(adj[u], h as usize) * walk_count(adj, s, u, k1),
                walk_count(adj, s, u, k1) == 0,
        ;
    }
    lemma_sum_over_within(g, done, n);
    lemma_walks_via_is_sum(adj, s, h, k1, n);
}

/// Taking the head of the queue keeps the counts in order.
pub proof fn lemma_count_takes(
    adj: Seq<Seq<usize>>,
    s: int,
    dist: Seq<usize>,
    done: Seq<usize>,
    queue: Seq<usize>,
    upto: int,
    walks: Seq<Seq<usize>>,
    sigma: Seq<usize>,
    preds: Seq<Seq<usize>>,
)
    requires
        adj.len() <= usize::MAX,
        searching(adj, s, dist, done, queue, upto, walks),
        counting(adj, s, dist, done, upto, sigma, preds),
        queue.len() > 0,
        done.len() > 0 ==> upto == adj[done.last() as int].len(),
    ensures
        counting(adj, s, dist, done.push(queue[0]), 0, sigma, preds),
{
    let n = adj.len();
    let h = queue[0] as int;
    let order = done + queue;
    let done2 = done.push(queue[0]);
    lemma_search_takes(adj, s, dist, done, queue, upto, walks);
    assert(done2.drop_last() =~= done);
    assert(order[done.len() as int] == queue[0]);
    if done.len() == 0 {
        assert(h == s);
        assert(order =~= queue);
    } else {
        lemma_count_at_head(adj, s, dist, done, queue, upto, walks, sigma, preds);
    }
    assert forall|k: int| 0 <= k < done2.len() implies sigma[#[trigger] done2[k] as int]
        == walk_count(adj, s, done2[k] as int, dist[done2[k] as int] as nat) by {
        if k < done.len() {
            assert(done2[k] == done[k]);
        }
    }
    assert(adj[h].take(0) =~= Seq::<usize>::empty());
    assert forall|w: int| 0 <= w < n && dist[w] != usize::MAX implies tally(adj, s, dist, w, h, 0)
        == 0 && pred_row(adj, dist, w, h, 0) == Seq::<usize>::empty() by {
        lemma_multiplicity_empty(w as usize);
        assert(pred_row(adj, dist, w, h, 0) =~= Seq::<usize>::empty());
    }
    assert forall|w: int| 0 <= w < n && dist[w] != usize::MAX && w != s implies #[trigger] sigma[w]
        == sum_over(tally_fn(adj, s, dist, w), done2.drop_last()) + tally(
        adj,
        s,
        dist,
        w,
        h,
        0,
    ) by {
        assert(tally(adj, s, dist, w, h, 0) == 0);
        if done.len() == 0 {
            assert(order.contains(w as usize));
        } else {
            let f = tally_fn(adj, s, dist, w);
            assert(sum_over(f, done) == sum_over(f, done.drop_last()) + f(done.last() as int));
        }
    }
    assert forall|w: int| 0 <= w < n && dist[w] != usize::MAX implies #[trigger] preds[w]
        == pred_list(adj, dist, done2.drop_last(), w) + pred_row(adj, dist, w, h, 0) by {
        assert(pred_row(adj, dist, w, h, 0) == Seq::<usize>::empty());
        if done.len() == 0 {
            assert(pred_list(adj, dist, done, w) + Seq::<usize>::empty() =~= Seq::<usize>::empty());
        } else {
            assert(pred_list(adj, dist, done, w) + Seq::<usize>::empty() =~= pred_list(
                adj,
                dist,
                done,
                w,
            ));
        }
    }
}

/// Finding a new vertex changes no count: nothing has arrived at it yet.
pub proof fn lemma_count_finds(
    adj: Seq<Seq<usize>>,
    s: int,
    dist: Seq<usize>,
    done: Seq<usize>,
    queue: Seq<usize>,
    upto: int,
    walks: Seq<Seq<usize>>,
    sigma: Seq<usize>,
    preds: Seq<Seq<usize>>,
)
    requires
        adj.len() <= usize::MAX,
        searching(adj, s, dist, done, queue, upto, walks),
        counting(adj, s, dist, done, upto, sigma, preds),
        done.len() > 0,
        upto < adj[done.last() as int].len(),
        adj[done.last() as int][upto] < adj.len(),
        dist[adj[done.last() as int][upto] as int] == usize::MAX,
    ensures
        counting(
            adj,
            s,
            dist.update(
                adj[done.last() as int][upto] as int,
                (dist[done.last() as int] + 1) as usize,
            ),
            done,
            upto,
            sigma,
            preds,
        ),
{
    broadcast use vstd::seq_lib::to_multiset_contains;

    let n = adj.len();
    let order = done + queue;
    let v = done.last() as int;
    let w = adj[v][upto] as int;
    let dist2 = dist.update(w, (dist[v] + 1) as usize);
    let rest = done.drop_last();
    lemma_search_finds(adj, s, dist, done, queue, upto, walks);
    assert forall|k: int| 0 <= k < done.len() implies (#[trigger] done[k]) != w && done[k] < n
        && dist[done[k] as int] != usize::MAX by {
        assert(order[k] == done[k]);
        assert(order.contains(done[k]));
    }
    assert(done[done.len() - 1] != w);
    assert forall|k: int| 0 <= k < rest.len() implies !adj[#[trigger] rest[k] as int].contains(
        w as usize,
    ) by {
        let u = rest[k] as int;
        assert(rest[k] == done[k]);
        assert(settled(adj, dist, done[k] as int, adj[done[k] as int].len() as int));
        if adj[u].contains(w as usize) {
            let j = adj[u].index_of(w as usize);
            assert(adj[u][j] == w as usize);
        }
    }
    lemma_nothing_arrived(adj, s, dist2, rest, w);
    assert(!adj[v].take(upto).contains(w as usize)) by {
        if adj[v].take(upto).contains(w as usize) {
            let j = adj[v].take(upto).index_of(w as usize);
            assert(adj[v][j] == w as usize);
        }
    }
    assert(multiplicity(adj[v].take(upto), w as usize) == 0);
    assert(tally(adj, s, dist2, w, v, upto) == 0) by {
        lemma_product_grows(0, 0, walk_count(adj, s, v, dist2[v] as nat));
    }
    assert(pred_row(adj, dist2, w, v, upto) =~= Seq::<usize>::empty());
    assert forall|x: int| 0 <= x < n && dist2[x] != usize::MAX && x != s implies #[trigger] sigma[x]
        == sum_over(tally_fn(adj, s, dist2, x), rest) + tally(adj, s, dist2, x, v, upto) by {
        if x != w {
            assert forall|k: int| 0 <= k < rest.len() implies dist[#[trigger] rest[k] as int]
                == dist2[rest[k] as int] by {
                assert(rest[k] == done[k]);
            }
            lemma_arrivals_agree(adj, s, dist, dist2, rest, x);
        }
    }
    assert forall|x: int| 0 <= x < n && dist2[x] != usize::MAX implies #[trigger] preds[x]
        == pred_list(adj, dist2, rest, x) + pred_row(adj, dist2, x, v, upto) by {
        if x != w {
            assert forall|k: int| 0 <= k < rest.len() implies dist[#[trigger] rest[k] as int]
                == dist2[rest[k] as int] by {
                assert(rest[k] == done[k]);
            }
            lemma_arrivals_agree(adj, s, dist, dist2, rest, x);
        } else {
            assert(Seq::<usize>::empty() + Seq::<usize>::empty() =~= Seq::<usize>::empty());
        }
    }
}

/// Looking at one neighbour `w` of the vertex `v` at hand: where `v` lies
/// one step before `w`, the walks to `v` arrive at `w`, and `v` joins the
/// predecessors of `w`; all of them are shortest walks to `w`.
pub proof fn lemma_count_looks(
    adj: Seq<Seq<usize>>,
    s: int,
    dist: Seq<usize>,
    done: Seq<usize>,
    queue: Seq<usize>,
    upto: int,
    walks: Seq<Seq<usize>>,
    sigma: Seq<usize>,
    preds: Seq<Seq<usize>>,
)
    requires
        adj.len() <= usize::MAX,
        0 <= upto,
        searching(adj, s, dist, done, queue, upto + 1, walks),
        counting(adj, s, dist, done, upto, sigma, preds),
        done.len() > 0,
    ensures
        is_pred(dist, done.last() as int, adj[done.last() as int][upto] as int)
            ==> sigma[adj[done.last() as int][upto] as int] + sigma[done.last() as int]
            <= walk_count(
            adj,
            s,
            adj[done.last() as int][upto] as int,
            dist[adj[done.last() as int][upto] as int] as nat,
        ),
        is_pred(dist, done.last() as int, adj[done.last() as int][upto] as int)
            && sigma[adj[done.last() as int][upto] as int] + sigma[done.last() as int]
            <= usize::MAX ==> counting(
            adj,
            s,
            dist,
            done,
            upto + 1,
            sigma.update(
                adj[done.last() as int][upto] as int,
                (sigma[adj[done.last() as int][upto] as int] + sigma[done.last() as int]) as usize,
            ),
            preds.update(
                adj[done.last() as int][upto] as int,
                preds[adj[done.last() as int][upto] as int].push(done.last()),
            ),
        ),
        !is_pred(dist, done.last() as int, adj[done.last() as int][upto] as int) ==> counting(
            adj,
            s,
            dist,
            done,
            upto + 1,
            sigma,
            preds,
        ),
{
    let n = adj.len();
    let order = done + queue;
    let v = done.last() as int;
    let w = adj[v][upto] as int;
    let rest = done.drop_last();
    assert(order[done.len() - 1] == done.last());
    assert(order.contains(done.last()));
    assert(0 <= w < n);
    assert(settled(adj, dist, v, upto + 1));
    assert(dist[w] != usize::MAX);
    assert(adj[v].take(upto + 1) =~= adj[v].take(upto).push(adj[v][upto]));
    assert forall|x: usize| #[trigger]
        multiplicity(adj[v].take(upto + 1), x) == multiplicity(adj[v].take(upto), x) + if x == w {
            1nat
        } else {
            0nat
        } by {
        lemma_multiplicity_push(adj[v].take(upto), adj[v][upto], x);
    }
    let c = multiplicity(adj[v].take(upto), w as usize);
    let cv = walk_count(adj, s, v, dist[v] as nat);
    assert(sigma[v] == cv) by {
        assert(sigma[done[done.len() - 1] as int] == walk_count(
            adj,
            s,
            done[done.len() - 1] as int,
            dist[done[done.len() - 1] as int] as nat,
        ));
    }
    if is_pred(dist, v, w) {
        assert(w != s);
        let d = dist[w] as int;
        let k1 = (d - 1) as nat;
        assert(k1 == dist[v]);
        let f = tally_fn(adj, s, dist, w);
        let g = last_step(adj, s, w, k1);
        // what has arrived, with the walks over this edge
        assert(tally(adj, s, dist, w, v, upto + 1) == tally(adj, s, dist, w, v, upto) + cv) by {
            lemma_product_grows(c, c, cv);
        }
        assert(sigma[w] + sigma[v] == sum_over(f, rest) + tally(adj, s, dist, w, v, upto + 1));
        // is no more than all shortest walks to `w`
        lemma_multiplicity_prefix(adj[v], upto + 1, w as usize);
        assert(adj[v].take(adj[v].len() as int) =~= adj[v]);
        assert(tally(adj, s, dist, w, v, upto + 1) <= f(v)) by {
            lemma_product_grows(
                multiplicity(adj[v].take(upto + 1), w as usize),
                multiplicity(adj[v], w as usize),
                cv,
            );
        }
        assert(sum_over(f, done) == sum_over(f, rest) + f(v));
        assert forall|k: int| 0 <= k < done.len() implies f(#[trigger] done[k] as int) <= g(
            done[k] as int,
        ) by {
            let u = done[k] as int;
            assert(adj[u].take(adj[u].len() as int) =~= adj[u]);
        }
        lemma_sum_over_compare(f, g, done);
        assert(done.no_duplicates()) by {
            assert forall|a: int, b: int|
                0 <= a < done.len() && 0 <= b < done.len() && a != b implies done[a] != done[b] by {
                assert(order[a] == done[a] && order[b] == done[b]);
            }
        }
        assert forall|k: int| 0 <= k < done.len() implies (#[trigger] done[k]) < n by {
            assert(order[k] == done[k]);
        }
        lemma_sum_over_within(g, done, n);
        lemma_walks_via_is_sum(adj, s, w, k1, n);
        assert(sigma[w] + sigma[v] <= walk_count(adj, s, w, dist[w] as nat));
        if sigma[w] + sigma[v] <= usize::MAX {
            let sigma2 = sigma.update(w, (sigma[w] + sigma[v]) as usize);
            let preds2 = preds.update(w, preds[w].push(done.last()));
            assert forall|k: int| 0 <= k < done.len() implies (#[trigger] done[k]) != w by {
                assert(order[k] == done[k]);
                assert(dist[order[k] as int] <= dist[order[done.len() - 1] as int]);
            }
            assert forall|x: int|
                0 <= x < n && dist[x] != usize::MAX && x != s implies #[trigger] sigma2[x]
                == sum_over(tally_fn(adj, s, dist, x), rest) + tally(
                adj,
                s,
                dist,
                x,
                v,
                upto + 1,
            ) by {
                if x != w {
                    assert(sigma[x] == sum_over(tally_fn(adj, s, dist, x), rest) + tally(
                        adj,
                        s,
                        dist,
                        x,
                        v,
                        upto,
                    ));
                }
            }
            assert forall|x: int| 0 <= x < n && dist[x] != usize::MAX implies #[trigger] preds2[x]
                == pred_list(adj, dist, rest, x) + pred_row(adj, dist, x, v, upto + 1) by {
                assert(preds[x] == pred_list(adj, dist, rest, x) + pred_row(adj, dist, x, v, upto));
                if x == w {
                    assert(pred_row(adj, dist, w, v, upto + 1) =~= pred_row(
                        adj,
                        dist,
                        w,
                        v,
                        upto,
                    ).push(done.last()));
                    assert(preds2[w] =~= pred_list(adj, dist, rest, w) + pred_row(
                        adj,
                        dist,
                        w,
                        v,
                        upto + 1,
                    ));
                } else {
                    assert(pred_row(adj, dist, x, v, upto + 1) =~= pred_row(adj, dist, x, v, upto));
                }
            }
        }
    } else {
        assert forall|x: int|
            0 <= x < n && dist[x] != usize::MAX && x != s implies #[trigger] sigma[x] == sum_over(
            tally_fn(adj, s, dist, x),
            rest,
        ) + tally(adj, s, dist, x, v, upto + 1) by {
            assert(sigma[x] == sum_over(tally_fn(adj, s, dist, x), rest) + tally(
                adj,
                s,
                dist,
                x,
                v,
                upto,
            ));
        }
        assert forall|x: int| 0 <= x < n && dist[x] != usize::MAX implies #[trigger] preds[x]
            == pred_list(adj, dist, rest, x) + pred_row(adj, dist, x, v, upto + 1) by {
            assert(preds[x] == pred_list(adj, dist, rest, x) + pred_row(adj, dist, x, v, upto));
            if x != w {
                assert(pred_row(adj, dist, x, v, upto + 1) =~= pred_row(adj, dist, x, v, upto));
            }
        }
    }
}

} // verus!
