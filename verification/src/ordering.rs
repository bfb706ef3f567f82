//! The order in which a breadth-first search visits the vertices: who
//! found whom, and where in its list.

use crate::paths::{searching, settled};
use vstd::prelude::*;

verus! {

/// The first position from `from` on whose vertex lists `x`; the length of
/// `order` where there is none.
pub open spec fn lister_from(adj: Seq<Seq<usize>>, order: Seq<usize>, x: usize, from: int) -> int
    decreases order.len() - from,
{
    if from < 0 || from >= order.len() {
        order.len() as int
    } else if adj[order[from] as int].contains(x) {
        from
    } else {
        lister_from(adj, order, x, from + 1)
    }
}

/// The first position in `order` whose vertex lists `x`.
pub open spec fn first_lister(adj: Seq<Seq<usize>>, order: Seq<usize>, x: usize) -> int {
    lister_from(adj, order, x, 0)
}

/// The first index from `from` on at which `row` holds `x`; the length of
/// `row` where there is none.
pub open spec fn place_from(row: Seq<usize>, x: usize, from: int) -> int
    decreases row.len() - from,
{
    if from < 0 || from >= row.len() {
        row.len() as int
    } else if row[from] == x {
        from
    } else {
        place_from(row, x, from + 1)
    }
}

/// The first index at which `row` holds `x`.
pub open spec fn first_place(row: Seq<usize>, x: usize) -> int {
    place_from(row, x, 0)
}

/// `x` is found before `y`: the first vertex of `order` that lists `x`
/// comes before the first that lists `y`, or it is the same vertex and
/// its list holds `x` before `y`.
pub open spec fn found_before(adj: Seq<Seq<usize>>, order: Seq<usize>, x: usize, y: usize) -> bool {
    let kx = first_lister(adj, order, x);
    let ky = first_lister(adj, order, y);
    kx < ky || (kx == ky && 0 <= kx < order.len() && first_place(adj[order[kx] as int], x)
        < first_place(adj[order[kx] as int], y))
}

/// The vertices after the first stand in `order` as they were found.
pub open spec fn in_order_found(adj: Seq<Seq<usize>>, order: Seq<usize>) -> bool {
    forall|a: int, b: int|
        1 <= a < b < order.len() ==> found_before(
            adj,
            order,
            #[trigger] order[a],
            #[trigger] order[b],
        )
}

/// One pair of numbers comes before another: by the first number, then by
/// the second.
pub open spec fn pair_before(p: (int, int), q: (int, int)) -> bool {
    p.0 < q.0 || (p.0 == q.0 && p.1 < q.1)
}

/// `at` names the place at which `x` was found: the position `at.0` in
/// `done` of the first vertex that lists `x`, and the first index `at.1` of
/// `x` in the list of that vertex; and that index is among those looked at.
pub open spec fn found_at(
    adj: Seq<Seq<usize>>,
    done: Seq<usize>,
    upto: int,
    x: usize,
    at: (int, int),
) -> bool {
    &&& 0 <= at.0 < done.len()
    &&& 0 <= at.1 < adj[done[at.0] as int].len()
    &&& adj[done[at.0] as int][at.1] == x
    &&& at.0 == done.len() - 1 ==> at.1 < upto
    &&& forall|k: int| 0 <= k < at.0 ==> !adj[#[trigger] done[k] as int].contains(x)
    &&& forall|j: int| 0 <= j < at.1 ==> #[trigger] adj[done[at.0] as int][j] != x
}

/// What a search knows of its order: `found` holds for every vertex after
/// the first the place at which it was found, and the vertices stand in
/// the order of these places.
pub open spec fn tracing(
    adj: Seq<Seq<usize>>,
    done: Seq<usize>,
    queue: Seq<usize>,
    upto: int,
    found: Seq<(int, int)>,
) -> bool {
    let order = done + queue;
    &&& found.len() == adj.len()
    &&& forall|b: int|
        1 <= b < order.len() ==> found_at(
            adj,
            done,
            upto,
            #[trigger] order[b],
            found[order[b] as int],
        )
    &&& forall|a: int, b: int|
        1 <= a < b < order.len() ==> pair_before(
            found[#[trigger] order[a] as int],
            found[#[trigger] order[b] as int],
        )
}

/// Taking the head of the queue keeps the places.
pub proof fn lemma_trace_takes(
    adj: Seq<Seq<usize>>,
    done: Seq<usize>,
    queue: Seq<usize>,
    upto: int,
    found: Seq<(int, int)>,
)
    requires
        tracing(adj, done, queue, upto, found),
        queue.len() > 0,
    ensures
        tracing(adj, done.push(queue[0]), queue.subrange(1, queue.len() as int), 0, found),
{
    let order = done + queue;
    let done2 = done.push(queue[0]);
    let queue2 = queue.subrange(1, queue.len() as int);
    assert(done2 + queue2 =~= order);
    assert forall|b: int| 1 <= b < order.len() implies found_at(
        adj,
        done2,
        0,
        #[trigger] order[b],
        found[order[b] as int],
    ) by {
        let x = order[b];
        let at = found[x as int];
        assert(found_at(adj, done, upto, x, at));
        assert(done2[at.0] == done[at.0]);
        assert forall|k: int| 0 <= k < at.0 implies !adj[#[trigger] done2[k] as int].contains(
            x,
        ) by {
            assert(done2[k] == done[k]);
        }
    }
}

/// Looking at one more neighbour keeps the places.
pub proof fn lemma_trace_passes(
    adj: Seq<Seq<usize>>,
    done: Seq<usize>,
    queue: Seq<usize>,
    upto: int,
    found: Seq<(int, int)>,
)
    requires
        tracing(adj, done, queue, upto, found),
    ensures
        tracing(adj, done, queue, upto + 1, found),
{
    let order = done + queue;
    assert forall|b: int| 1 <= b < order.len() implies found_at(
        adj,
        done,
        upto + 1,
        #[trigger] order[b],
        found[order[b] as int],
    ) by {
        assert(found_at(adj, done, upto, order[b], found[order[b] as int]));
    }
}

/// A vertex that is found at the neighbour now looked at is found there
/// first, and after all vertices found before.
pub proof fn lemma_trace_finds(
    adj: Seq<Seq<usize>>,
    s: int,
    dist: Seq<usize>,
    done: Seq<usize>,
    queue: Seq<usize>,
    upto: int,
    walks: Seq<Seq<usize>>,
    found: Seq<(int, int)>,
)
    requires
        searching(adj, s, dist, done, queue, upto, walks),
        tracing(adj, done, queue, upto, found),
        done.len() > 0,
        upto < adj[done.last() as int].len(),
        adj[done.last() as int][upto] < adj.len(),
        dist[adj[done.last() as int][upto] as int] == usize::MAX,
    ensures
        tracing(
            adj,
            done,
            queue.push(adj[done.last() as int][upto]),
            upto + 1,
            found.update(adj[done.last() as int][upto] as int, (done.len() - 1, upto)),
        ),
{
    let order = done + queue;
    let v = done.last() as int;
    let w = adj[v][upto];
    let here = (done.len() - 1, upto);
    let queue2 = queue.push(w);
    let order2 = done + queue2;
    let found2 = found.update(w as int, here);
    assert(order2 =~= order.push(w));
    assert forall|k: int| 0 <= k < order.len() implies (#[trigger] order[k]) != w && order[k]
        < adj.len() by {
        assert(order.contains(order[k]));
    }
    assert(found_at(adj, done, upto + 1, w, here)) by {
        assert forall|k: int| 0 <= k < here.0 implies !adj[#[trigger] done[k] as int].contains(
            w,
        ) by {
            let u = done[k] as int;
            assert(order[k] == done[k]);
            assert(settled(adj, dist, done[k] as int, adj[done[k] as int].len() as int));
            if adj[u].contains(w) {
                let j = adj[u].index_of(w);
                assert(adj[u][j] == w);
            }
        }
        assert(settled(adj, dist, v, upto));
    }
    assert forall|b: int| 1 <= b < order2.len() implies found_at(
        adj,
        done,
        upto + 1,
        #[trigger] order2[b],
        found2[order2[b] as int],
    ) by {
        if b < order.len() {
            assert(order2[b] == order[b]);
            assert(found_at(adj, done, upto, order[b], found[order[b] as int]));
        }
    }
    assert forall|a: int, b: int| 1 <= a < b < order2.len() implies pair_before(
        found2[#[trigger] order2[a] as int],
        found2[#[trigger] order2[b] as int],
    ) by {
        assert(order2[a] == order[a]);
        if b < order.len() {
            assert(order2[b] == order[b]);
        } else {
            assert(found_at(adj, done, upto, order[a], found[order[a] as int]));
        }
    }
}

/// A position whose vertex lists `x`, before which no vertex lists `x`, is
/// the first that lists `x`.
pub proof fn lemma_first_lister(
    adj: Seq<Seq<usize>>,
    order: Seq<usize>,
    x: usize,
    k: int,
    from: int,
)
    requires
        0 <= from <= k < order.len(),
        adj[order[k] as int].contains(x),
        forall|i: int| 0 <= i < k ==> !adj[#[trigger] order[i] as int].contains(x),
    ensures
        lister_from(adj, order, x, from) == k,
    decreases k - from,
{
    if from < k {
        lemma_first_lister(adj, order, x, k, from + 1);
    }
}

/// An index at which `row` holds `x`, before which it does not, is the
/// first at which it holds `x`.
pub proof fn lemma_first_place(row: Seq<usize>, x: usize, j: int, from: int)
    requires
        0 <= from <= j < row.len(),
        row[j] == x,
        forall|i: int| 0 <= i < j ==> #[trigger] row[i] != x,
    ensures
        place_from(row, x, from) == j,
    decreases j - from,
{
    if from < j {
        lemma_first_place(row, x, j, from + 1);
    }
}

/// Once the queue is empty, the vertices stand as they were found.
pub proof fn lemma_trace_ends(
    adj: Seq<Seq<usize>>,
    done: Seq<usize>,
    upto: int,
    found: Seq<(int, int)>,
)
    requires
        tracing(adj, done, Seq::empty(), upto, found),
    ensures
        in_order_found(adj, done),
{
    assert(done + Seq::<usize>::empty() =~= done);
    assert forall|b: int| 1 <= b < done.len() implies first_lister(adj, done, #[trigger] done[b])
        == found[done[b] as int].0 && first_place(
        adj[done[found[done[b] as int].0] as int],
        done[b],
    ) == found[done[b] as int].1 by {
        let x = done[b];
        let at = found[x as int];
        assert(found_at(adj, done, upto, x, at));
        assert(adj[done[at.0] as int].contains(x));
        lemma_first_lister(adj, done, x, at.0, 0);
        lemma_first_place(adj[done[at.0] as int], x, at.1, 0);
    }
    assert forall|a: int, b: int| 1 <= a < b < done.len() implies found_before(
        adj,
        done,
        #[trigger] done[a],
        #[trigger] done[b],
    ) by {
        assert(pair_before(found[done[a] as int], found[done[b] as int]));
    }
}

} // verus!
