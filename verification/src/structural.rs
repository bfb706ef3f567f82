//! Triangle counting over sorted copies of the neighbour lists.

use crate::graph::{in_range, lists, rearranged, Graph};
use crate::sums::{
    lemma_sum_below_agree, lemma_sum_below_grows, lemma_sum_over_compare,
    lemma_sum_over_permutation, lemma_sum_over_take, lemma_sum_over_within, sum_below, sum_over,
};
use vstd::prelude::*;

verus! {

/// The entries of `row` do not decrease.
pub open spec fn ascending(row: Seq<usize>) -> bool {
    forall|i: int, j: int| 0 <= i <= j < row.len() ==> row[i] <= row[j]
}

/// 1 where `w` is above `v` and listed by `v`, else 0, as a function of `w`.
pub open spec fn closing(adj: Seq<Seq<usize>>, v: int) -> spec_fn(int) -> nat {
    |w: int|
        if w > v && adj[v].contains(w as usize) {
            1nat
        } else {
            0nat
        }
}

/// For a neighbour `v` above `u`: the number of entries `w` of the list of
/// `u` that are above `v` and listed by `v`. For another `v`: 0.
pub open spec fn wedges(adj: Seq<Seq<usize>>, u: int) -> spec_fn(int) -> nat {
    |v: int|
        if v > u {
            sum_over(closing(adj, v), adj[u])
        } else {
            0nat
        }
}

/// The triangles witnessed at `u`: the pairs of entries `v`, `w` of the list
/// of `u` with `u < v < w` such that `v` lists `w`. An entry that occurs
/// twice counts twice.
pub open spec fn triangles_at(adj: Seq<Seq<usize>>, u: int) -> nat {
    sum_over(wedges(adj, u), adj[u])
}

/// `triangles_at`, as a function of the vertex.
pub open spec fn triangles_fn(adj: Seq<Seq<usize>>) -> spec_fn(int) -> nat {
    |u: int| triangles_at(adj, u)
}

/// The triangles witnessed at all vertices. In a graph without parallel
/// edges and self-loops each triangle is witnessed once, at its smallest
/// vertex.
pub open spec fn triangle_count(adj: Seq<Seq<usize>>) -> nat {
    sum_below(triangles_fn(adj), adj.len())
}

/// Two lists with the same entries hold the same values.
pub proof fn lemma_same_members(xs: Seq<usize>, ys: Seq<usize>, x: usize)
    requires
        xs.to_multiset() == ys.to_multiset(),
    ensures
        xs.contains(x) == ys.contains(x),
{
    vstd::seq_lib::to_multiset_contains(xs, x);
    vstd::seq_lib::to_multiset_contains(ys, x);
}

/// Rearranged lists name the same vertices.
pub proof fn lemma_rearranged_in_range(a: Seq<Seq<usize>>, b: Seq<Seq<usize>>)
    requires
        rearranged(a, b),
        in_range(a, a.len() as int),
    ensures
        in_range(b, b.len() as int),
{
    assert forall|u: int, i: int|
        0 <= u < b.len() && 0 <= i < b[u].len() implies (#[trigger] b[u][i]) < b.len() by {
        assert(a[u].to_multiset() == b[u].to_multiset());
        assert(b[u].contains(b[u][i]));
        lemma_same_members(a[u], b[u], b[u][i]);
        let k = a[u].index_of(b[u][i]);
        assert(a[u][k] < a.len());
    }
}

/// The triangles witnessed at a vertex do not depend on the order of the
/// lists, and so neither does their total.
pub proof fn lemma_triangles_ignore_order(a: Seq<Seq<usize>>, b: Seq<Seq<usize>>)
    requires
        rearranged(a, b),
        in_range(a, a.len() as int),
    ensures
        forall|u: int| 0 <= u < a.len() ==> #[trigger] triangles_at(a, u) == triangles_at(b, u),
        triangle_count(a) == triangle_count(b),
{
    assert forall|u: int| 0 <= u < a.len() implies #[trigger] triangles_at(a, u) == triangles_at(
        b,
        u,
    ) by {
        assert(a[u].to_multiset() == b[u].to_multiset());
        assert forall|k: int| 0 <= k < a[u].len() implies wedges(a, u)(#[trigger] a[u][k] as int)
            == wedges(b, u)(a[u][k] as int) by {
            let v = a[u][k] as int;
            assert(0 <= v < a.len());
            assert(a[v].to_multiset() == b[v].to_multiset());
            if v > u {
                assert forall|j: int| 0 <= j < a[u].len() implies closing(a, v)(
                    #[trigger] a[u][j] as int,
                ) == closing(b, v)(a[u][j] as int) by {
                    let w = a[u][j];
                    lemma_same_members(a[v], b[v], w);
                }
                lemma_sum_over_compare(closing(a, v), closing(b, v), a[u]);
                lemma_sum_over_permutation(closing(b, v), a[u], b[u]);
            }
        }
        lemma_sum_over_compare(wedges(a, u), wedges(b, u), a[u]);
        lemma_sum_over_permutation(wedges(b, u), a[u], b[u]);
    }
    lemma_sum_below_agree(triangles_fn(a), triangles_fn(b), a.len());
}

/// 1 where `u`, `v` and `w` are the corners of a triangle, with `v` below
/// `w`: `u` lists both and `v` lists `w`. Else 0. As a function of `w`.
pub open spec fn third_corner(adj: Seq<Seq<usize>>, u: int, v: int) -> spec_fn(int) -> nat {
    |w: int|
        if w > v && adj[u].contains(w as usize) && adj[v].contains(w as usize) {
            1nat
        } else {
            0nat
        }
}

/// The number of triangles with the corners `u < v < w`, for a neighbour
/// `v` of `u`, as a function of `v`.
pub open spec fn second_corner(adj: Seq<Seq<usize>>, u: int) -> spec_fn(int) -> nat {
    |v: int|
        if v > u && adj[u].contains(v as usize) {
            sum_below(third_corner(adj, u, v), adj.len())
        } else {
            0nat
        }
}

/// The number of triangles whose smallest corner is `u`, as a function
/// of `u`.
pub open spec fn first_corner(adj: Seq<Seq<usize>>) -> spec_fn(int) -> nat {
    |u: int| sum_below(second_corner(adj, u), adj.len())
}

/// The number of triangles: of the triples of vertices `u < v < w` of which
/// `u` lists `v` and `w`, and `v` lists `w`.
pub open spec fn triangles(adj: Seq<Seq<usize>>) -> nat {
    sum_below(first_corner(adj), adj.len())
}

/// In a graph without parallel edges every triangle is witnessed once: the
/// count of witnesses is the number of triangles.
pub proof fn law_every_triangle_once(adj: Seq<Seq<usize>>)
    requires
        adj.len() <= usize::MAX,
        in_range(adj, adj.len() as int),
        forall|u: int| 0 <= u < adj.len() ==> (#[trigger] adj[u]).no_duplicates(),
    ensures
        triangle_count(adj) == triangles(adj),
{
    let n = adj.len();
    assert forall|u: int| 0 <= u < n implies #[trigger] triangles_fn(adj)(u) == first_corner(adj)(
        u,
    ) by {
        let row = adj[u];
        assert(row.no_duplicates());
        assert forall|k: int| 0 <= k < row.len() implies (#[trigger] row[k]) < n by {
            assert(adj[u][k] < n);
        }
        assert forall|k: int| 0 <= k < row.len() implies wedges(adj, u)(#[trigger] row[k] as int)
            == second_corner(adj, u)(row[k] as int) by {
            let v = row[k] as int;
            assert(row.contains(row[k]));
            if v > u {
                assert forall|j: int| 0 <= j < row.len() implies closing(adj, v)(
                    #[trigger] row[j] as int,
                ) == third_corner(adj, u, v)(row[j] as int) by {
                    assert(row.contains(row[j]));
                }
                lemma_sum_over_compare(closing(adj, v), third_corner(adj, u, v), row);
                lemma_sum_over_within(third_corner(adj, u, v), row, n);
            }
        }
        lemma_sum_over_compare(wedges(adj, u), second_corner(adj, u), row);
        lemma_sum_over_within(second_corner(adj, u), row, n);
    }
    lemma_sum_below_agree(triangles_fn(adj), first_corner(adj), n);
}

/// `<[usize]>::sort_unstable` of std: afterwards the vector holds the
/// values that it held before, each as often, in ascending order.
#[verifier::external_body]
fn sort_ascending(row: &mut Vec<usize>)
    ensures
        final(row)@.to_multiset() == old(row)@.to_multiset(),
        ascending(final(row)@),
{
    row.sort_unstable();
}

/// Whether the ascending list `row` holds `x`, by binary search.
pub fn contains_sorted(row: &Vec<usize>, x: usize) -> (found: bool)
    requires
        ascending(row@),
    ensures
        found == row@.contains(x),
{
    let mut lo: usize = 0;
    let mut hi: usize = row.len();
    while lo < hi
        invariant
            lo <= hi <= row.len(),
            ascending(row@),
            forall|i: int| 0 <= i < lo ==> row@[i] < x,
            forall|i: int| hi <= i < row.len() ==> row@[i] > x,
        decreases hi - lo,
    {
        let mid = lo + (hi - lo) / 2;
        let at = row[mid];
        if at == x {
            return true;
        } else if at < x {
            lo = mid + 1;
        } else {
            hi = mid;
        }
    }
    proof {
        if row@.contains(x) {
            let k = row@.index_of(x);
            assert(row@[k] == x);
        }
    }
    false
}

/// A copy of the neighbour lists, each sorted; the graph's own lists stay
/// as they are.
pub fn sorted_adjacency(graph: &Graph) -> (rows: Vec<Vec<usize>>)
    ensures
        rearranged(graph@, lists(&rows)),
        forall|u: int| 0 <= u < rows.len() ==> ascending(#[trigger] lists(&rows)[u]),
{
    let mut rows: Vec<Vec<usize>> = Vec::new();
    let mut u: usize = 0;
    while u < graph.adj_list.len()
        invariant
            u <= graph.adj_list.len(),
            rows@.len() == u,
            forall|t: int|
                0 <= t < u ==> (#[trigger] graph@[t]).to_multiset() == lists(
                    &rows,
                )[t].to_multiset(),
            forall|t: int| 0 <= t < u ==> ascending(#[trigger] lists(&rows)[t]),
        decreases graph.adj_list.len() - u,
    {
        let mut row = graph.adj_list[u].clone();
        assert(row@ =~= graph@[u as int]);
        sort_ascending(&mut row);
        let ghost before = lists(&rows);
        rows.push(row);
        assert(lists(&rows) =~= before.push(row@));
        u += 1;
    }
    rows
}

/// The triangles witnessed at `u`, over sorted neighbour lists; nothing
/// where their number does not fit into a `usize`.
pub fn triangles_from(rows: &Vec<Vec<usize>>, u: usize) -> (count: Option<usize>)
    requires
        u < rows.len(),
        in_range(lists(rows), rows.len() as int),
        forall|t: int| 0 <= t < rows.len() ==> ascending(#[trigger] lists(rows)[t]),
    ensures
        match count {
            Some(c) => c == triangles_at(lists(rows), u as int),
            None => triangles_at(lists(rows), u as int) > usize::MAX,
        },
{
    let ghost adj = lists(rows);
    let row = &rows[u];
    assert(row@ == adj[u as int]);
    let mut local_count: usize = 0;
    let mut i: usize = 0;
    proof {
        lemma_sum_over_take(wedges(adj, u as int), row@, 0);
    }
    while i < row.len()
        invariant
            adj == lists(rows),
            u < rows.len(),
            row@ == adj[u as int],
            in_range(adj, rows.len() as int),
            forall|t: int| 0 <= t < rows.len() ==> ascending(#[trigger] adj[t]),
            i <= row.len(),
            local_count == sum_over(wedges(adj, u as int), row@.take(i as int)),
        decreases row.len() - i,
    {
        let v = row[i];
        assert(v < rows.len()) by {
            assert(adj[u as int][i as int] < rows.len());
        }
        proof {
            lemma_sum_over_take(wedges(adj, u as int), row@, i as int);
            lemma_sum_over_take(wedges(adj, u as int), row@, i + 1);
            lemma_sum_over_take(closing(adj, v as int), row@, 0);
        }
        if v > u {
            let ghost start = local_count;
            let mut j: usize = 0;
            while j < row.len()
                invariant
                    adj == lists(rows),
                    u < rows.len(),
                    v < rows.len(),
                    v > u,
                    i < row.len(),
                    row@ == adj[u as int],
                    row@[i as int] == v,
                    forall|t: int| 0 <= t < rows.len() ==> ascending(#[trigger] adj[t]),
                    j <= row.len(),
                    start == sum_over(wedges(adj, u as int), row@.take(i as int)),
                    start + sum_over(closing(adj, v as int), row@) == sum_over(
                        wedges(adj, u as int),
                        row@.take(i + 1),
                    ),
                    sum_over(wedges(adj, u as int), row@.take(i + 1)) <= triangles_at(
                        adj,
                        u as int,
                    ),
                    local_count == start + sum_over(closing(adj, v as int), row@.take(j as int)),
                decreases row.len() - j,
            {
                let w = row[j];
                proof {
                    lemma_sum_over_take(closing(adj, v as int), row@, j as int);
                    lemma_sum_over_take(closing(adj, v as int), row@, j + 1);
                    assert(adj[v as int] == rows@[v as int]@);
                }
                if w > v && contains_sorted(&rows[v], w) {
                    if local_count == usize::MAX {
                        return None;
                    }
                    local_count += 1;
                }
                j += 1;
            }
            proof {
                assert(row@.take(j as int) =~= row@);
            }
        }
        i += 1;
    }
    proof {
        assert(row@.take(i as int) =~= row@);
    }
    Some(local_count)
}

impl Graph {
    /// The number of triangles, each witnessed at its smallest vertex `u`
    /// by a pair of neighbours `v < w` of `u` where `v` lists `w`; nothing
    /// where that number does not fit into a `usize`.
    pub fn count_triangles(&self) -> (count: Option<usize>)
        requires
            self.wf(),
        ensures
            match count {
                Some(c) => c == triangle_count(self@),
                None => triangle_count(self@) > usize::MAX,
            },
    {
        let rows = sorted_adjacency(self);
        let n = rows.len();
        proof {
            lemma_rearranged_in_range(self@, lists(&rows));
            lemma_triangles_ignore_order(self@, lists(&rows));
        }
        let mut total: usize = 0;
        let mut u: usize = 0;
        while u < n
            invariant
                n == rows.len(),
                n == self@.len(),
                u <= n,
                in_range(lists(&rows), n as int),
                forall|t: int| 0 <= t < n ==> ascending(#[trigger] lists(&rows)[t]),
                forall|t: int|
                    0 <= t < n ==> #[trigger] triangles_at(self@, t) == triangles_at(
                        lists(&rows),
                        t,
                    ),
                total == sum_below(triangles_fn(self@), u as nat),
            decreases n - u,
        {
            proof {
                lemma_sum_below_grows(triangles_fn(self@), (u + 1) as nat, n as nat);
                assert(triangles_at(self@, u as int) == triangles_at(lists(&rows), u as int));
            }
            match triangles_from(&rows, u) {
                Some(local_count) => match total.checked_add(local_count) {
                    Some(sum) => {
                        total = sum;
                    },
                    None => {
                        return None;
                    },
                },
                None => {
                    return None;
                },
            }
            u += 1;
        }
        Some(total)
    }
}

} // verus!
