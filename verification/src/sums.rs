//! Finite sums of natural numbers, over a range of integers and over a
//! list of vertices, and how the two compare.

use vstd::prelude::*;

verus! {

/// `g(0) + ... + g(m - 1)`.
pub open spec fn sum_below(g: spec_fn(int) -> nat, m: nat) -> nat
    decreases m,
{
    if m == 0 {
        0
    } else {
        sum_below(g, (m - 1) as nat) + g(m - 1)
    }
}

/// The sum of `g` over the entries of `xs`; an entry that occurs twice
/// counts twice.
pub open spec fn sum_over(g: spec_fn(int) -> nat, xs: Seq<usize>) -> nat
    decreases xs.len(),
{
    if xs.len() == 0 {
        0
    } else {
        sum_over(g, xs.drop_last()) + g(xs.last() as int)
    }
}

/// A sum over a list is the sum over the list without one entry, plus that
/// entry's term.
pub proof fn lemma_sum_over_remove(g: spec_fn(int) -> nat, xs: Seq<usize>, i: int)
    requires
        0 <= i < xs.len(),
    ensures
        sum_over(g, xs) == sum_over(g, xs.remove(i)) + g(xs[i] as int),
    decreases xs.len(),
{
    if i == xs.len() - 1 {
        assert(xs.remove(i) =~= xs.drop_last());
    } else {
        lemma_sum_over_remove(g, xs.drop_last(), i);
        assert(xs.remove(i).drop_last() =~= xs.drop_last().remove(i));
        assert(xs.remove(i).last() == xs.last());
    }
}

/// Two functions that agree on every entry of a list have the same sum over
/// it, and the sum of the smaller is the smaller.
pub proof fn lemma_sum_over_compare(g: spec_fn(int) -> nat, h: spec_fn(int) -> nat, xs: Seq<usize>)
    requires
        forall|k: int| 0 <= k < xs.len() ==> g(#[trigger] xs[k] as int) <= h(xs[k] as int),
    ensures
        sum_over(g, xs) <= sum_over(h, xs),
        (forall|k: int| 0 <= k < xs.len() ==> g(#[trigger] xs[k] as int) == h(xs[k] as int))
            ==> sum_over(g, xs) == sum_over(h, xs),
    decreases xs.len(),
{
    if xs.len() > 0 {
        let rest = xs.drop_last();
        assert forall|k: int| 0 <= k < rest.len() implies g(#[trigger] rest[k] as int) <= h(
            rest[k] as int,
        ) by {
            assert(rest[k] == xs[k]);
        }
        lemma_sum_over_compare(g, h, rest);
        assert(g(xs[xs.len() - 1] as int) <= h(xs[xs.len() - 1] as int));
        if forall|k: int| 0 <= k < xs.len() ==> g(#[trigger] xs[k] as int) == h(xs[k] as int) {
            assert forall|k: int| 0 <= k < rest.len() implies g(#[trigger] rest[k] as int) == h(
                rest[k] as int,
            ) by {
                assert(rest[k] == xs[k]);
            }
            assert(g(xs[xs.len() - 1] as int) == h(xs[xs.len() - 1] as int));
        }
    }
}

/// A sum over a list does not depend on the order of the list.
pub proof fn lemma_sum_over_permutation(g: spec_fn(int) -> nat, xs: Seq<usize>, ys: Seq<usize>)
    requires
        xs.to_multiset() == ys.to_multiset(),
    ensures
        sum_over(g, xs) == sum_over(g, ys),
    decreases ys.len(),
{
    broadcast use vstd::seq_lib::to_multiset_len;
    broadcast use vstd::seq_lib::to_multiset_contains;
    broadcast use vstd::seq_lib::to_multiset_remove;

    assert(xs.len() == ys.len()) by {
        vstd::seq_lib::to_multiset_len(xs);
        vstd::seq_lib::to_multiset_len(ys);
    }
    if ys.len() > 0 {
        let y = ys.last();
        assert(ys[ys.len() - 1] == y);
        assert(ys.contains(y));
        assert(ys.to_multiset().count(y) > 0);
        assert(xs.contains(y));
        let i = xs.index_of(y);
        assert(ys.remove(ys.len() - 1) =~= ys.drop_last());
        assert(xs.remove(i).to_multiset() == ys.drop_last().to_multiset());
        lemma_sum_over_remove(g, xs, i);
        lemma_sum_over_permutation(g, xs.remove(i), ys.drop_last());
    }
}

/// The sum over a prefix grows by one term with each entry, and stays
/// below the sum over the whole list.
pub proof fn lemma_sum_over_take(g: spec_fn(int) -> nat, xs: Seq<usize>, j: int)
    requires
        0 <= j <= xs.len(),
    ensures
        j < xs.len() ==> sum_over(g, xs.take(j + 1)) == sum_over(g, xs.take(j)) + g(xs[j] as int),
        sum_over(g, xs.take(j)) <= sum_over(g, xs),
        sum_over(g, xs.take(0)) == 0,
    decreases xs.len() - j,
{
    if j < xs.len() {
        assert(xs.take(j + 1).drop_last() =~= xs.take(j));
        lemma_sum_over_take(g, xs, j + 1);
    } else {
        assert(xs.take(j) =~= xs);
    }
}

/// The sum over a range grows by one term with each number, and stays
/// below the sum over a longer range.
pub proof fn lemma_sum_below_grows(g: spec_fn(int) -> nat, a: nat, b: nat)
    requires
        a <= b,
    ensures
        sum_below(g, a) <= sum_below(g, b),
    decreases b - a,
{
    if a < b {
        lemma_sum_below_grows(g, a, (b - 1) as nat);
    }
}

/// A sum is at least each of its terms.
pub proof fn lemma_sum_below_term(g: spec_fn(int) -> nat, m: nat, u: int)
    requires
        0 <= u < m,
    ensures
        g(u) <= sum_below(g, m),
    decreases m,
{
    if u < m - 1 {
        lemma_sum_below_term(g, (m - 1) as nat, u);
    }
}

/// Two functions that agree below `m` have the same sum below `m`.
pub proof fn lemma_sum_below_agree(g: spec_fn(int) -> nat, h: spec_fn(int) -> nat, m: nat)
    requires
        forall|u: int| 0 <= u < m ==> #[trigger] g(u) == h(u),
    ensures
        sum_below(g, m) == sum_below(h, m),
    decreases m,
{
    if m > 0 {
        lemma_sum_below_agree(g, h, (m - 1) as nat);
        assert(g(m - 1) == h(m - 1));
    }
}

/// A sum of zeros is zero.
pub proof fn lemma_sum_over_zero(g: spec_fn(int) -> nat, xs: Seq<usize>)
    requires
        forall|k: int| 0 <= k < xs.len() ==> g(#[trigger] xs[k] as int) == 0,
    ensures
        sum_over(g, xs) == 0,
    decreases xs.len(),
{
    if xs.len() > 0 {
        let rest = xs.drop_last();
        assert forall|k: int| 0 <= k < rest.len() implies g(#[trigger] rest[k] as int) == 0 by {
            assert(rest[k] == xs[k]);
        }
        lemma_sum_over_zero(g, rest);
        assert(g(xs[xs.len() - 1] as int) == 0);
    }
}

/// The sum over a list of distinct numbers below `m` is at most the sum
/// over all numbers below `m`, and equal to it where the function is zero
/// off the list.
pub proof fn lemma_sum_over_within(g: spec_fn(int) -> nat, xs: Seq<usize>, m: nat)
    requires
        m <= usize::MAX,
        xs.no_duplicates(),
        forall|k: int| 0 <= k < xs.len() ==> (#[trigger] xs[k]) < m,
    ensures
        sum_over(g, xs) <= sum_below(g, m),
        (forall|u: int| 0 <= u < m && !xs.contains(u as usize) ==> #[trigger] g(u) == 0)
            ==> sum_over(g, xs) == sum_below(g, m),
    decreases m,
{
    if m == 0 {
        if xs.len() > 0 {
            assert(xs[0] < m);
        }
    } else if xs.contains((m - 1) as usize) {
        let i = xs.index_of((m - 1) as usize);
        let rest = xs.remove(i);
        assert forall|k: int| 0 <= k < rest.len() implies (#[trigger] rest[k]) < m - 1 by {
            let k0 = if k < i { k } else { k + 1 };
            assert(rest[k] == xs[k0]);
        }
        assert(rest.no_duplicates()) by {
            assert forall|a: int, b: int| 0 <= a < rest.len() && 0 <= b < rest.len() && a != b
                implies rest[a] != rest[b] by {
                let a0 = if a < i { a } else { a + 1 };
                let b0 = if b < i { b } else { b + 1 };
                assert(rest[a] == xs[a0] && rest[b] == xs[b0]);
            }
        }
        lemma_sum_over_remove(g, xs, i);
        lemma_sum_over_within(g, rest, (m - 1) as nat);
        if forall|u: int| 0 <= u < m && !xs.contains(u as usize) ==> #[trigger] g(u) == 0 {
            assert forall|u: int| 0 <= u < m - 1 && !rest.contains(u as usize) implies #[trigger] g(
                u,
            ) == 0 by {
                if xs.contains(u as usize) {
                    let k = xs.index_of(u as usize);
                    assert(xs[k] == u as usize);
                    assert(k != i);
                    let k1 = if k < i { k } else { k - 1 };
                    assert(rest[k1] == u as usize);
                }
            }
        }
    } else {
        assert forall|k: int| 0 <= k < xs.len() implies (#[trigger] xs[k]) < m - 1 by {
            assert(xs.contains(xs[k]));
        }
        lemma_sum_over_within(g, xs, (m - 1) as nat);
        if forall|u: int| 0 <= u < m && !xs.contains(u as usize) ==> #[trigger] g(u) == 0 {
            assert(g(m - 1) == 0);
        }
    }
}

/// A positive sum has a positive term.
pub proof fn lemma_sum_below_positive(g: spec_fn(int) -> nat, m: nat) -> (u: int)
    requires
        sum_below(g, m) > 0,
    ensures
        0 <= u < m,
        g(u) > 0,
    decreases m,
{
    if g(m - 1) > 0 {
        m - 1
    } else {
        lemma_sum_below_positive(g, (m - 1) as nat)
    }
}

} // verus!
