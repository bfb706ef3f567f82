//! Closeness centrality, as an exact fraction.

use crate::graph::Graph;
use crate::paths::{bfs_shortest_paths, distances_bounded};
use crate::search::{distances, lemma_distances_are_unique};
use crate::sums::{lemma_sum_over_take, sum_over};
use vstd::prelude::*;

verus! {

/// A fraction of natural numbers. Its denominator is not zero.
#[derive(Clone, Copy, Debug, PartialEq, Eq, Structural)]
pub struct Ratio {
    pub numerator: usize,
    pub denominator: u128,
}

impl Ratio {
    /// The numerator and the denominator, as natural numbers.
    pub open spec fn parts(self) -> (nat, nat) {
        (self.numerator as nat, self.denominator as nat)
    }
}

/// A distance as it counts in a sum: itself, or nothing where the vertex
/// cannot be reached.
pub open spec fn finite() -> spec_fn(int) -> nat {
    |d: int|
        if d == usize::MAX {
            0nat
        } else {
            d as nat
        }
}

/// The sum of the distances from `node` to the vertices that it reaches.
pub open spec fn total_distance(adj: Seq<Seq<usize>>, node: int) -> nat {
    sum_over(finite(), distances(adj, node))
}

/// The closeness of `node`, as numerator and denominator: the number of
/// the other vertices over the sum of the distances to those that `node`
/// reaches; and zero, as 0 over 1, where it reaches none.
pub open spec fn closeness(adj: Seq<Seq<usize>>, node: int) -> (nat, nat) {
    if total_distance(adj, node) > 0 {
        ((adj.len() - 1) as nat, total_distance(adj, node))
    } else {
        (0, 1)
    }
}

/// A product of numbers that fit into 64 bits fits into 128.
pub proof fn lemma_square_fits(k: nat, n: nat)
    requires
        k <= n,
        n <= 0xffff_ffff_ffff_ffff,
    ensures
        k * n <= 0xffff_ffff_ffff_ffff_ffff_ffff_ffff_ffff,
        k < n ==> k * n + n == (k + 1) * n,
{
    assert(k * n <= n * n) by (nonlinear_arith)
        requires
            k <= n,
    ;
    assert(n * n <= 0xffff_ffff_ffff_ffff * 0xffff_ffff_ffff_ffff) by (nonlinear_arith)
        requires
            n <= 0xffff_ffff_ffff_ffff,
    ;
    assert(k * n + n == (k + 1) * n) by (nonlinear_arith);
}

/// The closeness of one vertex.
pub fn closeness_of(graph: &Graph, node: usize) -> (score: Ratio)
    requires
        graph.wf(),
        node < graph.vertices,
    ensures
        score.parts() == closeness(graph@, node as int),
{
    let dist = bfs_shortest_paths(graph, node);
    let n = dist.len();
    let mut total_distance: u128 = 0;
    let mut t: usize = 0;
    proof {
        lemma_distances_are_unique(graph@, node as int, dist@);
        lemma_sum_over_take(finite(), dist@, 0);
        lemma_square_fits(0, n as nat);
    }
    while t < n
        invariant
            n == dist.len(),
            t <= n,
            distances_bounded(dist@),
            total_distance == sum_over(finite(), dist@.take(t as int)),
            total_distance <= t * n,
        decreases n - t,
    {
        let d = dist[t];
        proof {
            lemma_sum_over_take(finite(), dist@, t as int);
            lemma_square_fits(t as nat, n as nat);
            lemma_square_fits((t + 1) as nat, n as nat);
        }
        if d != usize::MAX {
            total_distance = total_distance + d as u128;
        }
        t += 1;
    }
    proof {
        assert(dist@.take(t as int) =~= dist@);
    }
    if total_distance > 0 {
        Ratio { numerator: n - 1, denominator: total_distance }
    } else {
        Ratio { numerator: 0, denominator: 1 }
    }
}

impl Graph {
    /// The closeness of every vertex.
    pub fn closeness_centrality(&self) -> (scores: Vec<Ratio>)
        requires
            self.wf(),
        ensures
            scores@.len() == self.vertices,
            forall|v: int|
                0 <= v < self.vertices ==> (#[trigger] scores@[v]).parts() == closeness(self@, v),
    {
        let mut scores: Vec<Ratio> = Vec::new();
        let mut node: usize = 0;
        while node < self.vertices
            invariant
                self.wf(),
                node <= self.vertices,
                scores@.len() == node,
                forall|v: int|
                    0 <= v < node ==> (#[trigger] scores@[v]).parts() == closeness(self@, v),
            decreases self.vertices - node,
        {
            let score = closeness_of(self, node);
            scores.push(score);
            node += 1;
        }
        scores
    }
}

} // verus!
