//! Communities: the vertices of each community of a labelling.

use crate::graph::{lists, Graph};
use crate::sums::{lemma_sum_over_take, sum_over};
use vstd::prelude::*;

verus! {

/// The largest label of a labelling, and 0 for the empty one.
pub open spec fn max_label(labels: Seq<usize>) -> nat
    decreases labels.len(),
{
    if labels.len() == 0 {
        0
    } else if labels.last() >= max_label(labels.drop_last()) {
        labels.last() as nat
    } else {
        max_label(labels.drop_last())
    }
}

/// The vertices that carry the label `community`, in ascending order.
pub open spec fn members(labels: Seq<usize>, community: usize) -> Seq<usize>
    decreases labels.len(),
{
    if labels.len() == 0 {
        Seq::empty()
    } else if labels.last() == community {
        members(labels.drop_last(), community).push((labels.len() - 1) as usize)
    } else {
        members(labels.drop_last(), community)
    }
}

/// What the modularity of a labelling needs to know of one community.
#[derive(Clone, Copy, Debug, PartialEq, Eq, Structural)]
pub struct CommunityTally {
    /// The half-edges from a vertex of the community to a vertex of the
    /// community: every edge inside it counts twice.
    pub internal_edges: u128,
    /// The sum of the degrees of the vertices of the community.
    pub total_degree: u128,
}

/// The degree of a vertex, as a function of the vertex.
pub open spec fn degree_fn(adj: Seq<Seq<usize>>) -> spec_fn(int) -> nat {
    |v: int| adj[v].len()
}

/// 1 where `x` carries the label `community`, else 0, as a function of `x`.
pub open spec fn same_label(labels: Seq<usize>, community: usize) -> spec_fn(int) -> nat {
    |x: int|
        if labels[x] == community {
            1nat
        } else {
            0nat
        }
}

/// The number of neighbours of a vertex that carry the label `community`,
/// as a function of the vertex.
pub open spec fn inside_fn(adj: Seq<Seq<usize>>, labels: Seq<usize>, community: usize) -> spec_fn(
    int,
) -> nat {
    |v: int| sum_over(same_label(labels, community), adj[v])
}

/// The sum of the degrees of the vertices of a community.
pub open spec fn degree_inside(adj: Seq<Seq<usize>>, labels: Seq<usize>, community: usize) -> nat {
    sum_over(degree_fn(adj), members(labels, community))
}

/// The number of half-edges between vertices of a community.
pub open spec fn edges_inside(adj: Seq<Seq<usize>>, labels: Seq<usize>, community: usize) -> nat {
    sum_over(inside_fn(adj, labels, community), members(labels, community))
}

/// The members of a community are vertices, and no more than there are.
pub proof fn lemma_members_are_vertices(labels: Seq<usize>, community: usize)
    requires
        labels.len() <= usize::MAX,
    ensures
        members(labels, community).len() <= labels.len(),
        forall|i: int|
            0 <= i < members(labels, community).len() ==> (#[trigger] members(labels, community)[i])
                < labels.len(),
    decreases labels.len(),
{
    if labels.len() > 0 {
        lemma_members_are_vertices(labels.drop_last(), community);
        let short = members(labels.drop_last(), community);
        let all = members(labels, community);
        assert forall|i: int| 0 <= i < all.len() implies (#[trigger] all[i]) < labels.len() by {
            if i < short.len() {
                assert(all[i] == short[i]);
            }
        }
    }
}

/// The product of a count of vertices and the largest `usize` fits into
/// 128 bits.
pub proof fn lemma_product_fits(k: nat, n: nat)
    requires
        k <= n,
        n <= usize::MAX,
    ensures
        k * usize::MAX <= 0xffff_ffff_ffff_ffff_ffff_ffff_ffff_ffff,
        k * usize::MAX + usize::MAX == (k + 1) * usize::MAX,
{
    assert(k * usize::MAX <= 0xffff_ffff_ffff_ffff * 0xffff_ffff_ffff_ffff) by (nonlinear_arith)
        requires
            k <= 0xffff_ffff_ffff_ffff,
            usize::MAX <= 0xffff_ffff_ffff_ffff,
    ;
    assert(k * usize::MAX + usize::MAX == (k + 1) * usize::MAX) by (nonlinear_arith);
}

/// No label is above the largest.
pub proof fn lemma_max_label_bounds(labels: Seq<usize>, k: int)
    requires
        0 <= k < labels.len(),
    ensures
        labels[k] <= max_label(labels),
    decreases labels.len(),
{
    if k < labels.len() - 1 {
        lemma_max_label_bounds(labels.drop_last(), k);
    }
}

/// The largest label of a non-empty labelling.
pub fn largest_label(communities: &Vec<usize>) -> (largest: usize)
    ensures
        largest == max_label(communities@),
{
    let mut largest: usize = 0;
    let mut node: usize = 0;
    proof {
        assert(communities@.take(0) =~= Seq::<usize>::empty());
    }
    while node < communities.len()
        invariant
            node <= communities.len(),
            largest == max_label(communities@.take(node as int)),
        decreases communities.len() - node,
    {
        proof {
            assert(communities@.take(node + 1).drop_last() =~= communities@.take(node as int));
        }
        if communities[node] >= largest {
            largest = communities[node];
        }
        node += 1;
    }
    proof {
        assert(communities@.take(node as int) =~= communities@);
    }
    largest
}

impl Graph {
    /// The vertices of every community: list `c` holds, in ascending
    /// order, the vertices whose label is `c`, for every `c` up to the
    /// largest label.
    pub fn community_to_nodes(&self, communities: &Vec<usize>) -> (community_map: Vec<Vec<usize>>)
        requires
            communities@.len() > 0,
            max_label(communities@) < usize::MAX,
        ensures
            community_map@.len() == max_label(communities@) + 1,
            forall|c: int|
                0 <= c <= max_label(communities@) ==> #[trigger] lists(&community_map)[c]
                    == members(communities@, c as usize),
    {
        let count = largest_label(communities) + 1;
        let mut community_map: Vec<Vec<usize>> = Vec::new();
        let mut c: usize = 0;
        while c < count
            invariant
                c <= count,
                community_map@.len() == c,
                forall|d: int| 0 <= d < c ==> (#[trigger] community_map@[d])@.len() == 0,
            decreases count - c,
        {
            community_map.push(Vec::new());
            c += 1;
        }
        let mut node: usize = 0;
        proof {
            assert(communities@.take(0) =~= Seq::<usize>::empty());
            assert forall|d: int| 0 <= d < count implies #[trigger] lists(&community_map)[d]
                == members(communities@.take(0), d as usize) by {
                assert(lists(&community_map)[d] =~= Seq::<usize>::empty());
            }
        }
        while node < communities.len()
            invariant
                node <= communities.len(),
                count == max_label(communities@) + 1,
                community_map@.len() == count,
                forall|d: int|
                    0 <= d < count ==> #[trigger] lists(&community_map)[d] == members(
                        communities@.take(node as int),
                        d as usize,
                    ),
            decreases communities.len() - node,
        {
            let community = communities[node];
            proof {
                lemma_max_label_bounds(communities@, node as int);
                assert(communities@.take(node + 1).drop_last() =~= communities@.take(node as int));
            }
            let ghost before = lists(&community_map);
            community_map[community].push(node);
            proof {
                assert(lists(&community_map) =~= before.update(
                    community as int,
                    before[community as int].push(node),
                ));
                assert forall|d: int| 0 <= d < count implies #[trigger] lists(&community_map)[d]
                    == members(communities@.take(node + 1), d as usize) by {
                    assert(before[d] == members(communities@.take(node as int), d as usize));
                }
            }
            node += 1;
        }
        proof {
            assert(communities@.take(node as int) =~= communities@);
        }
        community_map
    }

    /// The counts that the modularity of a labelling is made of, for every
    /// community: the degrees of its vertices, added up, and the number of
    /// half-edges that stay inside it.
    pub fn community_tallies(&self, communities: &Vec<usize>) -> (tallies: Vec<CommunityTally>)
        requires
            self.wf(),
            communities@.len() == self.vertices,
            communities@.len() > 0,
            max_label(communities@) < usize::MAX,
        ensures
            tallies@.len() == max_label(communities@) + 1,
            forall|c: int|
                0 <= c <= max_label(communities@) ==> (#[trigger] tallies@[c]).total_degree
                    == degree_inside(self@, communities@, c as usize)
                    && tallies@[c].internal_edges == edges_inside(self@, communities@, c as usize),
    {
        let community_map = self.community_to_nodes(communities);
        let ghost labels = communities@;
        let mut tallies: Vec<CommunityTally> = Vec::new();
        let mut community_id: usize = 0;
        while community_id < community_map.len()
            invariant
                self.wf(),
                labels == communities@,
                labels.len() == self.vertices,
                community_id <= community_map.len(),
                community_map@.len() == max_label(labels) + 1,
                forall|c: int|
                    0 <= c <= max_label(labels) ==> #[trigger] lists(&community_map)[c] == members(
                        labels,
                        c as usize,
                    ),
                tallies@.len() == community_id,
                forall|c: int|
                    0 <= c < community_id ==> (#[trigger] tallies@[c]).total_degree
                        == degree_inside(self@, labels, c as usize) && tallies@[c].internal_edges
                        == edges_inside(self@, labels, c as usize),
            decreases community_map.len() - community_id,
        {
            let nodes = &community_map[community_id];
            let ghost listed = members(labels, community_id);
            assert(nodes@ == lists(&community_map)[community_id as int]);
            let mut internal_edges: u128 = 0;
            let mut total_degree: u128 = 0;
            let mut k: usize = 0;
            proof {
                lemma_members_are_vertices(labels, community_id);
                lemma_sum_over_take(degree_fn(self@), listed, 0);
                lemma_sum_over_take(inside_fn(self@, labels, community_id), listed, 0);
                lemma_product_fits(0, labels.len());
            }
            while k < nodes.len()
                invariant
                    self.wf(),
                    labels == communities@,
                    labels.len() == self.vertices,
                    nodes@ == listed,
                    listed == members(labels, community_id),
                    listed.len() <= labels.len(),
                    forall|i: int| 0 <= i < listed.len() ==> (#[trigger] listed[i]) < labels.len(),
                    k <= nodes.len(),
                    total_degree == sum_over(degree_fn(self@), listed.take(k as int)),
                    internal_edges == sum_over(
                        inside_fn(self@, labels, community_id),
                        listed.take(k as int),
                    ),
                    total_degree <= k * usize::MAX,
                    internal_edges <= k * usize::MAX,
                decreases nodes.len() - k,
            {
                let node = nodes[k];
                assert(node < self.vertices) by {
                    assert(listed[k as int] < labels.len());
                }
                let neighbors = &self.adj_list[node];
                let ghost row = self@[node as int];
                assert(neighbors@ == row);
                let mut inside: usize = 0;
                let mut j: usize = 0;
                proof {
                    lemma_sum_over_take(same_label(labels, community_id), row, 0);
                }
                while j < neighbors.len()
                    invariant
                        self.wf(),
                        labels == communities@,
                        labels.len() == self.vertices,
                        node < self.vertices,
                        neighbors@ == row,
                        row == self@[node as int],
                        j <= neighbors.len(),
                        inside <= j,
                        inside == sum_over(same_label(labels, community_id), row.take(j as int)),
                    decreases neighbors.len() - j,
                {
                    let neighbor = neighbors[j];
                    assert(neighbor < self.vertices) by {
                        assert(self@[node as int][j as int] < self.vertices);
                    }
                    proof {
                        lemma_sum_over_take(same_label(labels, community_id), row, j as int);
                    }
                    if communities[neighbor] == community_id {
                        inside += 1;
                    }
                    j += 1;
                }
                proof {
                    assert(row.take(j as int) =~= row);
                    lemma_sum_over_take(degree_fn(self@), listed, k as int);
                    lemma_sum_over_take(inside_fn(self@, labels, community_id), listed, k as int);
                    lemma_product_fits(k as nat, labels.len());
                    lemma_product_fits((k + 1) as nat, labels.len());
                }
                total_degree = total_degree + neighbors.len() as u128;
                internal_edges = internal_edges + inside as u128;
                k += 1;
            }
            proof {
                assert(listed.take(k as int) =~= listed);
            }
            tallies.push(CommunityTally { internal_edges, total_degree });
            community_id += 1;
        }
        tallies
    }
}

} // verus!
