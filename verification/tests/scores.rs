use mygraph::centrality::{closeness_of, Ratio};
use mygraph::clustering::{largest_label, CommunityTally};
use mygraph::graph::Graph;

fn ratio(numerator: usize, denominator: u128) -> Ratio {
    Ratio { numerator, denominator }
}

fn as_float(score: Ratio) -> f64 {
    score.numerator as f64 / score.denominator as f64
}

#[test]
fn closeness_of_the_five_vertex_graph() {
    let edges = vec![(0, 1), (0, 4), (1, 2), (1, 3), (1, 4), (2, 3), (3, 4)];
    let graph = Graph::from_edgelist(edges, 5).unwrap();
    assert_eq!(
        graph.closeness_centrality(),
        vec![ratio(4, 6), ratio(4, 4), ratio(4, 6), ratio(4, 5), ratio(4, 5)]
    );
}

#[test]
fn closeness_as_a_float() {
    let graph = Graph::from_edgelist(vec![(0, 1), (1, 2)], 3).unwrap();
    let scores: Vec<f64> = graph.closeness_centrality().into_iter().map(as_float).collect();
    assert_eq!(scores, vec![2.0 / 3.0, 1.0, 2.0 / 3.0]);
}

#[test]
fn closeness_of_an_isolated_vertex_is_zero() {
    let graph = Graph::from_edgelist(vec![(0, 1)], 3).unwrap();
    assert_eq!(closeness_of(&graph, 2), ratio(0, 1));
    assert_eq!(as_float(closeness_of(&graph, 2)), 0.0);
    assert_eq!(graph.closeness_centrality(), vec![ratio(2, 1), ratio(2, 1), ratio(0, 1)]);
}

#[test]
fn closeness_of_a_single_vertex_is_zero() {
    assert_eq!(Graph::new(1).closeness_centrality(), vec![ratio(0, 1)]);
    assert_eq!(Graph::new(0).closeness_centrality(), Vec::<Ratio>::new());
}

#[test]
fn closeness_counts_the_reachable_vertices_only() {
    // Two components: the distances within the component of 0 add up to 3.
    let graph = Graph::from_edgelist(vec![(0, 1), (1, 2), (3, 4)], 5).unwrap();
    assert_eq!(closeness_of(&graph, 0), ratio(4, 3));
    assert_eq!(closeness_of(&graph, 3), ratio(4, 1));
}

#[test]
fn communities_list_their_vertices() {
    let graph = Graph::new(6);
    let labels = vec![2, 0, 2, 1, 0, 2];
    assert_eq!(largest_label(&labels), 2);
    assert_eq!(
        graph.community_to_nodes(&labels),
        vec![vec![1, 4], vec![3], vec![0, 2, 5]]
    );
}

#[test]
fn a_label_that_no_vertex_carries_has_an_empty_list() {
    let graph = Graph::new(2);
    assert_eq!(
        graph.community_to_nodes(&vec![3, 0]),
        vec![vec![1], vec![], vec![], vec![0]]
    );
}

#[test]
fn tallies_of_two_communities() {
    // Two triangles joined by the edge between 2 and 3.
    let edges = vec![(0, 1), (1, 2), (0, 2), (3, 4), (4, 5), (3, 5), (2, 3)];
    let graph = Graph::from_edgelist(edges, 6).unwrap();
    let tallies = graph.community_tallies(&vec![0, 0, 0, 1, 1, 1]);
    assert_eq!(
        tallies,
        vec![
            CommunityTally { internal_edges: 6, total_degree: 7 },
            CommunityTally { internal_edges: 6, total_degree: 7 },
        ]
    );
}

#[test]
fn tallies_of_one_community_hold_every_half_edge() {
    let graph = Graph::from_edgelist(vec![(0, 1), (1, 2), (1, 1)], 3).unwrap();
    let tallies = graph.community_tallies(&vec![0, 0, 0]);
    assert_eq!(tallies, vec![CommunityTally { internal_edges: 6, total_degree: 6 }]);
}

#[test]
fn tallies_of_an_unused_label_are_zero() {
    let graph = Graph::from_edgelist(vec![(0, 1)], 2).unwrap();
    let tallies = graph.community_tallies(&vec![0, 2]);
    assert_eq!(
        tallies,
        vec![
            CommunityTally { internal_edges: 0, total_degree: 1 },
            CommunityTally { internal_edges: 0, total_degree: 0 },
            CommunityTally { internal_edges: 0, total_degree: 1 },
        ]
    );
}
