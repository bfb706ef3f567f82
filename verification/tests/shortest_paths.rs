use mygraph::graph::Graph;
use mygraph::paths::bfs_shortest_paths;
use mygraph::search::{distance_matrix, single_source_shortest_path};

const FAR: usize = usize::MAX;

fn five_vertex_graph() -> Graph {
    let edges = vec![(0, 1), (0, 4), (1, 2), (1, 3), (1, 4), (2, 3), (3, 4)];
    Graph::from_edgelist(edges, 5).unwrap()
}

fn complete_graph(k: usize) -> Graph {
    let mut graph = Graph::new(k);
    for u in 0..k {
        for v in (u + 1)..k {
            graph.add_edge(u, v).unwrap();
        }
    }
    graph
}

/// A chain of `diamonds` diamonds: every diamond doubles the number of
/// shortest walks from vertex 0 to its far corner.
fn diamond_chain(diamonds: usize) -> Graph {
    let mut graph = Graph::new(1 + 3 * diamonds);
    for i in 0..diamonds {
        let near = 3 * i;
        graph.add_edge(near, near + 1).unwrap();
        graph.add_edge(near, near + 2).unwrap();
        graph.add_edge(near + 1, near + 3).unwrap();
        graph.add_edge(near + 2, near + 3).unwrap();
    }
    graph
}

#[test]
fn distances_of_the_five_vertex_graph() {
    let graph = five_vertex_graph();
    assert_eq!(bfs_shortest_paths(&graph, 0), vec![0, 1, 2, 2, 1]);
    assert_eq!(bfs_shortest_paths(&graph, 1), vec![1, 0, 1, 1, 1]);
    assert_eq!(bfs_shortest_paths(&graph, 3), vec![2, 1, 1, 0, 1]);
}

#[test]
fn distance_of_the_source_is_zero() {
    let graph = five_vertex_graph();
    for s in 0..graph.vertices {
        assert_eq!(bfs_shortest_paths(&graph, s)[s], 0);
    }
}

#[test]
fn direct_neighbours_are_at_distance_one() {
    let graph = five_vertex_graph();
    for s in 0..graph.vertices {
        let distances = bfs_shortest_paths(&graph, s);
        for &v in &graph.adj_list[s] {
            assert_eq!(distances[v], 1);
        }
    }
}

#[test]
fn unreachable_vertices_keep_the_sentinel() {
    let graph = Graph::from_edgelist(vec![(0, 1), (2, 3)], 5).unwrap();
    assert_eq!(bfs_shortest_paths(&graph, 0), vec![0, 1, FAR, FAR, FAR]);
    assert_eq!(bfs_shortest_paths(&graph, 3), vec![FAR, FAR, 1, 0, FAR]);
    assert_eq!(bfs_shortest_paths(&graph, 4), vec![FAR, FAR, FAR, FAR, 0]);
}

#[test]
fn distances_along_a_path() {
    let graph = Graph::from_edgelist(vec![(3, 2), (2, 1), (1, 0)], 4).unwrap();
    assert_eq!(bfs_shortest_paths(&graph, 0), vec![0, 1, 2, 3]);
    assert_eq!(bfs_shortest_paths(&graph, 2), vec![2, 1, 0, 1]);
}

#[test]
fn loops_and_parallel_edges_do_not_change_distances() {
    let graph = Graph::from_edgelist(vec![(0, 0), (0, 1), (0, 1), (1, 2)], 3).unwrap();
    assert_eq!(bfs_shortest_paths(&graph, 0), vec![0, 1, 2]);
}

#[test]
fn distance_matrix_holds_a_row_for_every_source() {
    let graph = five_vertex_graph();
    assert_eq!(
        distance_matrix(&graph),
        vec![
            vec![0, 1, 2, 2, 1],
            vec![1, 0, 1, 1, 1],
            vec![2, 1, 0, 1, 2],
            vec![2, 1, 1, 0, 1],
            vec![1, 1, 2, 1, 0],
        ]
    );
}

#[test]
fn distance_matrix_of_the_graph_without_vertices() {
    assert_eq!(distance_matrix(&Graph::new(0)), Vec::<Vec<usize>>::new());
}

#[test]
fn search_of_the_five_vertex_graph() {
    let graph = five_vertex_graph();
    let (order, predecessors, counts, distances) = single_source_shortest_path(&graph, 0).unwrap();
    assert_eq!(order, vec![0, 1, 4, 2, 3]);
    assert_eq!(predecessors, vec![vec![], vec![0], vec![1], vec![1, 4], vec![0]]);
    assert_eq!(counts, vec![1, 1, 1, 2, 1]);
    assert_eq!(distances, vec![0, 1, 2, 2, 1]);
}

#[test]
fn search_agrees_with_the_distances_alone() {
    let graph = five_vertex_graph();
    for s in 0..graph.vertices {
        let (_, _, _, distances) = single_source_shortest_path(&graph, s).unwrap();
        assert_eq!(distances, bfs_shortest_paths(&graph, s));
    }
}

#[test]
fn visit_order_does_not_decrease_in_distance() {
    let graph = diamond_chain(4);
    let (order, _, _, distances) = single_source_shortest_path(&graph, 0).unwrap();
    assert_eq!(order.len(), graph.vertices);
    assert_eq!(order[0], 0);
    for pair in order.windows(2) {
        assert!(distances[pair[0]] <= distances[pair[1]]);
    }
}

#[test]
fn search_leaves_unreachable_vertices_out() {
    let graph = Graph::from_edgelist(vec![(0, 1), (2, 3)], 4).unwrap();
    let (order, predecessors, counts, distances) = single_source_shortest_path(&graph, 2).unwrap();
    assert_eq!(order, vec![2, 3]);
    assert_eq!(predecessors, vec![vec![], vec![], vec![], vec![2]]);
    assert_eq!(counts, vec![0, 0, 1, 1]);
    assert_eq!(distances, vec![FAR, FAR, 0, 1]);
}

#[test]
fn parallel_edges_make_different_shortest_walks() {
    let graph = Graph::from_edgelist(vec![(0, 1), (0, 1), (1, 2), (1, 2), (1, 2)], 3).unwrap();
    let (order, predecessors, counts, distances) = single_source_shortest_path(&graph, 0).unwrap();
    assert_eq!(order, vec![0, 1, 2]);
    assert_eq!(predecessors, vec![vec![], vec![0, 0], vec![1, 1, 1]]);
    assert_eq!(counts, vec![1, 2, 6]);
    assert_eq!(distances, vec![0, 1, 2]);
}

#[test]
fn shortest_walks_double_with_every_diamond() {
    let graph = diamond_chain(5);
    let (_, _, counts, distances) = single_source_shortest_path(&graph, 0).unwrap();
    for i in 0..=5 {
        assert_eq!(counts[3 * i], 1 << i);
        assert_eq!(distances[3 * i], 2 * i);
    }
}

#[test]
fn search_gives_nothing_where_a_count_does_not_fit() {
    let bits = usize::BITS as usize;
    let fits = diamond_chain(bits - 1);
    let (_, _, counts, _) = single_source_shortest_path(&fits, 0).unwrap();
    assert_eq!(counts[3 * (bits - 1)], 1 << (bits - 1));
    let too_many = diamond_chain(bits);
    assert!(single_source_shortest_path(&too_many, 0).is_none());
}

#[test]
fn in_a_complete_graph_only_the_source_is_a_predecessor() {
    for k in 3..7 {
        let graph = complete_graph(k);
        for s in 0..k {
            let (order, predecessors, counts, distances) =
                single_source_shortest_path(&graph, s).unwrap();
            assert_eq!(order.len(), k);
            for w in 0..k {
                if w == s {
                    assert_eq!(predecessors[w], Vec::<usize>::new());
                    assert_eq!(distances[w], 0);
                } else {
                    assert_eq!(predecessors[w], vec![s]);
                    assert_eq!(distances[w], 1);
                }
                assert_eq!(counts[w], 1);
            }
        }
    }
}

#[test]
fn search_of_a_single_vertex() {
    let graph = Graph::new(1);
    let (order, predecessors, counts, distances) = single_source_shortest_path(&graph, 0).unwrap();
    assert_eq!(order, vec![0]);
    assert_eq!(predecessors, vec![Vec::<usize>::new()]);
    assert_eq!(counts, vec![1]);
    assert_eq!(distances, vec![0]);
}

#[test]
fn search_has_the_base_cases_of_the_distances() {
    // Vertex 0 lists itself, 1 twice and 2; vertices 4 and 5 are out of reach.
    let edges = vec![(0, 0), (0, 1), (0, 1), (0, 2), (2, 3), (4, 5)];
    let graph = Graph::from_edgelist(edges, 6).unwrap();
    for s in 0..graph.vertices {
        let (order, _, _, distances) = single_source_shortest_path(&graph, s).unwrap();
        assert_eq!(distances.len(), graph.vertices);
        assert_eq!(distances[s], 0);
        for &w in &graph.adj_list[s] {
            if w != s {
                assert_eq!(distances[w], 1);
            }
        }
        for v in 0..graph.vertices {
            assert_eq!(distances[v] == FAR, !order.contains(&v));
        }
    }
    let (_, _, _, distances) = single_source_shortest_path(&graph, 0).unwrap();
    assert_eq!(distances, vec![0, 1, 1, 2, FAR, FAR]);
    let (_, _, _, distances) = single_source_shortest_path(&graph, 5).unwrap();
    assert_eq!(distances, vec![FAR, FAR, FAR, FAR, 1, 0]);
}
