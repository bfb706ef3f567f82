use mygraph::graph::{Graph, GraphError};

fn five_vertex_graph() -> Graph {
    let edges = vec![(0, 1), (0, 4), (1, 2), (1, 3), (1, 4), (2, 3), (3, 4)];
    Graph::from_edgelist(edges, 5).unwrap()
}

fn sorted(mut row: Vec<usize>) -> Vec<usize> {
    row.sort();
    row
}

#[test]
fn new_graph_has_empty_lists() {
    let graph = Graph::new(4);
    assert_eq!(graph.vertices, 4);
    assert_eq!(graph.adj_list, vec![Vec::<usize>::new(); 4]);
}

#[test]
fn new_graph_of_no_vertices() {
    let graph = Graph::new(0);
    assert_eq!(graph.vertices, 0);
    assert!(graph.adj_list.is_empty());
    assert_eq!(graph.degree(), Vec::<usize>::new());
}

#[test]
fn add_edge_appends_at_both_ends() {
    let mut graph = Graph::new(3);
    assert_eq!(graph.add_edge(0, 2), Ok(()));
    assert_eq!(graph.add_edge(2, 1), Ok(()));
    assert_eq!(graph.adj_list, vec![vec![2], vec![2], vec![0, 1]]);
}

#[test]
fn add_edge_keeps_parallel_edges_and_loops() {
    let mut graph = Graph::new(2);
    graph.add_edge(0, 1).unwrap();
    graph.add_edge(0, 1).unwrap();
    graph.add_edge(1, 1).unwrap();
    assert_eq!(graph.adj_list, vec![vec![1, 1], vec![0, 0, 1, 1]]);
    assert_eq!(graph.degree(), vec![2, 4]);
}

#[test]
fn add_edge_refuses_an_index_out_of_range() {
    let mut graph = Graph::new(3);
    graph.add_edge(0, 1).unwrap();
    assert_eq!(graph.add_edge(3, 0), Err(GraphError::IndexOutOfRange));
    assert_eq!(graph.add_edge(0, 3), Err(GraphError::IndexOutOfRange));
    assert_eq!(graph.add_edge(7, 9), Err(GraphError::IndexOutOfRange));
    assert_eq!(graph.adj_list, vec![vec![1], vec![0], vec![]]);
}

#[test]
fn from_edgelist_replays_the_edges_in_order() {
    let graph = five_vertex_graph();
    assert_eq!(graph.vertices, 5);
    assert_eq!(
        graph.adj_list,
        vec![vec![1, 4], vec![0, 2, 3, 4], vec![1, 3], vec![1, 2, 4], vec![0, 1, 3]]
    );
}

#[test]
fn from_edgelist_refuses_an_index_out_of_range() {
    let refused = Graph::from_edgelist(vec![(0, 1), (1, 5)], 5);
    assert!(matches!(refused, Err(GraphError::IndexOutOfRange)));
}

#[test]
fn from_adjlist_adds_an_edge_listed_at_its_lower_end_only() {
    let graph = Graph::from_adjlist(vec![vec![1, 2], vec![], vec![]]).unwrap();
    assert_eq!(graph.vertices, 3);
    assert_eq!(graph.adj_list, vec![vec![1, 2], vec![0], vec![0]]);
}

#[test]
fn from_adjlist_refuses_an_index_out_of_range() {
    let refused = Graph::from_adjlist(vec![vec![1], vec![2]]);
    assert!(matches!(refused, Err(GraphError::IndexOutOfRange)));
}

#[test]
fn symmetry_of_multiplicities() {
    let mut graph = five_vertex_graph();
    graph.add_edge(1, 2).unwrap();
    graph.add_edge(3, 3).unwrap();
    for u in 0..graph.vertices {
        for v in 0..graph.vertices {
            let forth = graph.adj_list[u].iter().filter(|&&x| x == v).count();
            let back = graph.adj_list[v].iter().filter(|&&x| x == u).count();
            assert_eq!(forth, back);
        }
    }
}

#[test]
fn degree_sum_is_twice_the_number_of_edges() {
    let graph = five_vertex_graph();
    let degrees = graph.degree();
    assert_eq!(degrees, vec![2, 4, 2, 3, 3]);
    assert_eq!(degrees.iter().sum::<usize>(), 14);
}

#[test]
fn degree_of_an_isolated_vertex_is_zero() {
    let graph = Graph::from_edgelist(vec![(0, 1)], 3).unwrap();
    assert_eq!(graph.degree(), vec![1, 1, 0]);
}

#[test]
fn round_trip_through_the_adjacency_list() {
    let graph = Graph::from_edgelist(vec![(0, 1), (1, 2)], 3).unwrap();
    assert_eq!(graph.adj_list, vec![vec![1], vec![0, 2], vec![1]]);
    let rebuilt = Graph::from_adjlist(graph.adj_list.clone()).unwrap();
    assert_eq!(rebuilt.vertices, 3);
    let rows: Vec<Vec<usize>> = rebuilt.adj_list.iter().cloned().map(sorted).collect();
    assert_eq!(rows, vec![vec![1], vec![0, 2], vec![1]]);
}

#[test]
fn round_trip_keeps_every_list_up_to_order() {
    let mut graph = five_vertex_graph();
    graph.add_edge(3, 1).unwrap();
    graph.add_edge(1, 3).unwrap();
    graph.add_edge(2, 2).unwrap();
    graph.add_edge(4, 4).unwrap();
    graph.add_edge(4, 4).unwrap();
    graph.add_edge(4, 0).unwrap();
    let rebuilt = Graph::from_adjlist(graph.adj_list.clone()).unwrap();
    assert_eq!(rebuilt.vertices, graph.vertices);
    assert_eq!(rebuilt.adj_list.len(), graph.adj_list.len());
    for u in 0..graph.vertices {
        assert_eq!(sorted(rebuilt.adj_list[u].clone()), sorted(graph.adj_list[u].clone()));
    }
    let again = Graph::from_adjlist(rebuilt.adj_list.clone()).unwrap();
    for u in 0..graph.vertices {
        assert_eq!(sorted(again.adj_list[u].clone()), sorted(graph.adj_list[u].clone()));
    }
}

#[test]
fn round_trip_of_a_graph_without_edges_is_the_identity() {
    let graph = Graph::from_edgelist(Vec::new(), 4).unwrap();
    let rebuilt = Graph::from_adjlist(graph.adj_list.clone()).unwrap();
    assert_eq!(rebuilt.vertices, graph.vertices);
    assert_eq!(rebuilt.adj_list, graph.adj_list);
}

#[test]
fn from_adjlist_adds_an_edge_listed_at_its_upper_end_only() {
    let graph = Graph::from_adjlist(vec![vec![], vec![0], vec![1, 1]]).unwrap();
    assert_eq!(graph.adj_list, vec![vec![1], vec![0, 2, 2], vec![1, 1]]);
}

#[test]
fn from_adjlist_takes_the_larger_of_two_multiplicities() {
    let graph = Graph::from_adjlist(vec![vec![1], vec![0, 0, 0]]).unwrap();
    assert_eq!(graph.adj_list, vec![vec![1, 1, 1], vec![0, 0, 0]]);
    let graph = Graph::from_adjlist(vec![vec![1, 1, 1], vec![0]]).unwrap();
    assert_eq!(graph.adj_list, vec![vec![1, 1, 1], vec![0, 0, 0]]);
}

#[test]
fn from_adjlist_reads_two_entries_as_one_loop() {
    assert_eq!(Graph::from_adjlist(vec![vec![0, 0]]).unwrap().adj_list, vec![vec![0, 0]]);
    assert_eq!(Graph::from_adjlist(vec![vec![0]]).unwrap().adj_list, vec![vec![0, 0]]);
    assert_eq!(
        Graph::from_adjlist(vec![vec![0, 0, 0]]).unwrap().adj_list,
        vec![vec![0, 0, 0, 0]]
    );
}

#[test]
fn from_adjlist_of_no_list() {
    let graph = Graph::from_adjlist(Vec::new()).unwrap();
    assert_eq!(graph.vertices, 0);
    assert!(graph.adj_list.is_empty());
}

#[test]
fn dense_matrix_of_the_five_vertex_graph() {
    let matrix = five_vertex_graph().to_adjacency_matrix();
    assert_eq!(
        matrix,
        vec![
            vec![0, 1, 0, 0, 1],
            vec![1, 0, 1, 1, 1],
            vec![0, 1, 0, 1, 0],
            vec![0, 1, 1, 0, 1],
            vec![1, 1, 0, 1, 0],
        ]
    );
}

#[test]
fn dense_matrix_marks_a_loop_and_a_parallel_edge_once() {
    let graph = Graph::from_edgelist(vec![(0, 0), (0, 1), (0, 1)], 2).unwrap();
    assert_eq!(graph.to_adjacency_matrix(), vec![vec![1, 1], vec![1, 0]]);
}

#[test]
fn sparse_entries_list_every_half_edge_and_its_mirror() {
    let graph = Graph::from_edgelist(vec![(0, 1), (1, 2)], 3).unwrap();
    let entries = graph.to_adjacency_matrix_sparse();
    assert_eq!(entries.size, 3);
    assert_eq!(entries.row_indices, vec![0, 1, 1, 0, 1, 2, 2, 1]);
    assert_eq!(entries.col_indices, vec![1, 0, 0, 1, 2, 1, 1, 2]);
}
