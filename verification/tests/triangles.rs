use mygraph::graph::Graph;
use mygraph::structural::{contains_sorted, sorted_adjacency, triangles_from};

fn complete_graph(k: usize) -> Graph {
    let mut graph = Graph::new(k);
    for u in 0..k {
        for v in (u + 1)..k {
            graph.add_edge(u, v).unwrap();
        }
    }
    graph
}

#[test]
fn one_triangle_is_counted_once() {
    let graph = Graph::from_edgelist(vec![(0, 1), (1, 2), (0, 2)], 3).unwrap();
    assert_eq!(graph.count_triangles(), Some(1));
}

#[test]
fn triangles_of_the_five_vertex_graph() {
    let edges = vec![(0, 1), (0, 4), (1, 2), (1, 3), (1, 4), (2, 3), (3, 4)];
    let graph = Graph::from_edgelist(edges, 5).unwrap();
    assert_eq!(graph.count_triangles(), Some(3));
}

#[test]
fn triangles_of_complete_graphs() {
    assert_eq!(complete_graph(2).count_triangles(), Some(0));
    assert_eq!(complete_graph(3).count_triangles(), Some(1));
    assert_eq!(complete_graph(4).count_triangles(), Some(4));
    assert_eq!(complete_graph(5).count_triangles(), Some(10));
    assert_eq!(complete_graph(6).count_triangles(), Some(20));
}

#[test]
fn a_graph_without_triangles() {
    let square = Graph::from_edgelist(vec![(0, 1), (1, 2), (2, 3), (3, 0)], 4).unwrap();
    assert_eq!(square.count_triangles(), Some(0));
    assert_eq!(Graph::new(0).count_triangles(), Some(0));
    assert_eq!(Graph::new(3).count_triangles(), Some(0));
}

#[test]
fn triangles_do_not_depend_on_the_order_of_the_edges() {
    // The lists of this graph are not sorted: vertex 1 lists 4 before 0.
    let graph = Graph::from_edgelist(vec![(1, 4), (0, 1), (4, 0)], 5).unwrap();
    assert_eq!(graph.adj_list[1], vec![4, 0]);
    assert_eq!(graph.count_triangles(), Some(1));
    assert_eq!(graph.adj_list[1], vec![4, 0]);
}

#[test]
fn a_parallel_edge_is_witnessed_again() {
    // The edge between 0 and 1 twice: the triangle is witnessed twice at 0.
    let graph = Graph::from_edgelist(vec![(0, 1), (0, 1), (1, 2), (0, 2)], 3).unwrap();
    assert_eq!(graph.count_triangles(), Some(2));
}

#[test]
fn sorted_adjacency_sorts_a_copy() {
    let graph = Graph::from_edgelist(vec![(2, 3), (2, 0), (2, 1), (2, 0)], 4).unwrap();
    let rows = sorted_adjacency(&graph);
    assert_eq!(rows, vec![vec![2, 2], vec![2], vec![0, 0, 1, 3], vec![2]]);
    assert_eq!(graph.adj_list[2], vec![3, 0, 1, 0]);
}

#[test]
fn triangles_at_each_vertex() {
    let edges = vec![(0, 1), (0, 4), (1, 2), (1, 3), (1, 4), (2, 3), (3, 4)];
    let graph = Graph::from_edgelist(edges, 5).unwrap();
    let rows = sorted_adjacency(&graph);
    assert_eq!(triangles_from(&rows, 0), Some(1));
    assert_eq!(triangles_from(&rows, 1), Some(2));
    assert_eq!(triangles_from(&rows, 2), Some(0));
    assert_eq!(triangles_from(&rows, 3), Some(0));
    assert_eq!(triangles_from(&rows, 4), Some(0));
}

#[test]
fn binary_search_finds_what_is_there() {
    let row = vec![1, 3, 3, 7, 20];
    for x in 0..25 {
        assert_eq!(contains_sorted(&row, x), row.contains(&x));
    }
    assert!(!contains_sorted(&Vec::new(), 0));
    assert!(contains_sorted(&vec![usize::MAX], usize::MAX));
}
