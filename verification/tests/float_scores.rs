use mygraph::graph::Graph;
use mygraph::search::single_source_shortest_path;
use nalgebra::DVector;
use nalgebra_sparse::coo::CooMatrix;
use nalgebra_sparse::csr::CsrMatrix;

fn five_vertex_graph() -> Graph {
    let edges = vec![(0, 1), (0, 4), (1, 2), (1, 3), (1, 4), (2, 3), (3, 4)];
    Graph::from_edgelist(edges, 5).unwrap()
}

fn complete_graph(k: usize) -> Graph {
    let mut graph = Graph::new(k);
    for u in 0..k {
        for v in (u + 1)..k {
            graph.add_edge(u, v).unwrap();
        }
    }
    graph
}

/// Brandes' accumulation over the searches of the library.
fn betweenness(graph: &Graph) -> Vec<f64> {
    let vertices = graph.vertices;
    let mut centrality = vec![0.0; vertices];
    for s in 0..vertices {
        let (mut stack, predecessors, shortest_paths, _) =
            single_source_shortest_path(graph, s).unwrap();
        let mut dependency = vec![0.0; vertices];
        while let Some(w) = stack.pop() {
            for &v in &predecessors[w] {
                dependency[v] +=
                    (shortest_paths[v] as f64 / shortest_paths[w] as f64) * (1.0 + dependency[w]);
            }
            if w != s {
                centrality[w] += dependency[w];
            }
        }
    }
    centrality.iter().map(|value| value / 2.0).collect()
}

fn sparse_matrix(graph: &Graph) -> CsrMatrix<f64> {
    let entries = graph.to_adjacency_matrix_sparse();
    let values = vec![1.0; entries.row_indices.len()];
    let coo = CooMatrix::try_from_triplets(
        entries.size,
        entries.size,
        entries.row_indices,
        entries.col_indices,
        values,
    )
    .unwrap();
    CsrMatrix::from(&coo)
}

fn power_iteration(matrix: &CsrMatrix<f64>, max_iters: usize, tolerance: f64) -> DVector<f64> {
    let mut b_k = DVector::from_element(matrix.nrows(), 1.0);
    for _ in 0..max_iters {
        let mut b_k1: DVector<f64> = matrix * &b_k;
        let norm = b_k1.norm();
        b_k1 /= norm;
        if (&b_k1 - &b_k).norm() < tolerance {
            break;
        }
        b_k = b_k1;
    }
    b_k
}

#[test]
fn betweenness_of_a_complete_graph_is_zero() {
    for k in 3..8 {
        assert_eq!(betweenness(&complete_graph(k)), vec![0.0; k]);
    }
}

#[test]
fn betweenness_of_the_middle_of_a_path() {
    let graph = Graph::from_edgelist(vec![(0, 1), (1, 2)], 3).unwrap();
    assert_eq!(betweenness(&graph), vec![0.0, 1.0, 0.0]);
}

#[test]
fn betweenness_of_the_five_vertex_graph() {
    assert_eq!(betweenness(&five_vertex_graph()), vec![0.0, 2.0, 0.0, 0.5, 0.5]);
}

#[test]
fn betweenness_of_the_centre_of_a_star() {
    let graph = Graph::from_edgelist(vec![(0, 1), (0, 2), (0, 3), (0, 4)], 5).unwrap();
    assert_eq!(betweenness(&graph), vec![6.0, 0.0, 0.0, 0.0, 0.0]);
}

#[test]
fn sparse_matrix_is_symmetric() {
    let matrix = sparse_matrix(&five_vertex_graph());
    assert_eq!(matrix.nrows(), 5);
    assert_eq!(matrix.ncols(), 5);
    let dense = five_vertex_graph().to_adjacency_matrix();
    for u in 0..5 {
        for v in 0..5 {
            let forth = matrix.get_entry(u, v).unwrap().into_value();
            let back = matrix.get_entry(v, u).unwrap().into_value();
            assert_eq!(forth, back);
            // Every edge is listed at both ends, and each time with its mirror.
            assert_eq!(forth, 2.0 * dense[u][v] as f64);
        }
    }
}

#[test]
fn eigenvector_of_a_triangle_is_uniform() {
    let scores = power_iteration(&sparse_matrix(&complete_graph(3)), 1000, 1e-10);
    for v in 0..3 {
        assert!((scores[v] - 1.0 / 3.0f64.sqrt()).abs() < 1e-9);
    }
}

#[test]
fn eigenvector_of_a_connected_graph_with_a_triangle_is_not_negative() {
    let scores = power_iteration(&sparse_matrix(&five_vertex_graph()), 1000, 1e-10);
    assert_eq!(scores.len(), 5);
    for v in 0..5 {
        assert!(scores[v] >= 0.0);
    }
    // Vertex 1 has the most neighbours, and they are well connected.
    for v in [0, 2, 3, 4] {
        assert!(scores[1] > scores[v]);
    }
}
