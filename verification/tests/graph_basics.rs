use tsp_rs::edge::Edge;
use tsp_rs::error::GraphError;
use tsp_rs::graph::Graph;

fn square(rows: Vec<Vec<u64>>) -> Graph<usize> {
    let labels: Vec<usize> = (0..rows.len()).collect();
    Graph::from(labels, rows)
}

#[test]
fn new_graph_is_empty_and_square() {
    let g: Graph<usize> = Graph::new();
    assert_eq!(g.num_vertices(), 0);
    assert!(g.is_squared());
    assert!(g.is_symmetric());
    assert!(g.get_adjacency_matrix().is_empty());
}

#[test]
fn from_keeps_labels_and_matrix() {
    let g = Graph::from(vec!["a", "b"], vec![vec![0, 3], vec![4, 0]]);
    assert_eq!(g.num_vertices(), 2);
    assert_eq!(g.get_vertex(0), Ok(&"a"));
    assert_eq!(g.get_vertex(1), Ok(&"b"));
    assert_eq!(g.get_adjacency_matrix(), &vec![vec![0, 3], vec![4, 0]]);
    assert_eq!(g.get_edge_weight(0, 1), Ok(3));
    assert_eq!(g.get_edge_weight(1, 0), Ok(4));
}

#[test]
fn insert_vertex_grows_the_matrix() {
    let mut g: Graph<usize> = Graph::new();
    g.insert_vertex(7);
    g.insert_vertex(9);
    assert_eq!(g.num_vertices(), 2);
    assert_eq!(g.get_adjacency_matrix(), &vec![vec![0, 0], vec![0, 0]]);
    assert!(g.is_squared());
    assert_eq!(g.get_vertex(1), Ok(&9));
    assert_eq!(g.get_vertex(2), Err(GraphError::OutOfRange));
}

#[test]
fn insert_vertex_keeps_the_edges() {
    let mut g = square(vec![vec![0, 5], vec![5, 0]]);
    g.insert_vertex(2);
    assert_eq!(g.get_adjacency_matrix(), &vec![vec![0, 5, 0], vec![5, 0, 0], vec![0, 0, 0]]);
}

#[test]
fn is_squared_rejects_ragged_and_short_matrices() {
    assert!(!square(vec![vec![0, 1], vec![1]]).is_squared());
    assert!(!Graph::from(vec![0usize, 1, 2], vec![vec![0, 1], vec![1, 0]]).is_squared());
    assert!(square(vec![vec![0, 1], vec![1, 0]]).is_squared());
}

#[test]
fn is_symmetric_compares_both_directions() {
    assert!(square(vec![vec![0, 2, 3], vec![2, 0, 4], vec![3, 4, 0]]).is_symmetric());
    assert!(!square(vec![vec![0, 2, 3], vec![2, 0, 4], vec![3, 5, 0]]).is_symmetric());
    assert!(!square(vec![vec![0, 1], vec![1]]).is_symmetric());
}

#[test]
fn remove_vertex_drops_row_and_column() {
    let mut g = Graph::from(
        vec!['a', 'b', 'c'],
        vec![vec![0, 1, 2], vec![3, 0, 4], vec![5, 6, 0]],
    );
    assert_eq!(g.remove_vertex(1), Ok(()));
    assert_eq!(g.num_vertices(), 2);
    assert_eq!(g.get_vertex(0), Ok(&'a'));
    assert_eq!(g.get_vertex(1), Ok(&'c'));
    assert_eq!(g.get_adjacency_matrix(), &vec![vec![0, 2], vec![5, 0]]);
    assert!(g.is_squared());
}

#[test]
fn remove_vertex_out_of_range_changes_nothing() {
    let mut g = square(vec![vec![0, 1], vec![1, 0]]);
    assert_eq!(g.remove_vertex(2), Err(GraphError::OutOfRange));
    assert_eq!(g.num_vertices(), 2);
    assert_eq!(g.get_adjacency_matrix(), &vec![vec![0, 1], vec![1, 0]]);
}

#[test]
fn insert_edge_writes_one_or_both_cells() {
    let mut g = square(vec![vec![0, 0, 0], vec![0, 0, 0], vec![0, 0, 0]]);
    assert_eq!(g.insert_edge(0, 1, 7, false), Ok(()));
    assert_eq!(g.get_adjacency_matrix(), &vec![vec![0, 7, 0], vec![0, 0, 0], vec![0, 0, 0]]);
    assert_eq!(g.insert_edge(1, 2, 9, true), Ok(()));
    assert_eq!(g.get_adjacency_matrix(), &vec![vec![0, 7, 0], vec![0, 0, 9], vec![0, 9, 0]]);
}

#[test]
fn insert_edge_out_of_range_changes_nothing() {
    let mut g = square(vec![vec![0, 1], vec![1, 0]]);
    assert_eq!(g.insert_edge(0, 2, 5, true), Err(GraphError::OutOfRange));
    assert_eq!(g.insert_edge(2, 0, 5, false), Err(GraphError::OutOfRange));
    assert_eq!(g.get_adjacency_matrix(), &vec![vec![0, 1], vec![1, 0]]);
}

#[test]
fn remove_edge_clears_one_or_both_cells() {
    let mut g = square(vec![vec![0, 4, 5], vec![4, 0, 6], vec![5, 6, 0]]);
    assert_eq!(g.remove_edge(0, 1, false), Ok(()));
    assert_eq!(g.get_adjacency_matrix(), &vec![vec![0, 0, 5], vec![4, 0, 6], vec![5, 6, 0]]);
    assert_eq!(g.remove_edge(1, 2, true), Ok(()));
    assert_eq!(g.get_adjacency_matrix(), &vec![vec![0, 0, 5], vec![4, 0, 0], vec![5, 0, 0]]);
    assert_eq!(g.remove_edge(3, 0, true), Err(GraphError::OutOfRange));
}

#[test]
fn get_edge_weight_checks_both_indices() {
    let g = square(vec![vec![0, 4], vec![6, 0]]);
    assert_eq!(g.get_edge_weight(1, 0), Ok(6));
    assert_eq!(g.get_edge_weight(2, 0), Err(GraphError::OutOfRange));
    assert_eq!(g.get_edge_weight(0, 2), Err(GraphError::OutOfRange));
}

#[test]
fn get_edge_weight_on_a_missing_cell_is_out_of_range() {
    let g = Graph::from(vec![0usize, 1], vec![vec![0, 4], vec![6]]);
    assert_eq!(g.get_edge_weight(1, 1), Err(GraphError::OutOfRange));
    assert_eq!(g.get_edge_weight(1, 0), Ok(6));
}

#[test]
fn get_adjacent_vertices_lists_positive_cells_in_order() {
    let g = square(vec![vec![0, 4, 0, 2], vec![4, 0, 0, 0], vec![0, 0, 0, 0], vec![2, 0, 0, 0]]);
    assert_eq!(g.get_adjacent_vertices(0), Ok(vec![1, 3]));
    assert_eq!(g.get_adjacent_vertices(2), Ok(vec![]));
    assert_eq!(g.get_adjacent_vertices(4), Err(GraphError::OutOfRange));
}

#[test]
fn get_adjacent_vertices_needs_a_square_matrix() {
    let g = Graph::from(vec![0usize, 1], vec![vec![0, 4], vec![6]]);
    assert_eq!(g.get_adjacent_vertices(0), Err(GraphError::NotSquare));
}

#[test]
fn union_appends_vertices_and_writes_edges() {
    let mut g = Graph::from(vec![10usize, 11, 12], vec![vec![0, 1, 0], vec![1, 0, 2], vec![0, 2, 0]]);
    let other = Graph::from(vec![10usize, 12], vec![vec![0, 9], vec![9, 0]]);
    assert_eq!(g.union(other), Ok(()));
    assert_eq!(g.num_vertices(), 5);
    assert_eq!(g.get_vertex(3), Ok(&10));
    assert_eq!(g.get_vertex(4), Ok(&12));
    assert_eq!(
        g.get_adjacency_matrix(),
        &vec![
            vec![0, 9, 0, 0, 0],
            vec![9, 0, 2, 0, 0],
            vec![0, 2, 0, 0, 0],
            vec![0, 0, 0, 0, 0],
            vec![0, 0, 0, 0, 0],
        ]
    );
    assert!(g.is_squared());
}

#[test]
fn union_needs_square_graphs() {
    let mut g = square(vec![vec![0, 1], vec![1, 0]]);
    let ragged = Graph::from(vec![0usize, 1], vec![vec![0, 1], vec![1]]);
    assert_eq!(g.union(ragged), Err(GraphError::NotSquare));
    assert_eq!(g.num_vertices(), 2);
    assert_eq!(g.get_adjacency_matrix(), &vec![vec![0, 1], vec![1, 0]]);
}

#[test]
fn edge_accessors_return_the_parts() {
    let e = Edge::new("x", "y", 12);
    assert_eq!(*e.get_src(), "x");
    assert_eq!(*e.get_dst(), "y");
    assert_eq!(e.get_weight(), 12);
}

#[test]
fn error_messages_differ() {
    let all = vec![
        GraphError::OutOfRange,
        GraphError::NotSquare,
        GraphError::NotSymmetric,
        GraphError::NegativeWeight,
        GraphError::Disconnected,
        GraphError::OddVertexCount,
        GraphError::NoEulerianCircuit,
    ];
    for i in 0..all.len() {
        for j in 0..all.len() {
            if i != j {
                assert_ne!(all[i].message(), all[j].message());
            }
        }
    }
    assert_eq!(GraphError::OutOfRange.message(), "Index out of range!");
    assert_eq!(GraphError::NotSquare.message(), "Graph is not squared!");
}
