use tsp_rs::error::GraphError;
use tsp_rs::graph::Graph;
use tsp_rs::prim::lightest_start;

fn square(rows: Vec<Vec<u64>>) -> Graph<usize> {
    let labels: Vec<usize> = (0..rows.len()).collect();
    Graph::from(labels, rows)
}

fn k4() -> Graph<usize> {
    square(vec![vec![0, 1, 4, 3], vec![1, 0, 2, 5], vec![4, 2, 0, 6], vec![3, 5, 6, 0]])
}

fn total_weight(g: &Graph<usize>) -> u64 {
    let m = g.get_adjacency_matrix();
    let mut sum = 0;
    for i in 0..m.len() {
        for j in 0..i {
            sum += m[i][j];
        }
    }
    sum
}

fn edge_count(g: &Graph<usize>) -> usize {
    let m = g.get_adjacency_matrix();
    let mut count = 0;
    for i in 0..m.len() {
        for j in 0..i {
            if m[i][j] > 0 {
                count += 1;
            }
        }
    }
    count
}

#[test]
fn kruskal_on_the_four_vertex_graph_weighs_six() {
    let tree = k4().get_mst_kruskal().unwrap();
    assert_eq!(total_weight(&tree), 6);
    assert_eq!(
        tree.get_adjacency_matrix(),
        &vec![vec![0, 1, 0, 3], vec![1, 0, 2, 0], vec![0, 2, 0, 0], vec![3, 0, 0, 0]]
    );
    assert_eq!(tree.num_vertices(), 4);
    assert_eq!(tree.get_vertex(3), Ok(&3));
}

#[test]
fn prim_on_the_four_vertex_graph_weighs_six() {
    let tree = k4().get_mst_prim().unwrap();
    assert_eq!(total_weight(&tree), 6);
    assert_eq!(
        tree.get_adjacency_matrix(),
        &vec![vec![0, 1, 0, 3], vec![1, 0, 2, 0], vec![0, 2, 0, 0], vec![3, 0, 0, 0]]
    );
}

#[test]
fn kruskal_and_prim_agree_on_distinct_weights() {
    let g = square(vec![
        vec![0, 7, 0, 5, 0, 0, 0],
        vec![7, 0, 8, 9, 12, 0, 0],
        vec![0, 8, 0, 0, 4, 0, 0],
        vec![5, 9, 0, 0, 15, 6, 0],
        vec![0, 12, 4, 15, 0, 10, 13],
        vec![0, 0, 0, 6, 10, 0, 11],
        vec![0, 0, 0, 0, 13, 11, 0],
    ]);
    let k = g.get_mst_kruskal().unwrap();
    let p = g.get_mst_prim().unwrap();
    assert_eq!(total_weight(&k), 5 + 7 + 8 + 4 + 6 + 11);
    assert_eq!(total_weight(&p), total_weight(&k));
    assert_eq!(edge_count(&k), 6);
    assert_eq!(edge_count(&p), 6);
    assert_eq!(k.get_adjacency_matrix(), p.get_adjacency_matrix());
    assert!(k.is_symmetric());
}

#[test]
fn kruskal_and_prim_agree_when_weights_tie() {
    let g = square(vec![
        vec![0, 2, 2, 2],
        vec![2, 0, 2, 2],
        vec![2, 2, 0, 2],
        vec![2, 2, 2, 0],
    ]);
    let k = g.get_mst_kruskal().unwrap();
    let p = g.get_mst_prim().unwrap();
    assert_eq!(total_weight(&k), 6);
    assert_eq!(total_weight(&p), 6);
}

#[test]
fn kruskal_on_a_graph_in_two_parts_returns_a_forest() {
    let g = square(vec![
        vec![0, 3, 0, 0],
        vec![3, 0, 0, 0],
        vec![0, 0, 0, 8],
        vec![0, 0, 8, 0],
    ]);
    let forest = g.get_mst_kruskal().unwrap();
    assert_eq!(forest.get_adjacency_matrix(), g.get_adjacency_matrix());
}

#[test]
fn prim_reports_a_graph_in_two_parts() {
    let g = square(vec![
        vec![0, 3, 0, 0],
        vec![3, 0, 0, 0],
        vec![0, 0, 0, 8],
        vec![0, 0, 8, 0],
    ]);
    assert_eq!(g.get_mst_prim().err(), Some(GraphError::Disconnected));
    let lonely = square(vec![vec![0, 0], vec![0, 0]]);
    assert_eq!(lonely.get_mst_prim().err(), Some(GraphError::Disconnected));
}

#[test]
fn spanning_trees_of_tiny_graphs_have_no_edges() {
    let empty: Graph<usize> = Graph::new();
    assert_eq!(empty.get_mst_prim().unwrap().num_vertices(), 0);
    assert_eq!(empty.get_mst_kruskal().unwrap().num_vertices(), 0);
    let one = square(vec![vec![0]]);
    assert_eq!(one.get_mst_prim().unwrap().get_adjacency_matrix(), &vec![vec![0]]);
    assert_eq!(one.get_mst_kruskal().unwrap().get_adjacency_matrix(), &vec![vec![0]]);
}

#[test]
fn spanning_trees_ignore_loops() {
    let g = square(vec![vec![9, 1], vec![1, 9]]);
    assert_eq!(g.get_mst_kruskal().unwrap().get_adjacency_matrix(), &vec![vec![0, 1], vec![1, 0]]);
    assert_eq!(g.get_mst_prim().unwrap().get_adjacency_matrix(), &vec![vec![0, 1], vec![1, 0]]);
}

#[test]
fn spanning_trees_need_square_symmetric_graphs() {
    let ragged = Graph::from(vec![0usize, 1], vec![vec![0, 1], vec![1]]);
    assert_eq!(ragged.get_mst_kruskal().err(), Some(GraphError::NotSquare));
    assert_eq!(ragged.get_mst_prim().err(), Some(GraphError::NotSquare));
    let directed = square(vec![vec![0, 1], vec![2, 0]]);
    assert_eq!(directed.get_mst_kruskal().err(), Some(GraphError::NotSymmetric));
    assert_eq!(directed.get_mst_prim().err(), Some(GraphError::NotSymmetric));
}

#[test]
fn equal_weights_are_tried_in_the_order_of_their_vertices() {
    let g = square(vec![
        vec![0, 2, 2, 2],
        vec![2, 0, 2, 2],
        vec![2, 2, 0, 2],
        vec![2, 2, 2, 0],
    ]);
    let star = vec![vec![0, 2, 2, 2], vec![2, 0, 0, 0], vec![2, 0, 0, 0], vec![2, 0, 0, 0]];
    assert_eq!(g.get_mst_kruskal().unwrap().get_adjacency_matrix(), &star);
    assert_eq!(g.get_mst_prim().unwrap().get_adjacency_matrix(), &star);
}

#[test]
fn prim_starts_at_the_lightest_edge() {
    // the lightest edge joins 2 and 3; the tree is the same wherever it starts
    let g = square(vec![
        vec![0, 5, 9, 0],
        vec![5, 0, 7, 0],
        vec![9, 7, 0, 1],
        vec![0, 0, 1, 0],
    ]);
    let tree = g.get_mst_prim().unwrap();
    assert_eq!(
        tree.get_adjacency_matrix(),
        &vec![vec![0, 5, 0, 0], vec![5, 0, 7, 0], vec![0, 7, 0, 1], vec![0, 0, 1, 0]]
    );
    assert_eq!(total_weight(&tree), 13);
    assert_eq!(total_weight(&g.get_mst_kruskal().unwrap()), 13);
}

#[test]
fn spanning_trees_keep_the_labels() {
    let g = Graph::from(
        vec!["w".to_string(), "x".to_string(), "y".to_string()],
        vec![vec![0, 1, 2], vec![1, 0, 3], vec![2, 3, 0]],
    );
    let k = g.get_mst_kruskal().unwrap();
    let p = g.get_mst_prim().unwrap();
    for i in 0..3 {
        assert_eq!(k.get_vertex(i), g.get_vertex(i));
        assert_eq!(p.get_vertex(i), g.get_vertex(i));
    }
    assert_eq!(k.get_adjacency_matrix(), &vec![vec![0, 1, 2], vec![1, 0, 0], vec![2, 0, 0]]);
}

#[test]
fn the_lightest_edge_is_looked_for_row_by_row() {
    assert_eq!(lightest_start(&vec![]), 0);
    assert_eq!(lightest_start(&vec![vec![0, 0], vec![0, 0]]), 0);
    assert_eq!(lightest_start(&vec![vec![0, 5, 9], vec![5, 0, 2], vec![9, 2, 0]]), 1);
    assert_eq!(lightest_start(&vec![vec![0, 0, 0], vec![0, 0, 0], vec![0, 0, 4]]), 2);
    // the same weight in rows 0 and 2: the first cell counts
    assert_eq!(lightest_start(&vec![vec![0, 3, 0], vec![3, 0, 7], vec![0, 7, 3]]), 0);
    assert_eq!(lightest_start(&vec![vec![0, 8, 0], vec![8, 0, 3], vec![0, 3, 3]]), 1);
}
