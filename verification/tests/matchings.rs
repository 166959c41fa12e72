use tsp_rs::error::GraphError;
use tsp_rs::graph::Graph;
use tsp_rs::matching::Matching;

fn square(rows: Vec<Vec<u64>>) -> Graph<usize> {
    let labels: Vec<usize> = (0..rows.len()).collect();
    Graph::from(labels, rows)
}

fn k4() -> Graph<usize> {
    square(vec![vec![0, 1, 4, 3], vec![1, 0, 2, 5], vec![4, 2, 0, 6], vec![3, 5, 6, 0]])
}

#[test]
fn odd_degree_vertices_are_listed_in_order() {
    let star = square(vec![
        vec![0, 1, 1, 1],
        vec![1, 0, 0, 0],
        vec![1, 0, 0, 0],
        vec![1, 0, 0, 0],
    ]);
    assert_eq!(star.get_odd_degree_vertices(), Ok(vec![0, 1, 2, 3]));
    let path = square(vec![vec![0, 1, 0], vec![1, 0, 1], vec![0, 1, 0]]);
    assert_eq!(path.get_odd_degree_vertices(), Ok(vec![0, 2]));
    let ragged = Graph::from(vec![0usize, 1], vec![vec![0, 1], vec![1]]);
    assert_eq!(ragged.get_odd_degree_vertices(), Err(GraphError::NotSquare));
}

#[test]
fn exact_matching_is_the_lightest() {
    let g = k4();
    let m = g.perfect_matching(&vec![0, 1, 2, 3], Matching::Exact).unwrap();
    // the pairings weigh 1 + 6, 4 + 5 and 3 + 2
    assert_eq!(
        m.get_adjacency_matrix(),
        &vec![vec![0, 0, 0, 3], vec![0, 0, 2, 0], vec![0, 2, 0, 0], vec![3, 0, 0, 0]]
    );
}

#[test]
fn greedy_matching_takes_the_nearest_partner_first() {
    let g = k4();
    let m = g.perfect_matching(&vec![0, 1, 2, 3], Matching::Greedy).unwrap();
    assert_eq!(
        m.get_adjacency_matrix(),
        &vec![vec![0, 1, 0, 0], vec![1, 0, 0, 0], vec![0, 0, 0, 6], vec![0, 0, 6, 0]]
    );
}

#[test]
fn matching_leaves_other_vertices_alone() {
    let g = k4();
    let m = g.perfect_matching(&vec![3, 1], Matching::Exact).unwrap();
    assert_eq!(
        m.get_adjacency_matrix(),
        &vec![vec![0, 0, 0, 0], vec![0, 0, 0, 5], vec![0, 0, 0, 0], vec![0, 5, 0, 0]]
    );
    let none = g.perfect_matching(&vec![], Matching::Exact).unwrap();
    assert_eq!(none.get_adjacency_matrix(), &vec![vec![0; 4]; 4]);
}

#[test]
fn matching_counts_a_vertex_named_twice_once() {
    let g = k4();
    let m = g.perfect_matching(&vec![0, 2, 0], Matching::Exact).unwrap();
    assert_eq!(
        m.get_adjacency_matrix(),
        &vec![vec![0, 0, 4, 0], vec![0, 0, 0, 0], vec![4, 0, 0, 0], vec![0, 0, 0, 0]]
    );
}

#[test]
fn matching_of_an_odd_number_of_vertices_fails() {
    let g = k4();
    assert_eq!(
        g.perfect_matching(&vec![0, 1, 2], Matching::Exact).err(),
        Some(GraphError::OddVertexCount)
    );
    assert_eq!(
        g.perfect_matching(&vec![2], Matching::Greedy).err(),
        Some(GraphError::OddVertexCount)
    );
}

#[test]
fn matching_rejects_bad_input() {
    let g = k4();
    assert_eq!(g.perfect_matching(&vec![0, 4], Matching::Exact).err(), Some(GraphError::OutOfRange));
    let ragged = Graph::from(vec![0usize, 1], vec![vec![0, 1], vec![1]]);
    assert_eq!(ragged.perfect_matching(&vec![0, 1], Matching::Exact).err(), Some(GraphError::NotSquare));
    let directed = square(vec![vec![0, 1], vec![2, 0]]);
    assert_eq!(
        directed.perfect_matching(&vec![0, 1], Matching::Exact).err(),
        Some(GraphError::NotSymmetric)
    );
}

#[test]
fn matching_without_edges_between_the_vertices_fails() {
    let g = square(vec![
        vec![0, 1, 0, 0],
        vec![1, 0, 1, 0],
        vec![0, 1, 0, 1],
        vec![0, 0, 1, 0],
    ]);
    assert_eq!(g.perfect_matching(&vec![0, 2], Matching::Exact).err(), Some(GraphError::Disconnected));
    assert_eq!(g.perfect_matching(&vec![0, 3], Matching::Greedy).err(), Some(GraphError::Disconnected));
}

#[test]
fn exact_matching_finds_what_greedy_misses() {
    // greedy pairs 0 with 1 and leaves 2 without a partner
    let g = square(vec![
        vec![0, 1, 0, 5],
        vec![1, 0, 5, 0],
        vec![0, 5, 0, 0],
        vec![5, 0, 0, 0],
    ]);
    assert_eq!(
        g.perfect_matching(&vec![0, 1, 2, 3], Matching::Greedy).err(),
        Some(GraphError::Disconnected)
    );
    let m = g.perfect_matching(&vec![0, 1, 2, 3], Matching::Exact).unwrap();
    assert_eq!(
        m.get_adjacency_matrix(),
        &vec![vec![0, 0, 0, 5], vec![0, 0, 5, 0], vec![0, 5, 0, 0], vec![5, 0, 0, 0]]
    );
}
