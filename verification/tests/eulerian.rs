use tsp_rs::error::GraphError;
use tsp_rs::euler::euler_walk;
use tsp_rs::graph::Graph;

fn square(rows: Vec<Vec<u64>>) -> Graph<usize> {
    let labels: Vec<usize> = (0..rows.len()).collect();
    Graph::from(labels, rows)
}

fn assert_uses_every_edge_once(g: &Vec<Vec<u64>>, walk: &Vec<usize>) {
    let n = g.len();
    let mut used = vec![vec![0u64; n]; n];
    for k in 1..walk.len() {
        let (a, b) = (walk[k - 1], walk[k]);
        used[a][b] += 1;
        if a != b {
            used[b][a] += 1;
        }
    }
    assert_eq!(&used, g);
    assert_eq!(walk[0], walk[walk.len() - 1]);
}

#[test]
fn triangle_is_walked_round() {
    let g = square(vec![vec![0, 5, 7], vec![5, 0, 6], vec![7, 6, 0]]);
    assert_eq!(g.get_eulerian_path(), Ok(vec![0, 1, 2, 0]));
}

#[test]
fn two_triangles_that_share_a_vertex_are_spliced() {
    let rows = vec![
        vec![0, 1, 1, 0, 0],
        vec![1, 0, 1, 0, 0],
        vec![1, 1, 0, 1, 1],
        vec![0, 0, 1, 0, 1],
        vec![0, 0, 1, 1, 0],
    ];
    let walk = square(rows.clone()).get_eulerian_path().unwrap();
    assert_eq!(walk, vec![0, 1, 2, 3, 4, 2, 0]);
    assert_uses_every_edge_once(&rows, &walk);
}

#[test]
fn a_later_circuit_is_put_in_where_it_starts() {
    // from 0 the first walk is 0 1 2 0; the square 1 3 4 5 is put in at 1
    let rows = vec![
        vec![0, 1, 1, 0, 0, 0],
        vec![1, 0, 1, 1, 0, 1],
        vec![1, 1, 0, 0, 0, 0],
        vec![0, 1, 0, 0, 1, 0],
        vec![0, 0, 0, 1, 0, 1],
        vec![0, 1, 0, 0, 1, 0],
    ];
    let walk = square(rows.clone()).get_eulerian_path().unwrap();
    assert_eq!(walk, vec![0, 1, 3, 4, 5, 1, 2, 0]);
    assert_uses_every_edge_once(&rows, &walk);
}

#[test]
fn a_vertex_of_odd_degree_rules_a_circuit_out() {
    let path = square(vec![vec![0, 1, 0], vec![1, 0, 1], vec![0, 1, 0]]);
    assert_eq!(path.get_eulerian_path(), Err(GraphError::NoEulerianCircuit));
    let k4 = square(vec![vec![0, 1, 1, 1], vec![1, 0, 1, 1], vec![1, 1, 0, 1], vec![1, 1, 1, 0]]);
    assert_eq!(k4.get_eulerian_path(), Err(GraphError::NoEulerianCircuit));
}

#[test]
fn a_graph_in_two_parts_has_no_circuit() {
    let g = square(vec![
        vec![0, 1, 1, 0, 0, 0],
        vec![1, 0, 1, 0, 0, 0],
        vec![1, 1, 0, 0, 0, 0],
        vec![0, 0, 0, 0, 1, 1],
        vec![0, 0, 0, 1, 0, 1],
        vec![0, 0, 0, 1, 1, 0],
    ]);
    assert_eq!(g.get_eulerian_path(), Err(GraphError::NoEulerianCircuit));
    let with_lonely = square(vec![vec![0, 0], vec![0, 0]]);
    assert_eq!(with_lonely.get_eulerian_path(), Err(GraphError::NoEulerianCircuit));
}

#[test]
fn tiny_graphs_have_trivial_circuits() {
    let empty: Graph<usize> = Graph::new();
    assert_eq!(empty.get_eulerian_path(), Ok(vec![]));
    let one = square(vec![vec![0]]);
    assert_eq!(one.get_eulerian_path(), Ok(vec![0]));
}

#[test]
fn loops_are_walked_too() {
    let rows = vec![vec![3, 1], vec![1, 0]];
    let g = square(rows);
    // vertex 0 has a loop and one edge to vertex 1, which is of odd degree
    assert_eq!(g.get_eulerian_path(), Err(GraphError::NoEulerianCircuit));
    let looped = square(vec![vec![4, 2, 2], vec![2, 0, 2], vec![2, 2, 0]]);
    assert_eq!(looped.get_eulerian_path(), Ok(vec![0, 0, 1, 2, 0]));
}

#[test]
fn eulerian_path_needs_a_square_symmetric_graph() {
    let ragged = Graph::from(vec![0usize, 1], vec![vec![0, 1], vec![1]]);
    assert_eq!(ragged.get_eulerian_path(), Err(GraphError::NotSquare));
    let directed = square(vec![vec![0, 1], vec![0, 0]]);
    assert_eq!(directed.get_eulerian_path(), Err(GraphError::NotSymmetric));
}

#[test]
fn parallel_edges_are_each_walked_once() {
    let g = vec![vec![0, 2, 0], vec![2, 0, 2], vec![0, 2, 0]];
    let walk = euler_walk(&g).unwrap();
    // the walk 0 1 0 comes first, and 1 2 1 is put in at vertex 1
    assert_eq!(walk, vec![0, 1, 2, 1, 0]);
    assert_uses_every_edge_once(&g, &walk);
}
