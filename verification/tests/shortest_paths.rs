use std::collections::VecDeque;
use tsp_rs::error::GraphError;
use tsp_rs::graph::Graph;

fn square(rows: Vec<Vec<u64>>) -> Graph<usize> {
    let labels: Vec<usize> = (0..rows.len()).collect();
    Graph::from(labels, rows)
}

fn path_cost(m: &Vec<Vec<u64>>, path: &[usize]) -> u64 {
    let mut cost = 0;
    for k in 1..path.len() {
        assert!(m[path[k - 1]][path[k]] > 0);
        cost += m[path[k - 1]][path[k]];
    }
    cost
}

fn cheapest_simple_path(m: &Vec<Vec<u64>>, at: usize, dst: usize, seen: &mut Vec<bool>) -> Option<u64> {
    if at == dst {
        return Some(0);
    }
    let mut best: Option<u64> = None;
    for next in 0..m.len() {
        if m[at][next] > 0 && !seen[next] {
            seen[next] = true;
            if let Some(rest) = cheapest_simple_path(m, next, dst, seen) {
                let total = rest + m[at][next];
                if best.map_or(true, |b| total < b) {
                    best = Some(total);
                }
            }
            seen[next] = false;
        }
    }
    best
}

#[test]
fn dijkstra_takes_the_detour_when_it_is_cheaper() {
    let g = square(vec![
        vec![0, 7, 9, 0, 0, 14],
        vec![7, 0, 10, 15, 0, 0],
        vec![9, 10, 0, 11, 0, 2],
        vec![0, 15, 11, 0, 6, 0],
        vec![0, 0, 0, 6, 0, 9],
        vec![14, 0, 2, 0, 9, 0],
    ]);
    assert_eq!(g.get_dijkstra_path(0, 4), Ok(VecDeque::from(vec![0, 2, 5, 4])));
    assert_eq!(g.get_dijkstra_path(0, 3), Ok(VecDeque::from(vec![0, 2, 3])));
    assert_eq!(g.get_dijkstra_path(3, 3), Ok(VecDeque::from(vec![3])));
}

#[test]
fn dijkstra_follows_directed_edges() {
    let g = square(vec![vec![0, 1, 0], vec![0, 0, 1], vec![1, 0, 0]]);
    assert_eq!(g.get_dijkstra_path(0, 2), Ok(VecDeque::from(vec![0, 1, 2])));
    assert_eq!(g.get_dijkstra_path(2, 1), Ok(VecDeque::from(vec![2, 0, 1])));
}

#[test]
fn dijkstra_returns_the_destination_alone_when_it_cannot_be_reached() {
    let g = square(vec![vec![0, 1, 0], vec![1, 0, 0], vec![0, 0, 0]]);
    assert_eq!(g.get_dijkstra_path(0, 2), Ok(VecDeque::from(vec![2])));
}

#[test]
fn dijkstra_rejects_bad_input() {
    let g = square(vec![vec![0, 1], vec![1, 0]]);
    assert_eq!(g.get_dijkstra_path(0, 2), Err(GraphError::OutOfRange));
    assert_eq!(g.get_dijkstra_path(5, 0), Err(GraphError::OutOfRange));
    let ragged = Graph::from(vec![0usize, 1], vec![vec![0, 1], vec![1]]);
    assert_eq!(ragged.get_dijkstra_path(0, 1), Err(GraphError::NotSquare));
}

#[test]
fn dijkstra_handles_weights_near_the_largest() {
    let big = u64::MAX;
    let g = square(vec![vec![0, big, 0], vec![0, 0, big], vec![0, 0, 0]]);
    assert_eq!(g.get_dijkstra_path(0, 2), Ok(VecDeque::from(vec![0, 1, 2])));
}

#[test]
fn dijkstra_cost_equals_the_cheapest_simple_path() {
    let graphs = vec![
        vec![
            vec![0, 4, 1, 0, 0],
            vec![4, 0, 2, 5, 0],
            vec![1, 2, 0, 8, 10],
            vec![0, 5, 8, 0, 2],
            vec![0, 0, 10, 2, 0],
        ],
        vec![
            vec![0, 3, 0, 7, 0, 0],
            vec![0, 0, 1, 0, 0, 9],
            vec![2, 0, 0, 1, 6, 0],
            vec![0, 0, 0, 0, 2, 0],
            vec![1, 0, 0, 0, 0, 1],
            vec![0, 0, 0, 0, 0, 0],
        ],
    ];
    for m in graphs {
        let g = square(m.clone());
        for src in 0..m.len() {
            for dst in 0..m.len() {
                let mut seen = vec![false; m.len()];
                seen[src] = true;
                let expected = cheapest_simple_path(&m, src, dst, &mut seen);
                let path: Vec<usize> = g.get_dijkstra_path(src, dst).unwrap().into_iter().collect();
                match expected {
                    Some(cost) => {
                        assert_eq!(path[0], src);
                        assert_eq!(path[path.len() - 1], dst);
                        assert_eq!(path_cost(&m, &path), cost);
                    }
                    None => assert_eq!(path, vec![dst]),
                }
            }
        }
    }
}

#[test]
fn dijkstra_keeps_the_path_found_first_among_equals() {
    let g = square(vec![
        vec![0, 1, 1, 0],
        vec![0, 0, 0, 1],
        vec![0, 0, 0, 1],
        vec![0, 0, 0, 0],
    ]);
    assert_eq!(g.get_dijkstra_path(0, 3), Ok(VecDeque::from(vec![0, 1, 3])));
}

#[test]
fn dijkstra_prefers_many_light_edges_to_one_heavy_edge() {
    let g = square(vec![
        vec![0, 1, 0, 0, 10],
        vec![0, 0, 2, 0, 0],
        vec![0, 0, 0, 3, 0],
        vec![0, 0, 0, 0, 3],
        vec![0, 0, 0, 0, 0],
    ]);
    assert_eq!(g.get_dijkstra_path(0, 4), Ok(VecDeque::from(vec![0, 1, 2, 3, 4])));
    let h = square(vec![
        vec![0, 1, 0, 0, 8],
        vec![0, 0, 2, 0, 0],
        vec![0, 0, 0, 3, 0],
        vec![0, 0, 0, 0, 3],
        vec![0, 0, 0, 0, 0],
    ]);
    assert_eq!(h.get_dijkstra_path(0, 4), Ok(VecDeque::from(vec![0, 4])));
}

#[test]
fn dijkstra_reaches_a_vertex_from_the_nearest_of_its_best_predecessors() {
    // 3 is reached for 3 through 1, at distance 1, and through 2, at distance 2
    let g = square(vec![
        vec![0, 1, 2, 0],
        vec![0, 0, 0, 2],
        vec![0, 0, 0, 1],
        vec![0, 0, 0, 0],
    ]);
    assert_eq!(g.get_dijkstra_path(0, 3), Ok(VecDeque::from(vec![0, 1, 3])));
    // now through 2, at distance 1, and through 1, at distance 2
    let h = square(vec![
        vec![0, 2, 1, 0],
        vec![0, 0, 0, 1],
        vec![0, 0, 0, 2],
        vec![0, 0, 0, 0],
    ]);
    assert_eq!(h.get_dijkstra_path(0, 3), Ok(VecDeque::from(vec![0, 2, 3])));
}
