use tsp_rs::error::GraphError;
use tsp_rs::graph::Graph;

fn square(rows: Vec<Vec<u64>>) -> Graph<usize> {
    let labels: Vec<usize> = (0..rows.len()).collect();
    Graph::from(labels, rows)
}

fn k4() -> Graph<usize> {
    square(vec![vec![0, 1, 4, 3], vec![1, 0, 2, 5], vec![4, 2, 0, 6], vec![3, 5, 6, 0]])
}

#[test]
fn route_cost_adds_the_closing_edge() {
    let g = k4();
    assert_eq!(g.get_route_cost(&vec![0, 1, 2, 3]), Ok(1 + 2 + 6 + 3));
    assert_eq!(g.get_route_cost(&vec![0, 2, 1, 3]), Ok(4 + 2 + 5 + 3));
    assert_eq!(g.get_route_cost(&vec![2]), Ok(0));
    assert_eq!(g.get_route_cost(&vec![]), Ok(0));
}

#[test]
fn route_cost_follows_the_direction_of_edges() {
    let g = square(vec![vec![0, 1, 10], vec![20, 0, 2], vec![3, 30, 0]]);
    assert_eq!(g.get_route_cost(&vec![0, 1, 2]), Ok(6));
    assert_eq!(g.get_route_cost(&vec![2, 1, 0]), Ok(60));
}

#[test]
fn route_cost_rejects_bad_input() {
    let g = k4();
    assert_eq!(g.get_route_cost(&vec![0, 4, 1]), Err(GraphError::OutOfRange));
    let ragged = Graph::from(vec![0usize, 1], vec![vec![0, 1], vec![1]]);
    assert_eq!(ragged.get_route_cost(&vec![0, 1]), Err(GraphError::NotSquare));
}

#[test]
fn route_cost_2_agrees_with_route_cost() {
    let g = k4();
    let route: Vec<usize> = vec![3, 1, 0, 2];
    let refs: Vec<&usize> = route.iter().collect();
    assert_eq!(g.get_route_cost_2(&refs), g.get_route_cost(&route));
    assert_eq!(g.get_route_cost_2(&refs), Ok(5 + 1 + 4 + 6));
    let far: usize = 9;
    assert_eq!(g.get_route_cost_2(&vec![&far]), Err(GraphError::OutOfRange));
}

#[test]
fn route_cost_is_the_same_for_every_starting_point() {
    let g = square(vec![vec![0, 1, 10], vec![20, 0, 2], vec![3, 30, 0]]);
    let route = vec![0usize, 2, 1];
    let cost = g.get_route_cost(&route);
    for k in 0..route.len() {
        let mut turned = route[k..].to_vec();
        turned.extend_from_slice(&route[..k]);
        assert_eq!(g.get_route_cost(&turned), cost);
    }
}

#[test]
fn route_cost_is_the_same_backwards_on_symmetric_graphs() {
    let g = k4();
    let route = vec![2usize, 0, 3, 1];
    let mut back = route.clone();
    back.reverse();
    assert_eq!(g.get_route_cost(&back), g.get_route_cost(&route));
}

#[test]
fn costs_fit_unless_a_weight_is_too_large() {
    assert!(k4().costs_fit());
    let empty: Graph<usize> = Graph::new();
    assert!(empty.costs_fit());
    let big = u64::MAX;
    assert!(square(vec![vec![big]]).costs_fit());
    assert!(!square(vec![vec![0, big], vec![1, 0]]).costs_fit());
    assert!(square(vec![vec![0, big / 2], vec![1, 0]]).costs_fit());
    assert!(!square(vec![vec![0, big / 2 + 1], vec![1, 0]]).costs_fit());
    let ragged = Graph::from(vec![0usize, 1], vec![vec![0, 1], vec![1]]);
    assert!(!ragged.costs_fit());
}

#[test]
fn try_route_cost_tells_when_the_cost_is_too_large() {
    let big = u64::MAX;
    let g = square(vec![vec![0, big], vec![1, 0]]);
    assert_eq!(g.try_route_cost(&vec![0, 1]), Ok(None));
    assert_eq!(g.try_route_cost(&vec![0]), Ok(Some(0)));
    let h = square(vec![vec![0, big - 1], vec![1, 0]]);
    assert_eq!(h.try_route_cost(&vec![0, 1]), Ok(Some(big)));
    assert_eq!(h.get_route_cost(&vec![1, 0]), Ok(big));
    assert_eq!(k4().try_route_cost(&vec![0, 1, 2, 3]), Ok(Some(12)));
    assert_eq!(k4().try_route_cost(&vec![0, 7]), Err(GraphError::OutOfRange));
}
