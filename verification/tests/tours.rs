use tsp_rs::error::GraphError;
use tsp_rs::graph::Graph;
use tsp_rs::matching::Matching;

fn square(rows: Vec<Vec<u64>>) -> Graph<usize> {
    let labels: Vec<usize> = (0..rows.len()).collect();
    Graph::from(labels, rows)
}

fn k4() -> Graph<usize> {
    square(vec![vec![0, 1, 4, 3], vec![1, 0, 2, 5], vec![4, 2, 0, 6], vec![3, 5, 6, 0]])
}

fn crossed() -> Graph<usize> {
    // four corners of a square, numbered so that 0 1 2 3 crosses itself
    square(vec![vec![0, 10, 14, 10], vec![10, 0, 10, 14], vec![14, 10, 0, 10], vec![10, 14, 10, 0]])
}

fn is_tour(route: &Vec<usize>, n: usize) -> bool {
    let mut seen = vec![false; n];
    for &v in route {
        if v >= n || seen[v] {
            return false;
        }
        seen[v] = true;
    }
    route.len() == n
}

fn all_tours(n: usize) -> Vec<Vec<usize>> {
    fn extend(prefix: &mut Vec<usize>, n: usize, out: &mut Vec<Vec<usize>>) {
        if prefix.len() == n {
            out.push(prefix.clone());
            return;
        }
        for v in 0..n {
            if !prefix.contains(&v) {
                prefix.push(v);
                extend(prefix, n, out);
                prefix.pop();
            }
        }
    }
    let mut out = Vec::new();
    extend(&mut Vec::new(), n, &mut out);
    out
}

#[test]
fn brute_force_finds_the_cheapest_tour() {
    let g = k4();
    let (route, cost) = g.tsp_brute_force().unwrap();
    // the three tours cost 1+2+6+3, 1+5+6+4 and 4+2+5+3
    assert_eq!(cost, 12);
    assert_eq!(route, vec![0, 1, 2, 3]);
    assert_eq!(g.get_route_cost(&route), Ok(cost));
    for tour in all_tours(4) {
        assert!(g.get_route_cost(&tour).unwrap() >= cost);
    }
}

#[test]
fn brute_force_tries_more_than_the_first_order() {
    let g = crossed();
    let (route, cost) = g.tsp_brute_force().unwrap();
    assert_eq!(cost, 40);
    assert!(is_tour(&route, 4));
    assert_eq!(route[0], 0);
    assert_eq!(g.get_route_cost(&vec![0, 2, 1, 3]), Ok(48));
    let h = square(vec![vec![0, 9, 1, 9], vec![9, 0, 9, 1], vec![1, 9, 0, 9], vec![9, 1, 9, 0]]);
    let (route, cost) = h.tsp_brute_force().unwrap();
    assert_eq!(cost, 20);
    assert_eq!(h.get_route_cost(&route), Ok(20));
    assert_ne!(route, vec![0, 1, 2, 3]);
    for tour in all_tours(4) {
        assert!(h.get_route_cost(&tour).unwrap() >= cost);
    }
}

#[test]
fn brute_force_on_an_asymmetric_graph() {
    let g = square(vec![vec![0, 1, 50], vec![50, 0, 1], vec![1, 50, 0]]);
    assert_eq!(g.tsp_brute_force(), Ok((vec![0, 1, 2], 3)));
    let h = square(vec![vec![0, 50, 1], vec![1, 0, 50], vec![50, 1, 0]]);
    assert_eq!(h.tsp_brute_force(), Ok((vec![0, 2, 1], 3)));
}

#[test]
fn brute_force_on_tiny_graphs() {
    let empty: Graph<usize> = Graph::new();
    assert_eq!(empty.tsp_brute_force(), Ok((vec![], 0)));
    let one = square(vec![vec![0]]);
    assert_eq!(one.tsp_brute_force(), Ok((vec![0], 0)));
    let two = square(vec![vec![0, 3], vec![4, 0]]);
    assert_eq!(two.tsp_brute_force(), Ok((vec![0, 1], 7)));
}

#[test]
fn tours_need_a_square_matrix() {
    let ragged = Graph::from(vec![0usize, 1], vec![vec![0, 1], vec![1]]);
    assert_eq!(ragged.tsp_brute_force(), Err(GraphError::NotSquare));
    assert_eq!(ragged.tsp_2_opt_approx(), Err(GraphError::NotSquare));
    assert_eq!(ragged.tsp_nearest_neighbor_greedy(), Err(GraphError::NotSquare));
    assert_eq!(ragged.tsp_christofides_approx(Matching::Exact), Err(GraphError::NotSquare));
}

#[test]
fn two_opt_uncrosses_the_tour() {
    let g = square(vec![vec![0, 14, 10, 10], vec![14, 0, 10, 10], vec![10, 10, 0, 14], vec![10, 10, 14, 0]]);
    assert_eq!(g.get_route_cost(&vec![0, 1, 2, 3]), Ok(48));
    let (route, cost) = g.tsp_2_opt_approx().unwrap();
    assert_eq!(cost, 40);
    assert!(is_tour(&route, 4));
    assert_eq!(g.get_route_cost(&route), Ok(40));
    let (_, best) = g.tsp_brute_force().unwrap();
    assert!(cost >= best);
    assert!(cost < 48);
}

#[test]
fn two_opt_keeps_a_tour_that_cannot_be_improved() {
    let g = k4();
    assert_eq!(g.tsp_2_opt_approx(), Ok((vec![0, 1, 2, 3], 12)));
    let empty: Graph<usize> = Graph::new();
    assert_eq!(empty.tsp_2_opt_approx(), Ok((vec![], 0)));
}

#[test]
fn two_opt_result_is_no_worse_after_any_reversal() {
    let g = square(vec![
        vec![0, 12, 3, 9, 7],
        vec![12, 0, 8, 2, 11],
        vec![3, 8, 0, 6, 4],
        vec![9, 2, 6, 0, 5],
        vec![7, 11, 4, 5, 0],
    ]);
    let (route, cost) = g.tsp_2_opt_approx().unwrap();
    assert!(is_tour(&route, 5));
    assert_eq!(g.get_route_cost(&route), Ok(cost));
    assert!(cost <= g.get_route_cost(&vec![0, 1, 2, 3, 4]).unwrap());
    for i in 0..5 {
        for j in i + 1..=5 {
            let mut other = route.clone();
            other[i..j].reverse();
            assert!(g.get_route_cost(&other).unwrap() >= cost);
        }
    }
    let (_, best) = g.tsp_brute_force().unwrap();
    assert!(cost >= best);
}

#[test]
fn nearest_neighbour_goes_to_the_closest_vertex_each_time() {
    let g = k4();
    // from 0 the nearest is 1, from 1 it is 2, and 3 is left
    assert_eq!(g.tsp_nearest_neighbor_greedy(), Ok(vec![0, 1, 2, 3]));
    let h = square(vec![vec![0, 9, 2, 5], vec![9, 0, 4, 1], vec![2, 4, 0, 7], vec![5, 1, 7, 0]]);
    assert_eq!(h.tsp_nearest_neighbor_greedy(), Ok(vec![0, 2, 1, 3]));
}

#[test]
fn nearest_neighbour_prefers_the_lower_index_among_equals() {
    let g = square(vec![vec![0, 5, 5, 5], vec![5, 0, 5, 5], vec![5, 5, 0, 5], vec![5, 5, 5, 0]]);
    assert_eq!(g.tsp_nearest_neighbor_greedy(), Ok(vec![0, 1, 2, 3]));
    let empty: Graph<usize> = Graph::new();
    assert_eq!(empty.tsp_nearest_neighbor_greedy(), Ok(vec![]));
}

#[test]
fn christofides_returns_a_tour_on_a_complete_graph() {
    let g = square(vec![
        vec![0, 12, 3, 9, 7],
        vec![12, 0, 8, 2, 11],
        vec![3, 8, 0, 6, 4],
        vec![9, 2, 6, 0, 5],
        vec![7, 11, 4, 5, 0],
    ]);
    for mode in [Matching::Exact, Matching::Greedy] {
        let route = g.tsp_christofides_approx(mode).unwrap();
        assert!(is_tour(&route, 5));
        assert_eq!(route[0], 0);
    }
    assert_eq!(k4().tsp_christofides_approx(Matching::Exact), Ok(vec![0, 1, 2, 3]));
}

#[test]
fn christofides_stays_within_one_and_a_half_of_the_best_on_a_metric_graph() {
    // distances between points on a line at 0, 1, 3, 6 and 10
    let at = [0u64, 1, 3, 6, 10];
    let rows: Vec<Vec<u64>> = at.iter().map(|a| at.iter().map(|b| a.abs_diff(*b)).collect()).collect();
    let g = square(rows);
    let (_, best) = g.tsp_brute_force().unwrap();
    assert_eq!(best, 20);
    let route = g.tsp_christofides_approx(Matching::Exact).unwrap();
    let cost = g.get_route_cost(&route).unwrap();
    assert!(2 * cost <= 3 * best);
}

#[test]
fn christofides_on_tiny_graphs() {
    let empty: Graph<usize> = Graph::new();
    assert_eq!(empty.tsp_christofides_approx(Matching::Exact), Ok(vec![]));
    let one = square(vec![vec![0]]);
    assert_eq!(one.tsp_christofides_approx(Matching::Greedy), Ok(vec![0]));
    let two = square(vec![vec![0, 3], vec![3, 0]]);
    assert_eq!(two.tsp_christofides_approx(Matching::Exact), Ok(vec![0, 1]));
}

#[test]
fn christofides_rejects_graphs_it_cannot_handle() {
    let directed = square(vec![vec![0, 1], vec![2, 0]]);
    assert_eq!(directed.tsp_christofides_approx(Matching::Exact), Err(GraphError::NotSymmetric));
    let parts = square(vec![vec![0, 3, 0, 0], vec![3, 0, 0, 0], vec![0, 0, 0, 8], vec![0, 0, 8, 0]]);
    assert_eq!(parts.tsp_christofides_approx(Matching::Exact), Err(GraphError::Disconnected));
    // a path: the ends are of odd degree and have no edge between them
    let path = square(vec![vec![0, 1, 0], vec![1, 0, 1], vec![0, 1, 0]]);
    assert_eq!(path.tsp_christofides_approx(Matching::Exact), Err(GraphError::Disconnected));
}

#[test]
fn tree_and_matching_together_have_even_degrees() {
    let g = square(vec![
        vec![0, 12, 3, 9, 7],
        vec![12, 0, 8, 2, 11],
        vec![3, 8, 0, 6, 4],
        vec![9, 2, 6, 0, 5],
        vec![7, 11, 4, 5, 0],
    ]);
    let tree = g.get_mst_prim().unwrap();
    let odd = tree.get_odd_degree_vertices().unwrap();
    assert_eq!(odd.len() % 2, 0);
    let pairs = g.perfect_matching(&odd, Matching::Exact).unwrap();
    let t = tree.get_adjacency_matrix();
    let p = pairs.get_adjacency_matrix();
    for v in 0..5 {
        let mut degree = 0;
        for u in 0..5 {
            if t[v][u] > 0 {
                degree += 1;
            }
            if p[v][u] > 0 {
                degree += 1;
            }
        }
        assert_eq!(degree % 2, 0);
    }
}

fn cost(m: &Vec<Vec<u64>>, route: &Vec<usize>) -> u64 {
    let mut sum = 0;
    for k in 0..route.len() {
        sum += m[route[k]][route[(k + 1) % route.len()]];
    }
    sum
}

fn two_opt_by_hand(m: &Vec<Vec<u64>>) -> Vec<usize> {
    let n = m.len();
    let mut route: Vec<usize> = (0..n).collect();
    loop {
        let mut best = cost(m, &route);
        let mut next: Option<Vec<usize>> = None;
        for i in 0..n {
            for j in i + 1..=n {
                let mut other = route.clone();
                other[i..j].reverse();
                if cost(m, &other) < best {
                    best = cost(m, &other);
                    next = Some(other);
                }
            }
        }
        match next {
            Some(better) => route = better,
            None => return route,
        }
    }
}

#[test]
fn two_opt_applies_the_best_reversal_of_each_pass() {
    let mut state: u64 = 99;
    for n in 2..7 {
        for _ in 0..20 {
            let mut rows = vec![vec![0u64; n]; n];
            for i in 0..n {
                for j in 0..n {
                    if i != j {
                        state = state.wrapping_mul(6364136223846793005).wrapping_add(1442695040888963407);
                        rows[i][j] = 1 + (state >> 40) % 9;
                    }
                }
            }
            let expected = two_opt_by_hand(&rows);
            let g = square(rows.clone());
            let (route, total) = g.tsp_2_opt_approx().unwrap();
            assert_eq!(route, expected);
            assert_eq!(total, cost(&rows, &expected));
        }
    }
}

#[test]
fn brute_force_agrees_with_a_search_by_hand() {
    let mut state: u64 = 7;
    for n in 1..7 {
        for _ in 0..10 {
            let mut rows = vec![vec![0u64; n]; n];
            for i in 0..n {
                for j in 0..n {
                    if i != j {
                        state = state.wrapping_mul(6364136223846793005).wrapping_add(1442695040888963407);
                        rows[i][j] = 1 + (state >> 40) % 50;
                    }
                }
            }
            let least = all_tours(n).iter().map(|t| cost(&rows, t)).min().unwrap();
            let g = square(rows.clone());
            let (route, total) = g.tsp_brute_force().unwrap();
            assert_eq!(total, least);
            assert_eq!(cost(&rows, &route), least);
            assert!(is_tour(&route, n));
            let (_, near) = g.tsp_2_opt_approx().unwrap();
            assert!(near >= least);
        }
    }
}
