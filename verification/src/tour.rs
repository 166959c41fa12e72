use vstd::prelude::*;
use vstd::set_lib::{lemma_int_range, lemma_subset_equality, set_int_range};
use crate::error::GraphError;
use crate::graph::Graph;
use crate::perms::{arrangements, is_arrangement, next_arrangement, pending};
use crate::graph::{is_square, matrix_view};
use crate::route::{in_range, is_tour, lemma_route_cost_rotation, link, rotated, route_cost};

verus! {

/// The vertices `from..n` in ascending order.
pub open spec fn ascending(from: nat, n: nat) -> Seq<usize> {
    Seq::new((n - from) as nat, |i: int| (from + i) as usize)
}

/// A tour through `0..n` visits every one of these vertices.
pub proof fn lemma_tour_visits_all(r: Seq<usize>, n: nat)
    requires
        is_tour(r, n),
    ensures
        forall|v: usize| v < n ==> #[trigger] r.contains(v),
{
    let s = Seq::new(r.len(), |i: int| r[i] as int);
    assert(s.no_duplicates()) by {
        assert forall|i: int, j: int| 0 <= i < s.len() && 0 <= j < s.len() && i != j implies s[i]
            != s[j] by {
            assert(r[i] != r[j]);
        }
    }
    s.unique_seq_to_set();
    lemma_int_range(0, n as int);
    assert(s.to_set().subset_of(set_int_range(0, n as int))) by {
        assert forall|x: int| s.to_set().contains(x) implies set_int_range(0, n as int).contains(
            x,
        ) by {
            let i = choose|i: int| 0 <= i < s.len() && s[i] == x;
            assert(r[i] < n);
        }
    }
    vstd::seq_lib::seq_to_set_is_finite(s);
    lemma_subset_equality(s.to_set(), set_int_range(0, n as int));
    assert forall|v: usize| v < n implies #[trigger] r.contains(v) by {
        assert(set_int_range(0, n as int).contains(v as int));
        assert(s.to_set().contains(v as int));
        let i = choose|i: int| 0 <= i < s.len() && s[i] == v as int;
        assert(r[i] == v);
    }
}

/// A tour started at another of its vertices is a tour.
pub proof fn lemma_rotated_tour(r: Seq<usize>, n: nat, k: int)
    requires
        is_tour(r, n),
        0 <= k < r.len(),
    ensures
        is_tour(rotated(r, k), n),
        rotated(r, k)[0] == r[k],
{
    let t = rotated(r, k);
    let len = r.len() as int;
    assert forall|i: int| 0 <= i < t.len() implies #[trigger] t[i] == r[if i < len - k {
        i + k
    } else {
        i - (len - k)
    }] by {}
    assert forall|i: int| 0 <= i < t.len() implies #[trigger] t[i] < n by {}
    assert forall|i: int, j: int| 0 <= i < t.len() && 0 <= j < t.len() && i != j implies t[i]
        != t[j] by {}
}

impl<V> Graph<V> {
    /// Whether `route` is a tour through all vertices that costs `cost`,
    /// and no tour costs less.
    pub open spec fn is_cheapest_tour(&self, route: Seq<usize>, cost: u64) -> bool {
        &&& is_tour(route, self.order())
        &&& cost == self.cost_of(route)
        &&& forall|r: Seq<usize>| is_tour(r, self.order()) ==> cost <= #[trigger] self.cost_of(r)
    }

    /// A cheapest tour through all vertices, found by trying every order of
    /// the vertices after vertex 0, and its cost. The orders are made one at
    /// a time, so the search needs little memory, but their number grows
    /// with the factorial of the number of vertices: beyond some eleven
    /// vertices the search takes too long to be of use.
    pub fn tsp_brute_force(&self) -> (r: Result<(Vec<usize>, u64), GraphError>)
        requires
            self.squared() ==> self.tours_fit(),
        ensures
            !self.squared() ==> r == Err::<(Vec<usize>, u64), GraphError>(GraphError::NotSquare),
            self.squared() ==> r is Ok && self.is_cheapest_tour(r->Ok_0.0@, r->Ok_0.1),
            self.squared() && self.order() > 0 ==> r->Ok_0.0@[0] == 0,
    {
        if !self.is_squared() {
            return Err(GraphError::NotSquare);
        }
        let n: usize = self.num_vertices();
        let first: Vec<usize> = count_up(0, n);
        if n == 0 {
            assert forall|r: Seq<usize>| is_tour(r, 0) implies 0 <= #[trigger] self.cost_of(r) by {}
            return Ok((first, 0));
        }
        let ghost w = self.weights();
        let mut best_route: Vec<usize> = first;
        let mut best_cost: u64 = match self.get_route_cost(&best_route) {
            Ok(c) => c,
            Err(e) => { return Err(e); },
        };
        let rest: Vec<usize> = count_up(1, n);
        let mut perms = arrangements(rest, n - 1);
        let ghost all = pending(perms);
        let ghost mut done: int = 0;
        loop
            invariant
                n == self.order(),
                n > 0,
                self.squared(),
                self.tours_fit(),
                w == self.weights(),
                0 <= done <= all.len(),
                pending(perms) == all.skip(done),
                forall|i: int|
                    0 <= i < all.len() ==> is_arrangement(
                        ascending(1, n as nat),
                        (n - 1) as nat,
                        #[trigger] all[i],
                    ),
                is_tour(best_route@, n as nat),
                best_route@[0] == 0,
                best_cost == route_cost(w, best_route@),
                forall|i: int|
                    0 <= i < done ==> best_cost <= route_cost(w, seq![0usize] + #[trigger] all[i]),
            ensures
                done == all.len(),
            decreases pending(perms).len(),
        {
            let tail = match next_arrangement(&mut perms) {
                Some(t) => t,
                None => { break ; },
            };
            proof {
                assert(tail@ == all[done]);
                assert(all.skip(done).drop_first() =~= all.skip(done + 1));
                lemma_anchored_tour(tail@, n as nat);
            }
            let mut candidate: Vec<usize> = Vec::new();
            candidate.push(0);
            let mut tail = tail;
            candidate.append(&mut tail);
            assert(candidate@ =~= seq![0usize] + all[done]);
            assert(self.cost_of(candidate@) <= u64::MAX);
            let cost: u64 = match self.get_route_cost(&candidate) {
                Ok(c) => c,
                Err(e) => { return Err(e); },
            };
            if cost < best_cost {
                best_cost = cost;
                best_route = candidate;
            }
            proof {
                done = done + 1;
            }
        }
        proof {
            assert forall|r: Seq<usize>| is_tour(r, n as nat) implies best_cost
                <= #[trigger] self.cost_of(r) by {
                lemma_tour_visits_all(r, n as nat);
                assert(r.contains(0usize));
                let k = choose|k: int| 0 <= k < r.len() && r[k] == 0usize;
                let t = rotated(r, k);
                lemma_rotated_tour(r, n as nat, k);
                lemma_route_cost_rotation(w, r, k);
                let tail = t.skip(1);
                assert(is_arrangement(ascending(1, n as nat), (n - 1) as nat, tail)) by {
                    assert forall|i: int| 0 <= i < tail.len() implies ascending(
                        1,
                        n as nat,
                    ).contains(#[trigger] tail[i]) by {
                        assert(tail[i] == t[i + 1]);
                        assert(t[i + 1] != t[0]);
                        assert(t[i + 1] < n);
                        assert(ascending(1, n as nat)[t[i + 1] - 1] == t[i + 1]);
                    }
                }
                assert(all.contains(tail));
                let i = choose|i: int| 0 <= i < all.len() && all[i] == tail;
                assert(seq![0usize] + all[i] =~= t);
            }
        }
        Ok((best_route, best_cost))
    }
}

/// The route `r` with the vertices at the places `i..j` in opposite order.
pub open spec fn with_reversed(r: Seq<usize>, i: int, j: int) -> Seq<usize> {
    Seq::new(
        r.len(),
        |k: int|
            if i <= k < j {
                r[i + j - 1 - k]
            } else {
                r[k]
            },
    )
}

/// A tour with a part of it reversed is a tour.
pub proof fn lemma_reversed_tour(r: Seq<usize>, n: nat, i: int, j: int)
    requires
        is_tour(r, n),
        0 <= i <= j <= r.len(),
    ensures
        is_tour(with_reversed(r, i, j), n),
{
    let t = with_reversed(r, i, j);
    assert forall|k: int| 0 <= k < t.len() implies #[trigger] t[k] < n by {
        if i <= k < j {
            assert(t[k] == r[i + j - 1 - k]);
        }
    }
    assert forall|a: int, b: int| 0 <= a < t.len() && 0 <= b < t.len() && a != b implies t[a]
        != t[b] by {
        let a2 = if i <= a < j {
            i + j - 1 - a
        } else {
            a
        };
        let b2 = if i <= b < j {
            i + j - 1 - b
        } else {
            b
        };
        assert(t[a] == r[a2] && t[b] == r[b2] && a2 != b2);
    }
}

/// When fewer than `n` of the vertices `0..n` have been visited, one of
/// them has not.
pub proof fn lemma_some_vertex_left(r: Seq<usize>, n: nat)
    requires
        r.no_duplicates(),
        in_range(r, n),
        r.len() < n,
        n <= usize::MAX,
    ensures
        exists|v: usize| v < n && !r.contains(v),
{
    if forall|v: usize| v < n ==> r.contains(v) {
        let s = Seq::new(r.len(), |i: int| r[i] as int);
        assert(s.no_duplicates()) by {
            assert forall|i: int, j: int|
                0 <= i < s.len() && 0 <= j < s.len() && i != j implies s[i] != s[j] by {
                assert(r[i] != r[j]);
            }
        }
        s.unique_seq_to_set();
        lemma_int_range(0, n as int);
        vstd::seq_lib::seq_to_set_is_finite(s);
        assert(set_int_range(0, n as int).subset_of(s.to_set())) by {
            assert forall|x: int| set_int_range(0, n as int).contains(x) implies s.to_set().contains(
                x,
            ) by {
                assert(r.contains(x as usize));
                let i = choose|i: int| 0 <= i < r.len() && r[i] == x as usize;
                assert(s[i] == x);
            }
        }
        vstd::set_lib::lemma_len_subset(set_int_range(0, n as int), s.to_set());
    }
}

/// Whether the vertex at place `k` of `r` is, of the vertices that `r` has
/// not visited before, the one nearest to the vertex at place `k - 1`, and
/// of several equally near ones the one with the lowest index.
pub open spec fn is_nearest_step(w: Seq<Seq<u64>>, r: Seq<usize>, k: int) -> bool {
    forall|v: usize|
        v < w.len() && !r.take(k).contains(v) ==> link(w, r[k - 1], r[k]) < #[trigger] link(
            w,
            r[k - 1],
            v,
        ) || (link(w, r[k - 1], r[k]) == link(w, r[k - 1], v) && r[k] <= v)
}

/// Whether the reversal of the places `i..j` is the move that a pass of the
/// search makes on `r`: it makes `r` cheaper, no reversal makes it cheaper
/// still, and none that comes before in the order of `(i, j)` makes it as
/// cheap.
pub open spec fn is_best_move(w: Seq<Seq<u64>>, r: Seq<usize>, i: int, j: int) -> bool {
    &&& 0 <= i < j <= r.len()
    &&& route_cost(w, with_reversed(r, i, j)) < route_cost(w, r)
    &&& forall|a: int, b: int|
        0 <= a < b <= r.len() ==> route_cost(w, with_reversed(r, i, j)) <= #[trigger] route_cost(
            w,
            with_reversed(r, a, b),
        )
    &&& forall|a: int, b: int|
        0 <= a < b <= r.len() && (a < i || (a == i && b < j)) ==> route_cost(
            w,
            with_reversed(r, i, j),
        ) < #[trigger] route_cost(w, with_reversed(r, a, b))
}

/// Whether a pass of the search turns `r` into `next`.
pub open spec fn follows(w: Seq<Seq<u64>>, r: Seq<usize>, next: Seq<usize>) -> bool {
    exists|i: int, j: int| #[trigger] is_best_move(w, r, i, j) && next == with_reversed(r, i, j)
}

/// Whether `run` holds the routes of a search, pass by pass.
pub open spec fn is_two_opt_run(w: Seq<Seq<u64>>, run: Seq<Seq<usize>>) -> bool {
    &&& run.len() > 0
    &&& forall|k: int| 0 <= k < run.len() - 1 ==> #[trigger] follows(w, run[k], run[k + 1])
}

impl<V> Graph<V> {
    /// Whether `route` is a tour that no reversal of one of its parts makes
    /// cheaper.
    pub open spec fn is_two_opt_tour(&self, route: Seq<usize>) -> bool {
        &&& is_tour(route, self.order())
        &&& forall|i: int, j: int|
            0 <= i < j <= route.len() ==> self.cost_of(route) <= #[trigger] self.cost_of(
                with_reversed(route, i, j),
            )
    }

    /// A tour that no reversal of one of its parts makes cheaper, and its
    /// cost. The search starts at the tour `0, 1, ..`; each pass tries every
    /// reversal of the present tour and applies the cheapest of them, the
    /// first such in the order of `(i, j)`, if it is cheaper than the tour.
    pub fn tsp_2_opt_approx(&self) -> (r: Result<(Vec<usize>, u64), GraphError>)
        requires
            self.squared() ==> self.tours_fit(),
        ensures
            !self.squared() ==> r == Err::<(Vec<usize>, u64), GraphError>(GraphError::NotSquare),
            self.squared() ==> r is Ok && self.is_two_opt_tour(r->Ok_0.0@) && r->Ok_0.1
                == self.cost_of(r->Ok_0.0@) && r->Ok_0.1 <= self.cost_of(
                ascending(0, self.order()),
            ),
            self.squared() && !self.is_two_opt_tour(ascending(0, self.order())) ==> r->Ok_0.1
                < self.cost_of(ascending(0, self.order())),
            self.squared() ==> exists|run: Seq<Seq<usize>>| #[trigger]
                is_two_opt_run(self.weights(), run) && run[0] == ascending(0, self.order())
                    && run.last() == r->Ok_0.0@,
    {
        if !self.is_squared() {
            return Err(GraphError::NotSquare);
        }
        let n: usize = self.num_vertices();
        let ghost w = self.weights();
        let ghost start = ascending(0, n as nat);
        let mut route: Vec<usize> = count_up(0, n);
        assert(is_tour(route@, n as nat));
        let mut cost: u64 = match self.get_route_cost(&route) {
            Ok(c) => c,
            Err(e) => { return Err(e); },
        };
        let ghost mut run: Seq<Seq<usize>> = seq![route@];
        loop
            invariant
                n == self.order(),
                self.squared(),
                self.tours_fit(),
                w == self.weights(),
                start == ascending(0, n as nat),
                is_tour(route@, n as nat),
                cost == route_cost(w, route@),
                cost <= route_cost(w, start),
                cost < route_cost(w, start) || route@ == start,
                is_two_opt_run(w, run),
                run[0] == start,
                run.last() == route@,
            ensures
                self.is_two_opt_tour(route@),
                is_two_opt_run(w, run),
                run[0] == start,
                run.last() == route@,
            decreases cost,
        {
            let mut found: Option<Vec<usize>> = None;
            let mut found_cost: u64 = cost;
            let ghost mut at: (int, int) = (0, 0);
            let mut i: usize = 0;
            while i < n
                invariant
                    i <= n,
                    n == self.order(),
                    self.squared(),
                    self.tours_fit(),
                    w == self.weights(),
                    is_tour(route@, n as nat),
                    cost == route_cost(w, route@),
                    found_cost <= cost,
                    found is None ==> found_cost == cost,
                    found is Some ==> found_cost < cost && is_tour(found->Some_0@, n as nat)
                        && found_cost == route_cost(w, found->Some_0@),
                    found is Some ==> 0 <= at.0 < at.1 <= n && found->Some_0@ == with_reversed(
                        route@,
                        at.0,
                        at.1,
                    ) && forall|a: int, b: int|
                        0 <= a < b <= n && (a < at.0 || (a == at.0 && b < at.1)) ==> found_cost
                            < #[trigger] route_cost(w, with_reversed(route@, a, b)),
                    found is Some ==> at.0 < i,
                    forall|a: int, b: int|
                        0 <= a < i && a < b <= n ==> found_cost <= #[trigger] route_cost(
                            w,
                            with_reversed(route@, a, b),
                        ),
                decreases n - i,
            {
                let mut e: usize = i;
                while e < n
                    invariant
                        i <= e <= n,
                        n == self.order(),
                        self.squared(),
                        self.tours_fit(),
                        w == self.weights(),
                        is_tour(route@, n as nat),
                        cost == route_cost(w, route@),
                        found_cost <= cost,
                        found is None ==> found_cost == cost,
                        found is Some ==> found_cost < cost && is_tour(found->Some_0@, n as nat)
                            && found_cost == route_cost(w, found->Some_0@),
                        found is Some ==> 0 <= at.0 < at.1 <= n && found->Some_0@
                            == with_reversed(route@, at.0, at.1) && forall|a: int, b: int|
                            0 <= a < b <= n && (a < at.0 || (a == at.0 && b < at.1))
                                ==> found_cost < #[trigger] route_cost(
                                w,
                                with_reversed(route@, a, b),
                            ),
                        found is Some ==> at.0 < i || (at.0 == i && at.1 <= e),
                        forall|a: int, b: int|
                            0 <= a < i && a < b <= n ==> found_cost <= #[trigger] route_cost(
                                w,
                                with_reversed(route@, a, b),
                            ),
                        forall|b: int|
                            i < b <= e ==> found_cost <= #[trigger] route_cost(
                                w,
                                with_reversed(route@, i as int, b),
                            ),
                    decreases n - e,
                {
                    let j: usize = e + 1;
                    let candidate = reverse_segment(&route, i, j);
                    proof {
                        lemma_reversed_tour(route@, n as nat, i as int, j as int);
                        assert(self.cost_of(candidate@) <= u64::MAX);
                    }
                    let c: u64 = match self.get_route_cost(&candidate) {
                        Ok(c) => c,
                        Err(e) => { return Err(e); },
                    };
                    if c < found_cost {
                        found_cost = c;
                        found = Some(candidate);
                        proof {
                            at = (i as int, j as int);
                        }
                    }
                    e += 1;
                }
                i += 1;
            }
            match found {
                Some(better) => {
                    proof {
                        assert(is_best_move(w, route@, at.0, at.1));
                        assert(follows(w, route@, better@));
                        let longer = run.push(better@);
                        assert forall|k: int| 0 <= k < longer.len() - 1 implies #[trigger] follows(
                            w,
                            longer[k],
                            longer[k + 1],
                        ) by {
                            if k < run.len() - 1 {
                                assert(follows(w, run[k], run[k + 1]));
                            }
                        }
                        run = longer;
                    }
                    route = better;
                    cost = found_cost;
                },
                None => {
                    assert forall|a: int, b: int| 0 <= a < b <= route@.len() implies self.cost_of(
                        route@,
                    ) <= #[trigger] self.cost_of(with_reversed(route@, a, b)) by {
                        assert(found_cost <= route_cost(w, with_reversed(route@, a, b)));
                    }
                    break ;
                },
            }
        }
        Ok((route, cost))
    }

    /// No tour costs less than a cheapest tour: neither one that no
    /// reversal makes cheaper, nor any other.
    pub proof fn lemma_cheapest_is_lower_bound(
        &self,
        cheapest: Seq<usize>,
        cost: u64,
        other: Seq<usize>,
    )
        requires
            self.is_cheapest_tour(cheapest, cost),
            self.is_two_opt_tour(other) || is_tour(other, self.order()),
        ensures
            cost <= self.cost_of(other),
    {
    }

    /// Whether `route` is the tour that starts at vertex 0 and goes on, each
    /// time, to the nearest vertex not yet visited.
    pub open spec fn is_greedy_tour(&self, route: Seq<usize>) -> bool {
        &&& is_tour(route, self.order())
        &&& self.order() > 0 ==> route[0] == 0
        &&& forall|k: int| 1 <= k < route.len() ==> is_nearest_step(self.weights(), route, k)
    }

    /// The tour that starts at vertex 0 and goes on, each time, to the
    /// vertex not yet visited whose cell in the row of the present vertex is
    /// smallest, the one with the lowest index among equals.
    pub fn tsp_nearest_neighbor_greedy(&self) -> (r: Result<Vec<usize>, GraphError>)
        ensures
            !self.squared() ==> r == Err::<Vec<usize>, GraphError>(GraphError::NotSquare),
            self.squared() ==> r is Ok && self.is_greedy_tour(r->Ok_0@),
    {
        if !self.is_squared() {
            return Err(GraphError::NotSquare);
        }
        let n: usize = self.num_vertices();
        let m = self.get_adjacency_matrix();
        let ghost w = self.weights();
        let mut route: Vec<usize> = Vec::new();
        if n == 0 {
            return Ok(route);
        }
        let mut visited: Vec<bool> = vec![false; n];
        route.push(0);
        visited[0] = true;
        let mut current: usize = 0;
        assert forall|v: usize| v < n implies visited[v as int] == route@.contains(v) by {
            if v == 0 {
                assert(route@[0] == 0);
            }
        }
        while route.len() < n
            invariant
                n == self.order(),
                n > 0,
                w == self.weights(),
                w == matrix_view(m@),
                is_square(w, n as nat),
                visited.len() == n,
                1 <= route.len() <= n,
                route@[0] == 0,
                current == route@.last(),
                in_range(route@, n as nat),
                route@.no_duplicates(),
                forall|v: usize| v < n ==> visited[v as int] == route@.contains(v),
                forall|k: int| 1 <= k < route.len() ==> is_nearest_step(w, route@, k),
            decreases n - route.len(),
        {
            let mut next: Option<usize> = None;
            let mut j: usize = 0;
            assert(w[current as int].len() == n);
            while j < n
                invariant
                    j <= n,
                    current < n,
                    w == matrix_view(m@),
                    is_square(w, n as nat),
                    visited.len() == n,
                    w[current as int].len() == n,
                    next is None ==> forall|v: usize| v < j ==> visited[v as int],
                    next is Some ==> next->Some_0 < j && !visited[next->Some_0 as int]
                        && forall|v: usize|
                        v < j && !visited[v as int] ==> link(w, current, next->Some_0) < #[trigger] link(
                            w,
                            current,
                            v,
                        ) || (link(w, current, next->Some_0) == link(w, current, v)
                            && next->Some_0 <= v),
                decreases n - j,
            {
                if !visited[j] {
                    match next {
                        None => {
                            next = Some(j);
                        },
                        Some(b) => {
                            if m[current][j] < m[current][b] {
                                next = Some(j);
                            }
                        },
                    }
                }
                j += 1;
            }
            proof {
                lemma_some_vertex_left(route@, n as nat);
            }
            match next {
                Some(b) => {
                    let ghost before = route@;
                    route.push(b);
                    visited[b] = true;
                    current = b;
                    proof {
                        let after = route@;
                        assert forall|v: usize| v < n implies visited[v as int] == after.contains(
                            v,
                        ) by {
                            if v == b {
                                assert(after[after.len() - 1] == b);
                            } else if before.contains(v) {
                                let i = choose|i: int| 0 <= i < before.len() && before[i] == v;
                                assert(after[i] == v);
                            } else if after.contains(v) {
                                let i = choose|i: int| 0 <= i < after.len() && after[i] == v;
                                assert(before[i] == v);
                            }
                        }
                        assert forall|k: int| 1 <= k < after.len() implies is_nearest_step(
                            w,
                            after,
                            k,
                        ) by {
                            if k < before.len() {
                                assert(is_nearest_step(w, before, k));
                                assert(after.take(k) =~= before.take(k));
                            } else {
                                assert(after.take(k) =~= before);
                            }
                        }
                    }
                },
                None => {
                    return vstd::pervasive::unreached();
                },
            }
        }
        Ok(route)
    }
}

/// The route `route` with the vertices at the places `i..j` in opposite
/// order.
pub fn reverse_segment(route: &Vec<usize>, i: usize, j: usize) -> (out: Vec<usize>)
    requires
        i <= j <= route.len(),
    ensures
        out@ == with_reversed(route@, i as int, j as int),
{
    let mut out: Vec<usize> = Vec::new();
    let mut k: usize = 0;
    while k < route.len()
        invariant
            k <= route.len(),
            i <= j <= route.len(),
            out.len() == k,
            forall|a: int|
                0 <= a < k ==> #[trigger] out[a] == with_reversed(route@, i as int, j as int)[a],
        decreases route.len() - k,
    {
        if i <= k && k < j {
            out.push(route[i + (j - 1 - k)]);
        } else {
            out.push(route[k]);
        }
        k += 1;
    }
    assert(out@ =~= with_reversed(route@, i as int, j as int));
    out
}

/// Vertex 0 followed by an arrangement of all other vertices is a tour.
pub proof fn lemma_anchored_tour(tail: Seq<usize>, n: nat)
    requires
        n > 0,
        n <= usize::MAX,
        is_arrangement(ascending(1, n), (n - 1) as nat, tail),
    ensures
        is_tour(seq![0usize] + tail, n),
{
    let t = seq![0usize] + tail;
    assert forall|i: int| 0 <= i < tail.len() implies 1 <= #[trigger] tail[i] < n by {
        let j = choose|j: int| 0 <= j < ascending(1, n).len() && ascending(1, n)[j] == tail[i];
    }
    assert forall|i: int| 0 <= i < t.len() implies #[trigger] t[i] < n by {
        if i > 0 {
            assert(t[i] == tail[i - 1]);
        }
    }
    assert forall|i: int, j: int| 0 <= i < t.len() && 0 <= j < t.len() && i != j implies t[i]
        != t[j] by {
        if i > 0 {
            assert(t[i] == tail[i - 1]);
        }
        if j > 0 {
            assert(t[j] == tail[j - 1]);
        }
    }
}

/// The vertices `from..n` in ascending order.
pub fn count_up(from: usize, n: usize) -> (v: Vec<usize>)
    requires
        from <= n,
    ensures
        v@ == ascending(from as nat, n as nat),
        v@.no_duplicates(),
{
    let mut v: Vec<usize> = Vec::new();
    let mut i: usize = from;
    while i < n
        invariant
            from <= i <= n,
            v@ == ascending(from as nat, i as nat),
        decreases n - i,
    {
        v.push(i);
        assert(v@ =~= ascending(from as nat, (i + 1) as nat));
        i += 1;
    }
    v
}

} // verus!
