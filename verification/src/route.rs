use vstd::prelude::*;
use crate::error::GraphError;
use crate::graph::{is_mirrored, is_square, matrix_view, Graph};

verus! {

/// The weight of the step from `a` to `b`.
pub open spec fn link(w: Seq<Seq<u64>>, a: usize, b: usize) -> int {
    w[a as int][b as int] as int
}

/// The sum of the weights of the steps along `p`.
pub open spec fn path_cost(w: Seq<Seq<u64>>, p: Seq<usize>) -> int
    decreases p.len(),
{
    if p.len() <= 1 {
        0
    } else {
        path_cost(w, p.drop_last()) + link(w, p[p.len() - 2], p[p.len() - 1])
    }
}

/// The cost of `r` as a closed route: the cost of the path along `r` and of
/// the step from its last vertex back to its first.
pub open spec fn route_cost(w: Seq<Seq<u64>>, r: Seq<usize>) -> int {
    if r.len() == 0 {
        0
    } else {
        path_cost(w, r) + link(w, r.last(), r[0])
    }
}

/// Whether every entry of `r` is below `n`.
pub open spec fn in_range(r: Seq<usize>, n: nat) -> bool {
    forall|k: int| 0 <= k < r.len() ==> #[trigger] r[k] < n
}

/// Whether `r` visits each of the vertices `0..n` exactly once.
pub open spec fn is_tour(r: Seq<usize>, n: nat) -> bool {
    r.len() == n && in_range(r, n) && r.no_duplicates()
}

/// `r` started `k` places later, the first `k` vertices moved to the end.
pub open spec fn rotated(r: Seq<usize>, k: int) -> Seq<usize> {
    r.subrange(k, r.len() as int) + r.subrange(0, k)
}

/// The cost of a path made of two paths is the cost of both and of the step
/// that joins them.
pub proof fn lemma_path_cost_concat(w: Seq<Seq<u64>>, a: Seq<usize>, b: Seq<usize>)
    requires
        a.len() > 0,
        b.len() > 0,
    ensures
        path_cost(w, a + b) == path_cost(w, a) + link(w, a.last(), b[0]) + path_cost(w, b),
    decreases b.len(),
{
    let ab = a + b;
    if b.len() == 1 {
        assert(ab.drop_last() =~= a);
    } else {
        assert(ab.drop_last() =~= a + b.drop_last());
        lemma_path_cost_concat(w, a, b.drop_last());
    }
}

/// The cost of a path never drops when the path is made longer.
pub proof fn lemma_path_cost_prefix(w: Seq<Seq<u64>>, p: Seq<usize>, k: int)
    requires
        0 <= k <= p.len(),
    ensures
        0 <= path_cost(w, p.take(k)) <= path_cost(w, p),
    decreases p.len() - k,
{
    if k == p.len() {
        assert(p.take(k) =~= p);
        lemma_path_cost_nonnegative(w, p);
    } else {
        lemma_path_cost_prefix(w, p, k + 1);
        assert(p.take(k + 1).drop_last() =~= p.take(k));
        lemma_path_cost_nonnegative(w, p.take(k));
    }
}

/// A path costs at least nothing.
pub proof fn lemma_path_cost_nonnegative(w: Seq<Seq<u64>>, p: Seq<usize>)
    ensures
        0 <= path_cost(w, p),
    decreases p.len(),
{
    if p.len() > 1 {
        lemma_path_cost_nonnegative(w, p.drop_last());
    }
}

/// Starting a closed route at another of its vertices does not change its
/// cost.
pub proof fn lemma_route_cost_rotation(w: Seq<Seq<u64>>, r: Seq<usize>, k: int)
    requires
        0 <= k <= r.len(),
    ensures
        route_cost(w, rotated(r, k)) == route_cost(w, r),
{
    let a = r.subrange(0, k);
    let b = r.subrange(k, r.len() as int);
    if k == 0 || k == r.len() {
        assert(rotated(r, k) =~= r);
    } else {
        assert(a + b =~= r);
        lemma_path_cost_concat(w, a, b);
        lemma_path_cost_concat(w, b, a);
    }
}

/// On a matrix equal to its transpose a path costs the same in both
/// directions.
pub proof fn lemma_path_cost_reverse(w: Seq<Seq<u64>>, p: Seq<usize>)
    requires
        is_mirrored(w),
        in_range(p, w.len()),
    ensures
        path_cost(w, p.reverse()) == path_cost(w, p),
    decreases p.len(),
{
    if p.len() <= 1 {
        assert(p.reverse().len() == p.len());
    } else {
        let front = p.drop_last();
        let last = seq![p.last()];
        assert(p.reverse() =~= last + front.reverse());
        lemma_path_cost_reverse(w, front);
        lemma_path_cost_concat(w, last, front.reverse());
        assert(front.reverse()[0] == front.last());
        assert(path_cost(w, last) == 0);
        assert(p[p.len() - 2] < w.len() && p[p.len() - 1] < w.len());
    }
}

/// On a matrix equal to its transpose a closed route costs the same when it
/// is walked backwards.
pub proof fn lemma_route_cost_reflection(w: Seq<Seq<u64>>, r: Seq<usize>)
    requires
        is_mirrored(w),
        in_range(r, w.len()),
    ensures
        route_cost(w, r.reverse()) == route_cost(w, r),
{
    if r.len() > 0 {
        lemma_path_cost_reverse(w, r);
        assert(r.reverse().last() == r[0]);
        assert(r.reverse()[0] == r.last());
        assert(r[0] < w.len() && r[r.len() - 1] < w.len());
    }
}

impl<V> Graph<V> {
    /// The cost of `r` as a closed route through this graph.
    pub open spec fn cost_of(&self, r: Seq<usize>) -> int {
        route_cost(self.weights(), r)
    }

    /// Whether the cost of every tour through all vertices fits the type in
    /// which costs are returned.
    pub open spec fn tours_fit(&self) -> bool {
        forall|r: Seq<usize>| is_tour(r, self.order()) ==> #[trigger] self.cost_of(r) <= u64::MAX
    }

    /// Whether the graph is square and every weight, taken once for each
    /// vertex, fits the type in which costs are returned.
    pub open spec fn weights_bounded(&self) -> bool {
        &&& self.squared()
        &&& forall|i: int, j: int|
            0 <= i < self.order() && 0 <= j < self.order() ==> (#[trigger] self.weights()[i][j])
                * self.order() <= u64::MAX
    }

    /// Whether the graph is square and every weight, taken once for each
    /// vertex, fits the type in which costs are returned. Where that holds,
    /// so does the cost of every tour.
    pub fn costs_fit(&self) -> (b: bool)
        ensures
            b == self.weights_bounded(),
            b ==> self.tours_fit(),
    {
        if !self.is_squared() {
            return false;
        }
        let n: usize = self.num_vertices();
        let m = self.get_adjacency_matrix();
        let ghost w = self.weights();
        let mut i: usize = 0;
        while i < n
            invariant
                i <= n,
                n == self.order(),
                w == self.weights(),
                w == matrix_view(m@),
                is_square(w, n as nat),
                forall|a: int, b: int|
                    0 <= a < i && 0 <= b < n ==> (#[trigger] w[a][b]) * n <= u64::MAX,
            decreases n - i,
        {
            let mut j: usize = 0;
            assert(w[i as int].len() == n);
            while j < n
                invariant
                    i < n,
                    j <= n,
                    n == self.order(),
                    w == self.weights(),
                    w == matrix_view(m@),
                    is_square(w, n as nat),
                    w[i as int].len() == n,
                    forall|a: int, b: int|
                        0 <= a < i && 0 <= b < n ==> (#[trigger] w[a][b]) * n <= u64::MAX,
                    forall|b: int| 0 <= b < j ==> (#[trigger] w[i as int][b]) * n <= u64::MAX,
                decreases n - j,
            {
                let x: u64 = m[i][j];
                assert(x * n <= u128::MAX) by (nonlinear_arith)
                    requires
                        0 <= x <= 0xffff_ffff_ffff_ffff,
                        0 <= n <= 0xffff_ffff_ffff_ffff,
                ;
                if x as u128 * n as u128 > u64::MAX as u128 {
                    return false;
                }
                j += 1;
            }
            i += 1;
        }
        proof {
            assert forall|r: Seq<usize>| is_tour(r, self.order()) implies #[trigger] self.cost_of(r)
                <= u64::MAX by {
                lemma_bounded_route_cost(w, r);
            }
        }
        true
    }

    /// The cost of the closed route that visits `route` in order and returns
    /// to its first vertex, in a type that holds the cost of any route.
    pub fn wide_route_cost(&self, route: &Vec<usize>) -> (r: Result<u128, GraphError>)
        ensures
            !self.squared() ==> r == Err::<u128, GraphError>(GraphError::NotSquare),
            self.squared() && !in_range(route@, self.order()) ==> r == Err::<u128, GraphError>(
                GraphError::OutOfRange,
            ),
            self.squared() && in_range(route@, self.order()) ==> r is Ok && r->Ok_0
                == self.cost_of(route@),
    {
        if !self.is_squared() {
            return Err(GraphError::NotSquare);
        }
        let n: usize = self.num_vertices();
        let len: usize = route.len();
        let mut k: usize = 0;
        while k < len
            invariant
                k <= len,
                len == route.len(),
                n == self.order(),
                self.squared(),
                forall|i: int| 0 <= i < k ==> #[trigger] route[i] < n,
            decreases len - k,
        {
            if route[k] >= n {
                return Err(GraphError::OutOfRange);
            }
            k += 1;
        }
        if len == 0 {
            return Ok(0);
        }
        let m = self.get_adjacency_matrix();
        let ghost w = self.weights();
        let mut cost: u128 = 0;
        let mut i: usize = 1;
        while i < len
            invariant
                1 <= i <= len,
                len == route.len(),
                n == self.order(),
                in_range(route@, n as nat),
                is_square(w, n as nat),
                w == matrix_view(m@),
                cost == path_cost(w, route@.take(i as int)),
            decreases len - i,
        {
            proof {
                crate::walks::lemma_path_cost_bound(w, route@.take(i as int));
                lemma_steps_fit(i as int);
                assert(route@.take(i + 1).drop_last() =~= route@.take(i as int));
                assert(w[route[i - 1] as int].len() == n);
            }
            cost = cost + m[route[i - 1]][route[i]] as u128;
            i += 1;
        }
        proof {
            assert(route@.take(len as int) =~= route@);
            assert(w[route[len - 1] as int].len() == n);
            crate::walks::lemma_path_cost_bound(w, route@);
            lemma_steps_fit(len as int);
        }
        cost = cost + m[route[len - 1]][route[0]] as u128;
        Ok(cost)
    }

    /// The cost of the closed route that visits `route` in order and returns
    /// to its first vertex, or `None` where the cost does not fit the type
    /// in which costs are returned. An empty route costs nothing.
    pub fn try_route_cost(&self, route: &Vec<usize>) -> (r: Result<Option<u64>, GraphError>)
        ensures
            !self.squared() ==> r == Err::<Option<u64>, GraphError>(GraphError::NotSquare),
            self.squared() && !in_range(route@, self.order()) ==> r == Err::<
                Option<u64>,
                GraphError,
            >(GraphError::OutOfRange),
            self.squared() && in_range(route@, self.order()) ==> r is Ok && (match r->Ok_0 {
                Some(cost) => cost == self.cost_of(route@),
                None => self.cost_of(route@) > u64::MAX,
            }),
    {
        match self.wide_route_cost(route) {
            Ok(cost) => if cost > u64::MAX as u128 {
                Ok(None)
            } else {
                Ok(Some(cost as u64))
            },
            Err(e) => Err(e),
        }
    }

    /// The cost of the closed route that visits `route` in order and returns
    /// to its first vertex. An empty route costs nothing.
    pub fn get_route_cost(&self, route: &Vec<usize>) -> (r: Result<u64, GraphError>)
        requires
            self.squared() && in_range(route@, self.order()) ==> self.cost_of(route@) <= u64::MAX,
        ensures
            !self.squared() ==> r == Err::<u64, GraphError>(GraphError::NotSquare),
            self.squared() && !in_range(route@, self.order()) ==> r == Err::<u64, GraphError>(
                GraphError::OutOfRange,
            ),
            self.squared() && in_range(route@, self.order()) ==> r is Ok && r->Ok_0
                == self.cost_of(route@),
    {
        match self.wide_route_cost(route) {
            Ok(cost) => Ok(cost as u64),
            Err(e) => Err(e),
        }
    }

    /// The cost of the closed route that visits the vertices that `route`
    /// refers to, in order, and returns to the first.
    pub fn get_route_cost_2(&self, route: &Vec<&usize>) -> (r: Result<u64, GraphError>)
        requires
            self.squared() && in_range(pointed(route@), self.order()) ==> self.cost_of(
                pointed(route@),
            ) <= u64::MAX,
        ensures
            !self.squared() ==> r == Err::<u64, GraphError>(GraphError::NotSquare),
            self.squared() && !in_range(pointed(route@), self.order()) ==> r == Err::<
                u64,
                GraphError,
            >(GraphError::OutOfRange),
            self.squared() && in_range(pointed(route@), self.order()) ==> r is Ok && r->Ok_0
                == self.cost_of(pointed(route@)),
    {
        let mut plain: Vec<usize> = Vec::new();
        let mut k: usize = 0;
        while k < route.len()
            invariant
                k <= route.len(),
                plain@ == pointed(route@).take(k as int),
            decreases route.len() - k,
        {
            plain.push(*route[k]);
            assert(plain@ =~= pointed(route@).take(k + 1));
            k += 1;
        }
        assert(plain@ =~= pointed(route@));
        self.get_route_cost(&plain)
    }
}

/// Where every weight, taken once for each vertex, stays within a bound,
/// so does the cost of a route that is no longer than there are vertices.
pub proof fn lemma_bounded_route_cost(w: Seq<Seq<u64>>, r: Seq<usize>)
    requires
        in_range(r, w.len()),
        r.len() <= w.len(),
        forall|i: int, j: int|
            0 <= i < w.len() && 0 <= j < w.len() ==> (#[trigger] w[i][j]) * w.len() <= u64::MAX,
    ensures
        route_cost(w, r) <= u64::MAX,
{
    if r.len() > 0 {
        let n = w.len() as int;
        let top = u64::MAX as int;
        lemma_bounded_path_cost(w, r, r.len() as int);
        assert(r.take(r.len() as int) =~= r);
        let x = link(w, r.last(), r[0]);
        assert(x == w[r.last() as int][r[0] as int]);
        assert(x * n <= top);
        assert(path_cost(w, r) * n <= (r.len() - 1) * top);
        assert(route_cost(w, r) * n <= r.len() * top) by (nonlinear_arith)
            requires
                route_cost(w, r) == path_cost(w, r) + x,
                x * n <= top,
                path_cost(w, r) * n <= (r.len() - 1) * top,
        ;
        assert(route_cost(w, r) <= top) by (nonlinear_arith)
            requires
                route_cost(w, r) * n <= r.len() * top,
                0 < r.len() <= n,
                top >= 0,
        ;
    }
}

/// Where every weight, taken `n` times, stays within a bound, a path of `k`
/// steps, taken `n` times, stays within `k` times the bound.
pub proof fn lemma_bounded_path_cost(w: Seq<Seq<u64>>, r: Seq<usize>, k: int)
    requires
        in_range(r, w.len()),
        1 <= k <= r.len(),
        forall|i: int, j: int|
            0 <= i < w.len() && 0 <= j < w.len() ==> (#[trigger] w[i][j]) * w.len() <= u64::MAX,
    ensures
        path_cost(w, r.take(k)) * w.len() <= (k - 1) * u64::MAX,
    decreases k,
{
    if k > 1 {
        lemma_bounded_path_cost(w, r, k - 1);
        let p = r.take(k);
        assert(p.drop_last() =~= r.take(k - 1));
        let x = link(w, p[p.len() - 2], p[p.len() - 1]);
        assert(x == w[r[k - 2] as int][r[k - 1] as int]);
        let n = w.len() as int;
        let top = u64::MAX as int;
        assert(x * n <= top);
        assert((path_cost(w, r.take(k - 1)) + x) * n <= (k - 1) * top) by (nonlinear_arith)
            requires
                path_cost(w, r.take(k - 1)) * n <= (k - 2) * top,
                x * n <= top,
        ;
    }
}

/// The cost of as many steps as a vector can hold, and of one more, fits
/// 128 bits.
pub proof fn lemma_steps_fit(steps: int)
    requires
        1 <= steps <= usize::MAX,
    ensures
        (steps - 1) * u64::MAX + u64::MAX <= u128::MAX,
{
    assert((steps - 1) * u64::MAX + u64::MAX <= u128::MAX) by (nonlinear_arith)
        requires
            1 <= steps <= 0xffff_ffff_ffff_ffff,
    ;
}

/// The vertices that the entries of `r` refer to.
pub open spec fn pointed(r: Seq<&usize>) -> Seq<usize> {
    Seq::new(r.len(), |k: int| *r[k])
}

} // verus!
