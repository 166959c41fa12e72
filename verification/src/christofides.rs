use vstd::prelude::*;
use crate::error::GraphError;
use crate::euler::{all_even, cross_degree, euler_walk};
use crate::graph::{is_mirrored, is_square, matrix_view, Graph};
use crate::marks::{filled, lemma_set_count_positive, lemma_unset_count_clear, set_count};
use crate::matching::{
    can_match, degree, greedy_pairing, is_complete, is_matching, lemma_add_pair,
    lemma_empty_matching, lightest_pairing, mark_members, odd_rows, odd_vertices, positive_count,
    Matching,
};
use crate::metric::{first_visits, is_metric, lemma_half_more, picked};
use crate::prim::spanning_tree;
use crate::route::{in_range, is_tour, route_cost};
use crate::spanning::{
    includes, is_min_spanning, is_subgraph, lemma_edge_reachable, lemma_reachable_grows,
    lemma_reachable_self, row_sum,
};
use crate::tour::lemma_some_vertex_left;
use crate::walks::{connected, lemma_distinct_len, reachable};

verus! {

/// Which vertices of `t` an odd number of edges meet at.
pub open spec fn odd_marks(t: Seq<Seq<u64>>) -> Seq<bool> {
    Seq::new(t.len(), |v: int| degree(t, v) % 2 == 1)
}

/// The multigraph that holds the edges of `t` and the edges of `f`, an edge
/// of both twice.
pub open spec fn joined(t: Seq<Seq<u64>>, f: Seq<Seq<u64>>) -> Seq<Seq<u64>> {
    Seq::new(
        t.len(),
        |i: int|
            Seq::new(
                t.len(),
                |j: int|
                    ((if t[i][j] > 0 {
                        1int
                    } else {
                        0int
                    }) + (if f[i][j] > 0 {
                        1int
                    } else {
                        0int
                    })) as u64,
            ),
    )
}

/// The number of positive entries in the first `c` columns of the first
/// `r` rows.
pub open spec fn block_count(t: Seq<Seq<u64>>, r: int, c: int) -> int
    decreases r,
{
    if r <= 0 {
        0
    } else {
        block_count(t, r - 1, c) + positive_count(t[r - 1], c)
    }
}

/// The number of positive entries in the first `r` rows of column `c`.
pub open spec fn column_count(t: Seq<Seq<u64>>, c: int, r: int) -> int
    decreases r,
{
    if r <= 0 {
        0
    } else {
        column_count(t, c, r - 1) + if t[r - 1][c] > 0 {
            1int
        } else {
            0int
        }
    }
}

/// One more column adds the positive entries of that column.
pub proof fn lemma_block_widen(t: Seq<Seq<u64>>, r: int, c: int)
    requires
        0 <= r,
        0 <= c,
    ensures
        block_count(t, r, c + 1) == block_count(t, r, c) + column_count(t, c, r),
    decreases r,
{
    if r > 0 {
        lemma_block_widen(t, r - 1, c);
    }
}

/// In an undirected graph a column holds what the row of the same index
/// holds.
pub proof fn lemma_column_is_row(t: Seq<Seq<u64>>, c: int, r: int)
    requires
        is_mirrored(t),
        0 <= c < t.len(),
        0 <= r <= t.len(),
    ensures
        column_count(t, c, r) == positive_count(t[c], r),
    decreases r,
{
    if r > 0 {
        lemma_column_is_row(t, c, r - 1);
        assert(t[r - 1][c] == t[c][r - 1]);
    }
}

/// In an undirected graph without loops the edge ends are even in number.
pub proof fn lemma_block_even(t: Seq<Seq<u64>>, i: int)
    requires
        is_mirrored(t),
        0 <= i <= t.len(),
        forall|v: int| 0 <= v < t.len() ==> (#[trigger] t[v])[v] == 0,
    ensures
        block_count(t, i, i) % 2 == 0,
    decreases i,
{
    if i > 0 {
        lemma_block_even(t, i - 1);
        lemma_block_widen(t, i - 1, i - 1);
        lemma_column_is_row(t, i - 1, i - 1);
        assert(t[i - 1][i - 1] == 0);
    }
}

/// The vertices at which an odd number of edges meet are odd in number
/// exactly where the edge ends are.
pub proof fn lemma_odd_marks_parity(t: Seq<Seq<u64>>, n: nat, k: int)
    requires
        is_square(t, n),
        0 <= k <= n,
    ensures
        set_count(odd_marks(t).take(k)) % 2 == block_count(t, k, n as int) % 2,
        0 <= set_count(odd_marks(t).take(k)),
    decreases k,
{
    let marks = odd_marks(t);
    if k > 0 {
        lemma_odd_marks_parity(t, n, k - 1);
        assert(marks.take(k).drop_last() =~= marks.take(k - 1));
        assert(t[k - 1].len() == n);
        assert(marks.take(k).last() == (degree(t, k - 1) % 2 == 1));
    }
}

/// The handshake lemma: in an undirected graph without loops, the vertices
/// at which an odd number of edges meet are even in number.
pub proof fn lemma_handshake(t: Seq<Seq<u64>>)
    requires
        is_square(t, t.len()),
        is_mirrored(t),
        forall|v: int| 0 <= v < t.len() ==> (#[trigger] t[v])[v] == 0,
    ensures
        set_count(odd_marks(t)) % 2 == 0,
{
    lemma_block_even(t, t.len() as int);
    lemma_odd_marks_parity(t, t.len(), t.len() as int);
    assert(odd_marks(t).take(t.len() as int) =~= odd_marks(t));
}

/// The list of the vertices at which an odd number of edges meet names
/// exactly these vertices.
pub proof fn lemma_odd_members(t: Seq<Seq<u64>>, k: int)
    requires
        0 <= k <= t.len(),
        t.len() <= usize::MAX,
    ensures
        in_range(odd_vertices(t, k), k as nat),
        forall|v: int|
            0 <= v < t.len() ==> ((exists|i: int|
                0 <= i < odd_vertices(t, k).len() && odd_vertices(t, k)[i] == v) <==> v < k
                && degree(t, v) % 2 == 1),
    decreases k,
{
    if k > 0 {
        lemma_odd_members(t, k - 1);
        let now = odd_vertices(t, k);
        let was = odd_vertices(t, k - 1);
        assert forall|v: int| 0 <= v < t.len() implies ((exists|i: int|
            0 <= i < now.len() && now[i] == v) <==> v < k && degree(t, v) % 2 == 1) by {
            if v < k && degree(t, v) % 2 == 1 {
                if v == k - 1 {
                    assert(now[now.len() - 1] == v);
                } else {
                    let i = choose|i: int| 0 <= i < was.len() && was[i] == v;
                    assert(now[i] == v);
                }
            }
            if exists|i: int| 0 <= i < now.len() && now[i] == v {
                let i = choose|i: int| 0 <= i < now.len() && now[i] == v;
                if i < was.len() {
                    assert(was[i] == v);
                }
            }
        }
    }
}

/// The sum of a row of the multigraph of two graphs is the number of edges
/// of both at that vertex.
pub proof fn lemma_joined_row(t: Seq<Seq<u64>>, f: Seq<Seq<u64>>, v: int, k: int)
    requires
        is_square(t, t.len()),
        is_square(f, t.len()),
        0 <= v < t.len(),
        0 <= k <= t.len(),
    ensures
        row_sum(joined(t, f)[v], k) == positive_count(t[v], k) + positive_count(f[v], k),
    decreases k,
{
    if k > 0 {
        lemma_joined_row(t, f, v, k - 1);
    }
}

/// A spanning tree together with a perfect matching of the vertices at
/// which an odd number of its edges meet is a multigraph in which an even
/// number of edge ends meet at every vertex.
pub proof fn lemma_joined_even(w: Seq<Seq<u64>>, t: Seq<Seq<u64>>, f: Seq<Seq<u64>>)
    requires
        is_subgraph(t, w),
        is_matching(f, w, odd_marks(t)),
    ensures
        is_square(joined(t, f), w.len()),
        is_mirrored(joined(t, f)),
        all_even(joined(t, f)),
        includes(joined(t, f), t),
{
    let n = w.len();
    let g = joined(t, f);
    assert forall|i: int, j: int| 0 <= i < n && 0 <= j < n implies #[trigger] g[i][j]
        == #[trigger] g[j][i] by {
        assert(t[i][j] == t[j][i]);
        assert(f[i][j] == f[j][i]);
    }
    assert forall|v: int| 0 <= v < n implies #[trigger] cross_degree(g, v) % 2 == 0 by {
        lemma_joined_row(t, f, v, n as int);
        assert(t[v].len() == n && f[v].len() == n);
        assert(t[v][v] == 0 && f[v][v] == 0);
        assert(degree(f, v) == if odd_marks(t)[v] {
            1int
        } else {
            0int
        });
    }
}

/// On a complete graph any even number of vertices has a perfect matching.
pub proof fn lemma_complete_can_match(w: Seq<Seq<u64>>, marked: Seq<bool>)
    requires
        w.len() <= usize::MAX,
        is_square(w, w.len()),
        is_mirrored(w),
        is_complete(w),
        marked.len() == w.len(),
        set_count(marked) % 2 == 0,
    ensures
        can_match(w, marked),
    decreases set_count(marked),
{
    lemma_set_count_positive(marked);
    if set_count(marked) == 0 {
        lemma_empty_matching(w, marked);
    } else {
        let a = choose|k: int| 0 <= k < marked.len() && marked[k];
        let less = marked.update(a, false);
        lemma_unset_count_clear(marked, a);
        lemma_set_count_positive(less);
        let b = choose|k: int| 0 <= k < less.len() && less[k];
        let rest = less.update(b, false);
        lemma_unset_count_clear(less, b);
        lemma_set_count_positive(rest);
        lemma_complete_can_match(w, rest);
        let f = choose|f: Seq<Seq<u64>>| #[trigger] is_matching(f, w, rest);
        lemma_add_pair(w, f, marked, a as usize, b as usize);
    }
}

/// The multigraph that holds the edges of `t` and the edges of `f`.
pub fn join_rows(t: &Vec<Vec<u64>>, f: &Vec<Vec<u64>>) -> (out: Vec<Vec<u64>>)
    requires
        is_square(matrix_view(t@), t.len() as nat),
        is_square(matrix_view(f@), t.len() as nat),
    ensures
        matrix_view(out@) == joined(matrix_view(t@), matrix_view(f@)),
{
    let n: usize = t.len();
    let mut out: Vec<Vec<u64>> = Vec::new();
    let mut i: usize = 0;
    while i < n
        invariant
            i <= n,
            n == t.len(),
            n == f.len(),
            is_square(matrix_view(t@), n as nat),
            is_square(matrix_view(f@), n as nat),
            out.len() == i,
            forall|k: int|
                0 <= k < i ==> (#[trigger] out[k])@ == joined(matrix_view(t@), matrix_view(f@))[k],
        decreases n - i,
    {
        let mut row: Vec<u64> = Vec::new();
        let mut j: usize = 0;
        assert(matrix_view(t@)[i as int].len() == n);
        assert(matrix_view(f@)[i as int].len() == n);
        while j < n
            invariant
                i < n,
                j <= n,
                n == t.len(),
                n == f.len(),
                t[i as int].len() == n,
                f[i as int].len() == n,
                row.len() == j,
                forall|c: int|
                    0 <= c < j ==> #[trigger] row[c] == joined(
                        matrix_view(t@),
                        matrix_view(f@),
                    )[i as int][c],
            decreases n - j,
        {
            let x: u64 = if t[i][j] > 0 {
                1
            } else {
                0
            };
            let y: u64 = if f[i][j] > 0 {
                1
            } else {
                0
            };
            row.push(x + y);
            j += 1;
        }
        assert(row@ =~= joined(matrix_view(t@), matrix_view(f@))[i as int]);
        out.push(row);
        i += 1;
    }
    assert(matrix_view(out@) =~= joined(matrix_view(t@), matrix_view(f@)));
    out
}

/// The vertices of `walk` in the order in which the walk comes to them
/// first.
pub fn shortcut(walk: &Vec<usize>, n: usize) -> (route: Vec<usize>)
    requires
        in_range(walk@, n as nat),
    ensures
        route@ == picked(walk@, first_visits(walk@)),
        route@.no_duplicates(),
        in_range(route@, n as nat),
        forall|v: usize| route@.contains(v) <==> walk@.contains(v),
        walk.len() > 0 ==> route.len() > 0 && route@[0] == walk@[0],
{
    let mut seen: Vec<bool> = filled(false, n);
    let mut route: Vec<usize> = Vec::new();
    let mut k: usize = 0;
    assert(walk@.take(0).len() == 0);
    while k < walk.len()
        invariant
            k <= walk.len(),
            seen.len() == n,
            in_range(walk@, n as nat),
            in_range(route@, n as nat),
            route@.no_duplicates(),
            forall|v: usize| v < n ==> (seen[v as int] <==> route@.contains(v)),
            forall|v: usize| route@.contains(v) <==> walk@.take(k as int).contains(v),
            route@ == picked(walk@.take(k as int), first_visits(walk@)),
            k == 0 ==> route.len() == 0,
            k > 0 ==> route.len() > 0 && route@[0] == walk@[0],
        decreases walk.len() - k,
    {
        let v: usize = walk[k];
        let ghost before = route@;
        assert(walk@[k as int] < n);
        assert(k == 0 ==> !seen[v as int]);
        assert(walk@.take(k + 1).drop_last() =~= walk@.take(k as int));
        assert(first_visits(walk@)[k as int] == !seen[v as int]);
        if !seen[v] {
            seen[v] = true;
            route.push(v);
        }
        proof {
            let now = walk@.take(k + 1);
            let was = walk@.take(k as int);
            assert forall|u: usize| route@.contains(u) <==> now.contains(u) by {
                if route@.contains(u) {
                    if u == v {
                        assert(now[k as int] == v);
                    } else {
                        let i = choose|i: int| 0 <= i < route@.len() && route@[i] == u;
                        assert(before.contains(u)) by {
                            assert(before[i] == u);
                        }
                        let i2 = choose|i: int| 0 <= i < was.len() && was[i] == u;
                        assert(now[i2] == u);
                    }
                }
                if now.contains(u) {
                    let i = choose|i: int| 0 <= i < now.len() && now[i] == u;
                    if i < k {
                        assert(was[i] == u);
                        assert(before.contains(u));
                        let i2 = choose|i: int| 0 <= i < before.len() && before[i] == u;
                        assert(route@[i2] == u);
                    } else {
                        if before.contains(v) {
                            let i2 = choose|i: int| 0 <= i < before.len() && before[i] == v;
                            assert(route@[i2] == v);
                        } else {
                            assert(route@[route@.len() - 1] == v);
                        }
                    }
                }
            }
            assert forall|u: usize| u < n implies (seen[u as int] <==> route@.contains(u)) by {
                if before.contains(u) {
                    let i2 = choose|i: int| 0 <= i < before.len() && before[i] == u;
                    assert(route@[i2] == u);
                }
                if route@.contains(u) && u != v {
                    let i = choose|i: int| 0 <= i < route@.len() && route@[i] == u;
                    assert(before[i] == u);
                }
                if u == v && !before.contains(v) {
                    assert(route@[route@.len() - 1] == v);
                }
            }
            if k == 0 {
                assert(!before.contains(v));
            }
        }
        k += 1;
    }
    assert(walk@.take(walk.len() as int) =~= walk@);
    route
}

impl<V> Graph<V> {
    /// Whether `route` costs at most half as much again as any tour.
    pub open spec fn is_within_half_more(&self, route: Seq<usize>) -> bool {
        forall|r: Seq<usize>|
            is_tour(r, self.order()) ==> 2 * self.cost_of(route) <= 3 * #[trigger] self.cost_of(r)
    }

    /// A tour through all vertices built from a minimum spanning tree: the
    /// vertices at which an odd number of tree edges meet are matched in
    /// pairs, the tree and the matching together are walked along in one
    /// closed walk, and the tour visits the vertices in the order in which
    /// that walk first comes to them. On a complete undirected graph a
    /// tour is found with either way of matching. With a lightest matching,
    /// and where no vertex is farther from another than by way of a third,
    /// the tour costs at most half as much again as the cheapest tour. On a
    /// connected graph that is not complete the search fails where the
    /// vertices at which an odd number of edges of the tree meet have no
    /// perfect matching.
    pub fn tsp_christofides_approx(&self, mode: Matching) -> (r: Result<Vec<usize>, GraphError>)
        ensures
            !self.squared() ==> r == Err::<Vec<usize>, GraphError>(GraphError::NotSquare),
            self.squared() && !self.symmetric() ==> r == Err::<Vec<usize>, GraphError>(
                GraphError::NotSymmetric,
            ),
            self.symmetric() && r is Err ==> r == Err::<Vec<usize>, GraphError>(
                GraphError::Disconnected,
            ),
            self.symmetric() && !connected(self.weights()) ==> r is Err,
            self.symmetric() && is_complete(self.weights()) ==> r is Ok,
            r is Ok ==> is_tour(r->Ok_0@, self.order()) && (self.order() > 0 ==> r->Ok_0@[0] == 0),
            mode == Matching::Exact && self.symmetric() && is_complete(self.weights())
                && is_metric(self.weights()) ==> self.is_within_half_more(r->Ok_0@),
            mode == Matching::Exact && self.symmetric() && connected(self.weights())
                ==> exists|t: Seq<Seq<u64>>| #[trigger]
                is_min_spanning(t, self.weights()) && (r is Ok <==> can_match(
                    self.weights(),
                    odd_marks(t),
                )),
    {
        if !self.is_squared() {
            return Err(GraphError::NotSquare);
        }
        if !self.is_symmetric() {
            return Err(GraphError::NotSymmetric);
        }
        let n: usize = self.num_vertices();
        let m = self.get_adjacency_matrix();
        let ghost w = self.weights();
        proof {
            if is_complete(w) {
                lemma_complete_connected(w);
            }
        }
        let tree: Vec<Vec<u64>> = match spanning_tree(m) {
            Some(tree) => tree,
            None => { return Err(GraphError::Disconnected); },
        };
        let ghost t = matrix_view(tree@);
        let odd: Vec<usize> = odd_rows(&tree);
        proof {
            lemma_odd_members(t, n as int);
        }
        let (marks, _count) = mark_members(&odd, n);
        proof {
            assert(marks@ =~= odd_marks(t)) by {
                assert forall|v: int| 0 <= v < n implies marks@[v] == odd_marks(t)[v] by {}
            }
            lemma_handshake(t);
            if is_complete(w) {
                lemma_complete_can_match(w, marks@);
            }
        }
        let found: Option<Vec<Vec<u64>>> = match mode {
            Matching::Exact => {
                let mut free = marks;
                match lightest_pairing(m, &mut free) {
                    Some(pair) => Some(pair.0),
                    None => None,
                }
            },
            Matching::Greedy => greedy_pairing(m, &marks),
        };
        let pairs: Vec<Vec<u64>> = match found {
            Some(pairs) => pairs,
            None => {
                proof {
                    if mode == Matching::Exact {
                        assert(is_min_spanning(t, w) && !can_match(w, odd_marks(t)));
                    }
                }
                return Err(GraphError::Disconnected);
            },
        };
        let ghost f = matrix_view(pairs@);
        let both = join_rows(&tree, &pairs);
        proof {
            lemma_joined_even(w, t, f);
            let g = joined(t, f);
            assert forall|a: usize, b: usize| a < g.len() && b < g.len() implies #[trigger] reachable(
                g,
                a,
                b,
            ) by {
                assert(reachable(w, a, b));
                assert(reachable(t, a, b));
                lemma_reachable_grows(t, g, a, b);
            }
        }
        let walk: Vec<usize> = match euler_walk(&both) {
            Some(walk) => walk,
            None => { return vstd::pervasive::unreached(); },
        };
        let route = shortcut(&walk, n);
        proof {
            lemma_distinct_len(route@, n as nat);
            if route@.len() < n {
                lemma_some_vertex_left(route@, n as nat);
                let v = choose|v: usize| v < n && !route@.contains(v);
                assert(walk@.contains(v));
            }
            if mode == Matching::Exact {
                assert(is_min_spanning(t, w) && can_match(w, odd_marks(t)));
            }
            if mode == Matching::Exact && is_complete(w) && is_metric(w) {
                assert forall|r: Seq<usize>| is_tour(r, n as nat) implies 2 * route_cost(
                    w,
                    route@,
                ) <= 3 * #[trigger] route_cost(w, r) by {
                    lemma_half_more(w, t, f, walk@, r);
                }
            }
        }
        Ok(route)
    }
}

/// A complete graph is connected.
pub proof fn lemma_complete_connected(w: Seq<Seq<u64>>)
    requires
        is_complete(w),
    ensures
        connected(w),
{
    assert forall|a: usize, b: usize| a < w.len() && b < w.len() implies #[trigger] reachable(
        w,
        a,
        b,
    ) by {
        if a == b {
            lemma_reachable_self(w, a);
        } else {
            assert(w[a as int][b as int] > 0);
            lemma_edge_reachable(w, a, b);
        }
    }
}

} // verus!
