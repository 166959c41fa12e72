use vstd::prelude::*;
use crate::christofides::{joined, odd_marks};
use crate::euler::{is_eulerian, is_step, lemma_passes_step, passes};
use crate::graph::{is_mirrored, is_square, zero_matrix};
use crate::matching::{
    chosen, is_complete, is_matching, is_min_matching, lemma_add_pair, lemma_empty_matching,
    lemma_remove_pair, lemma_zero_weight,
};
use crate::route::{
    in_range, is_tour, lemma_path_cost_nonnegative, lemma_route_cost_rotation, link, path_cost,
    rotated, route_cost,
};
use crate::spanning::{
    includes, is_min_spanning, is_spanning, is_subgraph, lemma_edge_reachable,
    lemma_reachable_grows, lemma_reachable_in_range, lemma_reachable_self, lemma_reachable_sym,
    lemma_reachable_trans, lemma_weight_with_pair, lower_sum, row_sum, spans, total_weight,
    with_pair,
};
use crate::tour::{lemma_rotated_tour, lemma_tour_visits_all};
use crate::walks::reachable;

verus! {

/// Whether no vertex is farther from another than by way of a third.
pub open spec fn is_metric(w: Seq<Seq<u64>>) -> bool {
    forall|i: int, j: int, k: int|
        0 <= i < w.len() && 0 <= j < w.len() && 0 <= k < w.len() ==> w[i][k] <= #[trigger] w[i][j]
            + #[trigger] w[j][k]
}

/// The weight of the step from `x` to `y`, and nothing where they are the
/// same vertex.
pub open spec fn gap(w: Seq<Seq<u64>>, x: usize, y: usize) -> int {
    if x == y {
        0
    } else {
        link(w, x, y)
    }
}

/// The vertices of `p` at the places that `keep` marks, in their order.
pub open spec fn picked(p: Seq<usize>, keep: Seq<bool>) -> Seq<usize>
    decreases p.len(),
{
    if p.len() == 0 {
        Seq::empty()
    } else if keep[p.len() - 1] {
        picked(p.drop_last(), keep).push(p.last())
    } else {
        picked(p.drop_last(), keep)
    }
}

/// Which places of `p` hold a vertex that `p` has not visited before.
pub open spec fn first_visits(p: Seq<usize>) -> Seq<bool> {
    Seq::new(p.len(), |k: int| !p.take(k).contains(p[k]))
}

/// Leaving vertices out of a path makes it no dearer, where no vertex is
/// farther from another than by way of a third: the path through the kept
/// vertices, and on to the end of the whole path, costs no more than the
/// whole path.
pub proof fn lemma_picked_cost(w: Seq<Seq<u64>>, p: Seq<usize>, keep: Seq<bool>)
    requires
        is_metric(w),
        in_range(p, w.len()),
        p.len() >= 1,
        keep.len() >= p.len(),
        keep[0],
    ensures
        picked(p, keep).len() >= 1,
        picked(p, keep)[0] == p[0],
        in_range(picked(p, keep), w.len()),
        path_cost(w, picked(p, keep)) + gap(w, picked(p, keep).last(), p.last()) <= path_cost(
            w,
            p,
        ),
    decreases p.len(),
{
    if p.len() == 1 {
        assert(p.drop_last().len() == 0);
        assert(picked(p.drop_last(), keep) =~= Seq::<usize>::empty());
        assert(picked(p, keep) =~= seq![p[0]]);
    } else {
        let q = p.drop_last();
        lemma_picked_cost(w, q, keep);
        let s = picked(q, keep);
        let l = s.last();
        let u = q.last();
        let v = p.last();
        assert(u == p[p.len() - 2]);
        assert(l < w.len() && u < w.len() && v < w.len());
        assert(w[l as int][v as int] <= w[l as int][u as int] + w[u as int][v as int]);
        if keep[p.len() - 1] {
            let t = s.push(v);
            assert(t.drop_last() =~= s);
            assert(t[t.len() - 2] == l);
        }
    }
}

/// The sum of `f` over the first `k` columns of row `a`.
pub open spec fn row_part(f: spec_fn(int, int) -> int, a: int, k: int) -> int
    decreases k,
{
    if k <= 0 {
        0
    } else {
        row_part(f, a, k - 1) + f(a, k - 1)
    }
}

/// The sum of `f` over the cells below the diagonal in the first `i` rows.
pub open spec fn below(f: spec_fn(int, int) -> int, i: int) -> int
    decreases i,
{
    if i <= 0 {
        0
    } else {
        below(f, i - 1) + row_part(f, i - 1, i - 1)
    }
}

/// Where `g` is `f` but for `d` more in one cell, its sum over a row is
/// that of `f`, and `d` more where the row holds the cell.
pub proof fn lemma_row_part_point(
    f: spec_fn(int, int) -> int,
    g: spec_fn(int, int) -> int,
    a: int,
    k: int,
    a0: int,
    b0: int,
    d: int,
)
    requires
        0 <= k,
        forall|b: int|
            0 <= b < k ==> #[trigger] g(a, b) == f(a, b) + if a == a0 && b == b0 {
                d
            } else {
                0
            },
    ensures
        row_part(g, a, k) == row_part(f, a, k) + if a == a0 && 0 <= b0 < k {
            d
        } else {
            0
        },
    decreases k,
{
    if k > 0 {
        lemma_row_part_point(f, g, a, k - 1, a0, b0, d);
    }
}

/// Where `g` is `f` but for `d` more in one cell below the diagonal, its
/// sum is `d` more.
pub proof fn lemma_below_point(
    f: spec_fn(int, int) -> int,
    g: spec_fn(int, int) -> int,
    i: int,
    a0: int,
    b0: int,
    d: int,
)
    requires
        0 <= i,
        0 <= b0 < a0,
        forall|a: int, b: int|
            0 <= b < a < i ==> #[trigger] g(a, b) == f(a, b) + if a == a0 && b == b0 {
                d
            } else {
                0
            },
    ensures
        below(g, i) == below(f, i) + if a0 < i {
            d
        } else {
            0
        },
    decreases i,
{
    if i > 0 {
        lemma_below_point(f, g, i - 1, a0, b0, d);
        lemma_row_part_point(f, g, i - 1, i - 1, a0, b0, d);
    }
}

/// Where `h` is the sum of `f` and `g` cell by cell, so is its sum over a
/// row.
pub proof fn lemma_row_part_add(
    f: spec_fn(int, int) -> int,
    g: spec_fn(int, int) -> int,
    h: spec_fn(int, int) -> int,
    a: int,
    k: int,
)
    requires
        0 <= k,
        forall|b: int| 0 <= b < k ==> #[trigger] h(a, b) == f(a, b) + g(a, b),
    ensures
        row_part(h, a, k) == row_part(f, a, k) + row_part(g, a, k),
    decreases k,
{
    if k > 0 {
        lemma_row_part_add(f, g, h, a, k - 1);
    }
}

/// Where `h` is the sum of `f` and `g` cell by cell, so is its sum below
/// the diagonal.
pub proof fn lemma_below_add(
    f: spec_fn(int, int) -> int,
    g: spec_fn(int, int) -> int,
    h: spec_fn(int, int) -> int,
    i: int,
)
    requires
        0 <= i,
        forall|a: int, b: int| 0 <= b < a < i ==> #[trigger] h(a, b) == f(a, b) + g(a, b),
    ensures
        below(h, i) == below(f, i) + below(g, i),
    decreases i,
{
    if i > 0 {
        lemma_below_add(f, g, h, i - 1);
        lemma_row_part_add(f, g, h, i - 1, i - 1);
    }
}

/// The sum of the cells of a row is the sum of the function that reads
/// them.
pub proof fn lemma_row_sum_is_part(t: Seq<Seq<u64>>, f: spec_fn(int, int) -> int, a: int, k: int)
    requires
        0 <= a < t.len(),
        0 <= k <= t[a].len(),
        forall|b: int| 0 <= b < k ==> #[trigger] f(a, b) == t[a][b],
    ensures
        row_sum(t[a], k) == row_part(f, a, k),
    decreases k,
{
    if k > 0 {
        lemma_row_sum_is_part(t, f, a, k - 1);
    }
}

/// The sum below the diagonal of a matrix is the sum of the function that
/// reads its cells.
pub proof fn lemma_lower_sum_is_below(t: Seq<Seq<u64>>, f: spec_fn(int, int) -> int, i: int)
    requires
        is_square(t, t.len()),
        0 <= i <= t.len(),
        forall|a: int, b: int| 0 <= b < a < i ==> #[trigger] f(a, b) == t[a][b],
    ensures
        lower_sum(t, i) == below(f, i),
    decreases i,
{
    if i > 0 {
        lemma_lower_sum_is_below(t, f, i - 1);
        assert(t[i - 1].len() == t.len());
        lemma_row_sum_is_part(t, f, i - 1, i - 1);
    }
}

/// A walk that never stays at a vertex costs what the edges cost that it
/// runs along, each as often as it runs along it.
pub proof fn lemma_cost_by_passes(w: Seq<Seq<u64>>, p: Seq<usize>)
    requires
        is_mirrored(w),
        in_range(p, w.len()),
        forall|k: int| 0 <= k < p.len() - 1 ==> p[k] != #[trigger] p[k + 1],
    ensures
        path_cost(w, p) == below(|a: int, b: int| passes(p, a, b) * w[a][b], w.len() as int),
    decreases p.len(),
{
    let n = w.len() as int;
    let f = |a: int, b: int| passes(p, a, b) * w[a][b];
    if p.len() <= 1 {
        let zero = |a: int, b: int| 0int;
        lemma_below_add(zero, zero, f, n);
        lemma_below_add(zero, zero, zero, n);
    } else {
        let q = p.drop_last();
        let g = |a: int, b: int| passes(q, a, b) * w[a][b];
        assert forall|k: int| 0 <= k < q.len() - 1 implies q[k] != #[trigger] q[k + 1] by {
            assert(p[k] != p[k + 1]);
        }
        lemma_cost_by_passes(w, q);
        let u = p[p.len() - 2];
        let v = p[p.len() - 1];
        assert(p[p.len() - 2] != p[p.len() - 2 + 1]);
        let hi = if u < v {
            v as int
        } else {
            u as int
        };
        let lo = if u < v {
            u as int
        } else {
            v as int
        };
        assert(w[hi][lo] == w[u as int][v as int]);
        assert forall|a: int, b: int| 0 <= b < a < n implies #[trigger] f(a, b) == g(a, b) + if a
            == hi && b == lo {
            w[hi][lo] as int
        } else {
            0int
        } by {
            assert(is_step(u, v, a, b) <==> a == hi && b == lo);
            assert((passes(q, a, b) + 1) * w[a][b] == passes(q, a, b) * w[a][b] + w[a][b])
                by (nonlinear_arith);
        }
        lemma_below_point(g, f, n, hi, lo, w[hi][lo] as int);
    }
}

/// A closed walk along every edge of a tree and of a matching, each once,
/// costs what the tree and the matching weigh together.
pub proof fn lemma_walk_cost(w: Seq<Seq<u64>>, t: Seq<Seq<u64>>, f: Seq<Seq<u64>>, p: Seq<usize>)
    requires
        is_mirrored(w),
        is_subgraph(t, w),
        is_subgraph(f, w),
        is_eulerian(joined(t, f), p),
    ensures
        path_cost(w, p) == total_weight(t) + total_weight(f),
{
    let n = w.len() as int;
    let g = joined(t, f);
    assert forall|k: int| 0 <= k < p.len() - 1 implies p[k] != #[trigger] p[k + 1] by {
        lemma_passes_step(p, k);
        if p[k] == p[k + 1] {
            let a = p[k] as int;
            assert(p[k] < w.len());
            assert(passes(p, a, a) == g[a][a]);
            assert(t[a][a] == 0 && f[a][a] == 0);
        }
    }
    lemma_cost_by_passes(w, p);
    let by_walk = |a: int, b: int| passes(p, a, b) * w[a][b];
    let by_tree = |a: int, b: int| t[a][b] as int;
    let by_pairs = |a: int, b: int| f[a][b] as int;
    assert forall|a: int, b: int| 0 <= b < a < n implies #[trigger] by_walk(a, b) == by_tree(a, b)
        + by_pairs(a, b) by {
        assert(passes(p, a, b) == g[a][b]);
        assert(t[a][b] == 0 || t[a][b] == w[a][b]);
        assert(f[a][b] == 0 || f[a][b] == w[a][b]);
        let x = passes(p, a, b);
        let y = w[a][b] as int;
        assert(x == 0 ==> x * y == 0) by (nonlinear_arith);
        assert(x == 1 ==> x * y == y) by (nonlinear_arith);
        assert(x == 2 ==> x * y == y + y) by (nonlinear_arith);
    }
    lemma_below_add(by_tree, by_pairs, by_walk, n);
    lemma_lower_sum_is_below(t, by_tree, n);
    lemma_lower_sum_is_below(f, by_pairs, n);
}

/// The graph of the steps of `p`.
pub open spec fn path_graph(w: Seq<Seq<u64>>, p: Seq<usize>) -> Seq<Seq<u64>>
    decreases p.len(),
{
    if p.len() <= 1 {
        zero_matrix(w.len())
    } else {
        with_pair(
            path_graph(w, p.drop_last()),
            p[p.len() - 2] as int,
            p[p.len() - 1] as int,
            w[p[p.len() - 2] as int][p[p.len() - 1] as int],
        )
    }
}

/// The graph of the steps of a path through a complete graph is a subgraph
/// that joins the vertices of the path and weighs no more than the path
/// costs.
pub proof fn lemma_path_graph(w: Seq<Seq<u64>>, p: Seq<usize>)
    requires
        is_square(w, w.len()),
        is_mirrored(w),
        is_complete(w),
        in_range(p, w.len()),
        p.no_duplicates(),
        p.len() >= 1,
    ensures
        is_subgraph(path_graph(w, p), w),
        total_weight(path_graph(w, p)) <= path_cost(w, p),
        forall|i: int| 0 <= i < p.len() ==> #[trigger] reachable(path_graph(w, p), p[0], p[i]),
    decreases p.len(),
{
    let n = w.len();
    if p.len() == 1 {
        lemma_zero_weight(n, n as int);
        lemma_reachable_self(zero_matrix(n), p[0]);
    } else {
        let q = p.drop_last();
        lemma_path_graph(w, q);
        let before = path_graph(w, q);
        let u = p[p.len() - 2];
        let v = p[p.len() - 1];
        let x = w[u as int][v as int];
        let after = path_graph(w, p);
        assert(u != v);
        assert(x > 0);
        assert(w[v as int][u as int] == x);
        lemma_weight_with_pair(before, n, u as int, v as int, x);
        assert(is_subgraph(after, w)) by {
            assert forall|i: int, j: int| 0 <= i < n && 0 <= j < n implies #[trigger] after[i][j]
                == 0 || after[i][j] == w[i][j] by {
                assert(before[i][j] == 0 || before[i][j] == w[i][j]);
            }
            assert forall|i: int| 0 <= i < n implies (#[trigger] after[i])[i] == 0 by {
                assert(before[i][i] == 0);
                assert(after[i][i] == before[i][i]);
            }
        }
        assert(includes(after, before)) by {
            assert forall|i: int, j: int| 0 <= i < n && 0 <= j < n && #[trigger] before[i][j]
                > 0 implies after[i][j] > 0 by {}
        }
        lemma_edge_reachable(after, u, v);
        assert forall|i: int| 0 <= i < p.len() implies #[trigger] reachable(after, p[0], p[i]) by {
            if i < q.len() {
                assert(reachable(before, q[0], q[i]));
                lemma_reachable_grows(before, after, p[0], p[i]);
            } else {
                assert(reachable(before, q[0], q[q.len() - 1]));
                lemma_reachable_grows(before, after, p[0], u);
                lemma_reachable_trans(after, p[0], u, v);
            }
        }
    }
}

/// A minimum spanning tree of a complete graph weighs no more than any
/// tour costs.
pub proof fn lemma_tree_bound(w: Seq<Seq<u64>>, t: Seq<Seq<u64>>, r: Seq<usize>)
    requires
        is_square(w, w.len()),
        is_mirrored(w),
        is_complete(w),
        is_min_spanning(t, w),
        is_tour(r, w.len()),
        w.len() > 0,
    ensures
        total_weight(t) <= route_cost(w, r),
{
    let g = path_graph(w, r);
    lemma_path_graph(w, r);
    lemma_tour_visits_all(r, w.len());
    assert(spans(g, w)) by {
        assert forall|a: usize, b: usize| #[trigger] reachable(w, a, b) implies reachable(
            g,
            a,
            b,
        ) by {
            lemma_reachable_in_range(w, a, b);
            assert(r.contains(a) && r.contains(b));
            let i = choose|i: int| 0 <= i < r.len() && r[i] == a;
            let j = choose|j: int| 0 <= j < r.len() && r[j] == b;
            assert(reachable(g, r[0], r[i]));
            assert(reachable(g, r[0], r[j]));
            lemma_reachable_sym(g, r[0], a);
            lemma_reachable_trans(g, a, r[0], b);
        }
    }
    assert(is_spanning(g, w));
}

/// The cost of the last step of `s` and of every second step before it.
pub open spec fn pairs_cost(w: Seq<Seq<u64>>, s: Seq<usize>) -> int
    decreases s.len(),
{
    if s.len() < 2 {
        0
    } else {
        pairs_cost(w, s.take(s.len() - 2)) + link(w, s[s.len() - 2], s[s.len() - 1])
    }
}

/// The steps of a path are the last step and every second step before it,
/// and the same of the path without its last vertex.
pub proof fn lemma_cost_split(w: Seq<Seq<u64>>, p: Seq<usize>)
    requires
        p.len() >= 1,
    ensures
        path_cost(w, p) == pairs_cost(w, p) + pairs_cost(w, p.drop_last()),
    decreases p.len(),
{
    if p.len() >= 2 {
        let q = p.drop_last();
        lemma_cost_split(w, q);
        assert(p.take(p.len() - 2) =~= q.drop_last());
    }
}

/// Without its first vertex, a path of an odd number of vertices has the
/// same last step and every second step before it.
pub proof fn lemma_pairs_cost_skip(w: Seq<Seq<u64>>, x: Seq<usize>)
    requires
        x.len() % 2 == 1,
    ensures
        pairs_cost(w, x.skip(1)) == pairs_cost(w, x),
    decreases x.len(),
{
    if x.len() >= 3 {
        let y = x.skip(1);
        lemma_pairs_cost_skip(w, x.take(x.len() - 2));
        assert(y.take(y.len() - 2) =~= x.take(x.len() - 2).skip(1));
    } else {
        assert(x.skip(1).len() == 0);
    }
}

/// The steps of a closed route of an even number of vertices fall into two
/// halves: every second step, and the steps between them.
pub proof fn lemma_two_pairings(w: Seq<Seq<u64>>, s: Seq<usize>)
    requires
        s.len() % 2 == 0,
        s.len() >= 2,
    ensures
        pairs_cost(w, s) + pairs_cost(w, s.skip(1).push(s[0])) == route_cost(w, s),
{
    let q = s.skip(1).push(s[0]);
    let x = s.drop_last();
    assert(q.take(q.len() - 2) =~= x.skip(1));
    lemma_pairs_cost_skip(w, x);
    lemma_cost_split(w, s);
}

/// The graph in which the vertices of `s` are joined two by two: the first
/// to the second, the third to the fourth, and so on.
pub open spec fn pairing(w: Seq<Seq<u64>>, s: Seq<usize>) -> Seq<Seq<u64>>
    decreases s.len(),
{
    if s.len() < 2 {
        zero_matrix(w.len())
    } else {
        with_pair(
            pairing(w, s.take(s.len() - 2)),
            s[s.len() - 2] as int,
            s[s.len() - 1] as int,
            w[s[s.len() - 2] as int][s[s.len() - 1] as int],
        )
    }
}

/// In a complete graph, joining an even number of different vertices two
/// by two gives a perfect matching of them, which weighs what the steps
/// between the partners cost.
pub proof fn lemma_pairing(w: Seq<Seq<u64>>, s: Seq<usize>)
    requires
        is_square(w, w.len()),
        is_mirrored(w),
        is_complete(w),
        in_range(s, w.len()),
        s.no_duplicates(),
        s.len() % 2 == 0,
    ensures
        is_matching(pairing(w, s), w, chosen(s, w.len())),
        total_weight(pairing(w, s)) == pairs_cost(w, s),
    decreases s.len(),
{
    let n = w.len();
    let marked = chosen(s, n);
    if s.len() < 2 {
        lemma_empty_matching(w, marked);
    } else {
        let rest = s.take(s.len() - 2);
        let a = s[s.len() - 2];
        let b = s[s.len() - 1];
        lemma_pairing(w, rest);
        assert(a != b);
        assert(w[a as int][b as int] > 0);
        assert(marked.update(a as int, false).update(b as int, false) =~= chosen(rest, n)) by {
            assert forall|v: int| 0 <= v < n implies marked.update(a as int, false).update(
                b as int,
                false,
            )[v] == chosen(rest, n)[v] by {
                if chosen(rest, n)[v] {
                    let k = choose|k: int| 0 <= k < rest.len() && rest[k] == v;
                    assert(s[k] == v);
                }
                if v != a && v != b && marked[v] {
                    let k = choose|k: int| 0 <= k < s.len() && s[k] == v;
                    assert(rest[k] == v);
                }
            }
        }
        assert(marked[a as int]) by {
            assert(s[s.len() - 2] == a);
        }
        assert(marked[b as int]) by {
            assert(s[s.len() - 1] == b);
        }
        lemma_add_pair(w, pairing(w, rest), marked, a, b);
    }
}

/// The vertices picked from `p` are those at the marked places, and they
/// differ from each other where those of `p` do.
pub proof fn lemma_picked_members(p: Seq<usize>, keep: Seq<bool>)
    requires
        keep.len() >= p.len(),
    ensures
        forall|v: usize|
            picked(p, keep).contains(v) <==> exists|k: int|
                0 <= k < p.len() && keep[k] && p[k] == v,
        p.no_duplicates() ==> picked(p, keep).no_duplicates(),
        picked(p, keep).len() <= p.len(),
    decreases p.len(),
{
    let s = picked(p, keep);
    if p.len() > 0 {
        let q = p.drop_last();
        let t = picked(q, keep);
        lemma_picked_members(q, keep);
        assert forall|v: usize|
            s.contains(v) <==> exists|k: int| 0 <= k < p.len() && keep[k] && p[k] == v by {
            if s.contains(v) {
                let i = choose|i: int| 0 <= i < s.len() && s[i] == v;
                if keep[p.len() - 1] && i == s.len() - 1 {
                    assert(p[p.len() - 1] == v);
                } else {
                    assert(t[i] == v);
                    assert(t.contains(v));
                    let k = choose|k: int| 0 <= k < q.len() && keep[k] && q[k] == v;
                    assert(p[k] == v);
                }
            }
            if exists|k: int| 0 <= k < p.len() && keep[k] && p[k] == v {
                let k = choose|k: int| 0 <= k < p.len() && keep[k] && p[k] == v;
                if k == p.len() - 1 {
                    assert(s[s.len() - 1] == v);
                } else {
                    assert(q[k] == v);
                    assert(t.contains(v));
                    let i = choose|i: int| 0 <= i < t.len() && t[i] == v;
                    assert(s[i] == v);
                }
            }
        }
        if p.no_duplicates() {
            assert(q.no_duplicates());
            if keep[p.len() - 1] {
                assert forall|i: int, j: int| 0 <= i < s.len() && 0 <= j < s.len() && i != j implies s[i]
                    != s[j] by {
                    if i == s.len() - 1 || j == s.len() - 1 {
                        let other = if i == s.len() - 1 {
                            j
                        } else {
                            i
                        };
                        assert(t.contains(t[other]));
                        let k = choose|k: int| 0 <= k < q.len() && keep[k] && q[k] == t[other];
                        assert(p[k] != p[p.len() - 1]);
                    }
                }
            }
        }
    }
}

/// The vertices that a perfect matching joins are even in number.
pub proof fn lemma_matched_even(
    w: Seq<Seq<u64>>,
    f: Seq<Seq<u64>>,
    marked: Seq<bool>,
    s: Seq<usize>,
)
    requires
        w.len() <= usize::MAX,
        is_mirrored(w),
        is_matching(f, w, marked),
        in_range(s, w.len()),
        s.no_duplicates(),
        forall|v: usize| v < w.len() ==> (marked[v as int] <==> s.contains(v)),
    ensures
        s.len() % 2 == 0,
    decreases s.len(),
{
    if s.len() > 0 {
        let a = s[0];
        assert(s.contains(a));
        let b = lemma_remove_pair(w, f, marked, a);
        assert(s.contains(b));
        let j = choose|j: int| 0 <= j < s.len() && s[j] == b;
        let rest = Seq::new(
            (s.len() - 2) as nat,
            |i: int|
                s[if i + 1 < j {
                    i + 1
                } else {
                    i + 2
                }],
        );
        let less = marked.update(a as int, false).update(b as int, false);
        assert forall|v: usize| v < w.len() implies (less[v as int] <==> rest.contains(v)) by {
            if rest.contains(v) {
                let i = choose|i: int| 0 <= i < rest.len() && rest[i] == v;
                let k = if i + 1 < j {
                    i + 1
                } else {
                    i + 2
                };
                assert(s[k] == v);
                assert(s.contains(v));
            }
            if less[v as int] {
                assert(s.contains(v));
                let k = choose|k: int| 0 <= k < s.len() && s[k] == v;
                let i = if k < j {
                    k - 1
                } else {
                    k - 2
                };
                assert(rest[i] == v);
            }
        }
        assert(rest.no_duplicates());
        assert(in_range(rest, w.len()));
        lemma_matched_even(w, with_pair(f, a as int, b as int, 0u64), less, rest);
    }
}

/// Where no vertex is farther from another than by way of a third, the
/// marked vertices can be walked round at no more than the cost of any
/// tour.
pub proof fn lemma_marked_round(w: Seq<Seq<u64>>, marked: Seq<bool>, r: Seq<usize>) -> (s: Seq<
    usize,
>)
    requires
        w.len() <= usize::MAX,
        is_metric(w),
        marked.len() == w.len(),
        is_tour(r, w.len()),
        exists|v: int| 0 <= v < w.len() && marked[v],
    ensures
        s.len() >= 1,
        in_range(s, w.len()),
        s.no_duplicates(),
        forall|v: usize| v < w.len() ==> (marked[v as int] <==> s.contains(v)),
        route_cost(w, s) <= route_cost(w, r),
{
    let n = w.len();
    let first = choose|v: int| 0 <= v < n && marked[v];
    lemma_tour_visits_all(r, n);
    assert(r.contains(first as usize));
    let k = choose|k: int| 0 <= k < r.len() && r[k] == first as usize;
    let turned = rotated(r, k);
    lemma_rotated_tour(r, n, k);
    lemma_route_cost_rotation(w, r, k);
    lemma_tour_visits_all(turned, n);
    let keep = Seq::new(turned.len(), |i: int| marked[turned[i] as int]);
    let s = picked(turned, keep);
    lemma_picked_cost(w, turned, keep);
    lemma_picked_members(turned, keep);
    assert forall|v: usize| v < n implies (marked[v as int] <==> s.contains(v)) by {
        if marked[v as int] {
            assert(turned.contains(v));
            let i = choose|i: int| 0 <= i < turned.len() && turned[i] == v;
            assert(keep[i] && turned[i] == v);
        }
        if s.contains(v) {
            let i = choose|i: int| 0 <= i < turned.len() && keep[i] && turned[i] == v;
        }
    }
    let last = s.last();
    let end = turned.last();
    assert(last < n && end < n && s[0] < n);
    assert(w[last as int][s[0] as int] <= w[last as int][end as int] + w[end as int][s[0] as int]);
    assert(route_cost(w, s) <= route_cost(w, turned));
    s
}

/// A round of vertices started at its second vertex holds the same
/// vertices.
pub proof fn lemma_turned_round(s: Seq<usize>, n: nat, marked: Seq<bool>)
    requires
        n <= usize::MAX,
        s.len() >= 1,
        in_range(s, n),
        s.no_duplicates(),
        marked.len() == n,
        forall|v: usize| v < n ==> (marked[v as int] <==> s.contains(v)),
    ensures
        in_range(s.skip(1).push(s[0]), n),
        s.skip(1).push(s[0]).no_duplicates(),
        chosen(s, n) == marked,
        chosen(s.skip(1).push(s[0]), n) == marked,
{
    let q = s.skip(1).push(s[0]);
    assert forall|i: int| 0 <= i < q.len() implies #[trigger] q[i] == s[if i == q.len() - 1 {
        0
    } else {
        i + 1
    }] by {}
    assert forall|i: int, j: int| 0 <= i < q.len() && 0 <= j < q.len() && i != j implies q[i]
        != q[j] by {
        let i2 = if i == q.len() - 1 {
            0
        } else {
            i + 1
        };
        let j2 = if j == q.len() - 1 {
            0
        } else {
            j + 1
        };
        assert(q[i] == s[i2] && q[j] == s[j2]);
    }
    assert forall|i: int| 0 <= i < q.len() implies #[trigger] q[i] < n by {
        let i2 = if i == q.len() - 1 {
            0
        } else {
            i + 1
        };
        assert(q[i] == s[i2]);
    }
    assert forall|v: int| 0 <= v < n implies chosen(s, n)[v] == marked[v] by {
        if marked[v] {
            assert(s.contains(v as usize));
            let i = choose|i: int| 0 <= i < s.len() && s[i] == v as usize;
            assert(s[i] == v);
        }
        if chosen(s, n)[v] {
            let i = choose|i: int| 0 <= i < s.len() && s[i] == v;
            assert(s.contains(v as usize));
        }
    }
    assert(chosen(s, n) =~= marked);
    assert forall|v: int| 0 <= v < n implies chosen(q, n)[v] == marked[v] by {
        if marked[v] {
            assert(s.contains(v as usize));
            let i = choose|i: int| 0 <= i < s.len() && s[i] == v as usize;
            let i2 = if i == 0 {
                q.len() - 1
            } else {
                i - 1
            };
            assert(q[i2] == v);
        }
        if chosen(q, n)[v] {
            let i = choose|i: int| 0 <= i < q.len() && q[i] == v;
            let i2 = if i == q.len() - 1 {
                0
            } else {
                i + 1
            };
            assert(s[i2] == v);
            assert(s.contains(v as usize));
        }
    }
    assert(chosen(q, n) =~= marked);
}

/// In a complete graph in which no vertex is farther from another than by
/// way of a third, a lightest perfect matching of any of the vertices
/// weighs no more than half of what any tour costs.
pub proof fn lemma_matching_bound(
    w: Seq<Seq<u64>>,
    f: Seq<Seq<u64>>,
    marked: Seq<bool>,
    r: Seq<usize>,
)
    requires
        w.len() <= usize::MAX,
        is_square(w, w.len()),
        is_mirrored(w),
        is_complete(w),
        is_metric(w),
        is_min_matching(f, w, marked),
        is_tour(r, w.len()),
    ensures
        2 * total_weight(f) <= route_cost(w, r),
{
    let n = w.len();
    lemma_path_cost_nonnegative(w, r);
    if forall|v: int| 0 <= v < n ==> !marked[v] {
        lemma_empty_matching(w, marked);
    } else {
        let s = lemma_marked_round(w, marked, r);
        lemma_matched_even(w, f, marked, s);
        lemma_turned_round(s, n, marked);
        let q = s.skip(1).push(s[0]);
        lemma_pairing(w, s);
        lemma_pairing(w, q);
        lemma_two_pairings(w, s);
        assert(total_weight(f) <= total_weight(pairing(w, s)));
        assert(total_weight(f) <= total_weight(pairing(w, q)));
    }
}

/// Where no vertex is farther from another than by way of a third, the
/// round through the vertices of a closed walk, in the order in which the
/// walk first comes to them, costs no more than the walk.
pub proof fn lemma_shortcut_bound(w: Seq<Seq<u64>>, p: Seq<usize>)
    requires
        is_metric(w),
        in_range(p, w.len()),
        p.len() >= 1,
        p[0] == p.last(),
        picked(p, first_visits(p)).no_duplicates(),
        picked(p, first_visits(p)).len() >= 2,
    ensures
        route_cost(w, picked(p, first_visits(p))) <= path_cost(w, p),
{
    let keep = first_visits(p);
    assert(p.take(0).len() == 0);
    assert(keep[0]);
    lemma_picked_cost(w, p, keep);
    let s = picked(p, keep);
    assert(s[0] != s[s.len() - 1]);
}

/// The tour that follows a closed walk along a minimum spanning tree and a
/// lightest perfect matching of the vertices at which an odd number of tree
/// edges meet costs at most half as much again as any tour, in a complete
/// graph in which no vertex is farther from another than by way of a
/// third.
pub proof fn lemma_half_more(
    w: Seq<Seq<u64>>,
    t: Seq<Seq<u64>>,
    f: Seq<Seq<u64>>,
    p: Seq<usize>,
    r: Seq<usize>,
)
    requires
        w.len() <= usize::MAX,
        is_square(w, w.len()),
        is_mirrored(w),
        is_complete(w),
        is_metric(w),
        is_min_spanning(t, w),
        is_min_matching(f, w, odd_marks(t)),
        is_eulerian(joined(t, f), p),
        is_tour(picked(p, first_visits(p)), w.len()),
        is_tour(r, w.len()),
    ensures
        2 * route_cost(w, picked(p, first_visits(p))) <= 3 * route_cost(w, r),
{
    let n = w.len();
    let route = picked(p, first_visits(p));
    if n == 0 {
        assert(route.len() == 0 && r.len() == 0);
    } else if n == 1 {
        assert(route[0] == 0 && r[0] == 0);
        assert(route =~= r);
    } else {
        lemma_shortcut_bound(w, p);
        lemma_walk_cost(w, t, f, p);
        lemma_tree_bound(w, t, r);
        lemma_matching_bound(w, f, odd_marks(t), r);
    }
}

} // verus!
