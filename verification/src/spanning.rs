use vstd::prelude::*;
use crate::graph::{is_mirrored, is_square, with_cell, zero_matrix};
use crate::route::{link};
use crate::walks::{
    is_walk, joins, lemma_first_unmarked, lemma_walk_concat, lemma_walk_prefix, lemma_walk_reverse,
    lemma_walk_suffix, reachable,
};

verus! {

/// Whether `t` is an undirected graph on the vertices of `w` whose edges
/// are edges of `w` between different vertices, with their weights.
pub open spec fn is_subgraph(t: Seq<Seq<u64>>, w: Seq<Seq<u64>>) -> bool {
    &&& is_square(t, w.len())
    &&& is_mirrored(t)
    &&& forall|i: int| 0 <= i < w.len() ==> (#[trigger] t[i])[i] == 0
    &&& forall|i: int, j: int|
        0 <= i < w.len() && 0 <= j < w.len() ==> #[trigger] t[i][j] == 0 || t[i][j] == w[i][j]
}

/// Whether `t` joins all vertices that `w` joins.
pub open spec fn spans(t: Seq<Seq<u64>>, w: Seq<Seq<u64>>) -> bool {
    forall|a: usize, b: usize| #[trigger] reachable(w, a, b) ==> reachable(t, a, b)
}

/// Whether `t` is a subgraph of `w` that joins all vertices that `w` joins.
pub open spec fn is_spanning(t: Seq<Seq<u64>>, w: Seq<Seq<u64>>) -> bool {
    is_subgraph(t, w) && spans(t, w)
}

/// The sum of the first `k` entries of `row`.
pub open spec fn row_sum(row: Seq<u64>, k: int) -> int
    decreases k,
{
    if k <= 0 {
        0
    } else {
        row_sum(row, k - 1) + row[k - 1]
    }
}

/// The sum of the entries below the diagonal in the first `i` rows of `t`.
pub open spec fn lower_sum(t: Seq<Seq<u64>>, i: int) -> int
    decreases i,
{
    if i <= 0 {
        0
    } else {
        lower_sum(t, i - 1) + row_sum(t[i - 1], i - 1)
    }
}

/// The total weight of the edges of the undirected graph `t`, each edge
/// counted once.
pub open spec fn total_weight(t: Seq<Seq<u64>>) -> int {
    lower_sum(t, t.len() as int)
}

/// Whether every edge of `t` is an edge of `f`.
pub open spec fn includes(f: Seq<Seq<u64>>, t: Seq<Seq<u64>>) -> bool {
    forall|i: int, j: int|
        0 <= i < t.len() && 0 <= j < t.len() && #[trigger] t[i][j] > 0 ==> f[i][j] > 0
}

/// Whether `t` is a spanning subgraph of `w` of the least total weight.
pub open spec fn is_min_spanning(t: Seq<Seq<u64>>, w: Seq<Seq<u64>>) -> bool {
    &&& is_spanning(t, w)
    &&& forall|f: Seq<Seq<u64>>| #[trigger]
        is_spanning(f, w) ==> total_weight(t) <= total_weight(f)
}

/// Whether the edges of `t` can be completed to a spanning subgraph of `w`
/// that weighs no more than `f`.
pub open spec fn completes_below(t: Seq<Seq<u64>>, w: Seq<Seq<u64>>, f: Seq<Seq<u64>>) -> bool {
    exists|g: Seq<Seq<u64>>|
        is_spanning(g, w) && #[trigger] includes(g, t) && total_weight(g) <= total_weight(f)
}

/// Whether the edges of `t` are part of a lightest spanning subgraph of
/// `w`: whatever spanning subgraph is given, one that includes `t` weighs
/// no more.
pub open spec fn promising(t: Seq<Seq<u64>>, w: Seq<Seq<u64>>) -> bool {
    forall|f: Seq<Seq<u64>>| #[trigger] is_spanning(f, w) ==> completes_below(t, w, f)
}

/// The graph `t` with the weight `x` for the edge between `a` and `b`.
pub open spec fn with_pair(t: Seq<Seq<u64>>, a: int, b: int, x: u64) -> Seq<Seq<u64>> {
    with_cell(with_cell(t, a, b, x), b, a, x)
}

/// Where one row is entry by entry no larger than another, so is its sum.
pub proof fn lemma_row_sum_monotone(r: Seq<u64>, s: Seq<u64>, k: int)
    requires
        0 <= k <= r.len(),
        k <= s.len(),
        forall|j: int| 0 <= j < k ==> r[j] <= s[j],
    ensures
        0 <= row_sum(r, k) <= row_sum(s, k),
    decreases k,
{
    if k > 0 {
        lemma_row_sum_monotone(r, s, k - 1);
    }
}

/// Where one matrix is entry by entry no larger than another, so is its
/// sum below the diagonal.
pub proof fn lemma_lower_sum_monotone(t: Seq<Seq<u64>>, f: Seq<Seq<u64>>, n: nat, i: int)
    requires
        is_square(t, n),
        is_square(f, n),
        0 <= i <= n,
        forall|a: int, b: int| 0 <= a < n && 0 <= b < n ==> t[a][b] <= f[a][b],
    ensures
        0 <= lower_sum(t, i) <= lower_sum(f, i),
    decreases i,
{
    if i > 0 {
        lemma_lower_sum_monotone(t, f, n, i - 1);
        assert(t[i - 1].len() == n && f[i - 1].len() == n);
        lemma_row_sum_monotone(t[i - 1], f[i - 1], i - 1);
    }
}

/// A subgraph weighs no more than a subgraph that includes it.
pub proof fn lemma_weight_monotone(t: Seq<Seq<u64>>, f: Seq<Seq<u64>>, w: Seq<Seq<u64>>)
    requires
        is_subgraph(t, w),
        is_subgraph(f, w),
        includes(f, t),
    ensures
        total_weight(t) <= total_weight(f),
{
    assert forall|a: int, b: int| 0 <= a < w.len() && 0 <= b < w.len() implies t[a][b]
        <= f[a][b] by {
        if t[a][b] > 0 {
            assert(f[a][b] > 0);
        }
    }
    lemma_lower_sum_monotone(t, f, w.len(), w.len() as int);
}

/// Writing one entry of a row changes the sum of a part of the row that
/// holds it by the difference, and no other.
pub proof fn lemma_row_sum_update(r: Seq<u64>, j: int, x: u64, k: int)
    requires
        0 <= j < r.len(),
        0 <= k <= r.len(),
    ensures
        row_sum(r.update(j, x), k) == if j < k {
            row_sum(r, k) - r[j] + x
        } else {
            row_sum(r, k)
        },
    decreases k,
{
    if k > 0 {
        lemma_row_sum_update(r, j, x, k - 1);
    }
}

/// Writing one cell changes the sum below the diagonal by the difference
/// where the cell lies below the diagonal, and not at all elsewhere.
pub proof fn lemma_lower_sum_update(t: Seq<Seq<u64>>, n: nat, a: int, b: int, x: u64, i: int)
    requires
        is_square(t, n),
        0 <= a < n,
        0 <= b < n,
        0 <= i <= n,
    ensures
        lower_sum(with_cell(t, a, b, x), i) == if b < a && a < i {
            lower_sum(t, i) - t[a][b] + x
        } else {
            lower_sum(t, i)
        },
    decreases i,
{
    if i > 0 {
        lemma_lower_sum_update(t, n, a, b, x, i - 1);
        let u = with_cell(t, a, b, x);
        assert(t[a].len() == n);
        assert(t[i - 1].len() == n);
        if a == i - 1 {
            lemma_row_sum_update(t[a], b, x, i - 1);
        } else {
            assert(u[i - 1] == t[i - 1]);
        }
    }
}

/// Writing the weight of the edge between two different vertices changes
/// the total weight by the difference.
pub proof fn lemma_weight_with_pair(t: Seq<Seq<u64>>, n: nat, a: int, b: int, x: u64)
    requires
        is_square(t, n),
        is_mirrored(t),
        0 <= a < n,
        0 <= b < n,
        a != b,
    ensures
        total_weight(with_pair(t, a, b, x)) == total_weight(t) - t[a][b] + x,
        is_square(with_pair(t, a, b, x), n),
        is_mirrored(with_pair(t, a, b, x)),
        forall|i: int, j: int|
            0 <= i < n && 0 <= j < n ==> #[trigger] with_pair(t, a, b, x)[i][j] == if (i == a && j
                == b) || (i == b && j == a) {
                x
            } else {
                t[i][j]
            },
{
    let u = with_cell(t, a, b, x);
    assert(t[a].len() == n && t[b].len() == n);
    assert(is_square(u, n)) by {
        assert forall|i: int| 0 <= i < n implies (#[trigger] u[i]).len() == n by {
            assert(t[i].len() == n);
        }
    }
    assert(u[b].len() == n);
    let v = with_pair(t, a, b, x);
    assert(is_square(v, n)) by {
        assert forall|i: int| 0 <= i < n implies (#[trigger] v[i]).len() == n by {
            assert(u[i].len() == n);
        }
    }
    lemma_lower_sum_update(t, n, a, b, x, n as int);
    lemma_lower_sum_update(u, n, b, a, x, n as int);
    assert forall|i: int, j: int| 0 <= i < n && 0 <= j < n implies #[trigger] v[i][j] == if (i == a
        && j == b) || (i == b && j == a) {
        x
    } else {
        t[i][j]
    } by {
        assert(t[i].len() == n);
        assert(u[i].len() == n);
    }
    assert(t[a][b] == t[b][a]);
    assert(u[b][a] == t[b][a]);
}

/// A walk can be cut down to one between the same vertices that visits no
/// vertex twice.
pub proof fn lemma_simple_walk(w: Seq<Seq<u64>>, p: Seq<usize>) -> (q: Seq<usize>)
    requires
        is_walk(w, p),
    ensures
        joins(w, q, p[0], p.last()),
        q.no_duplicates(),
    decreases p.len(),
{
    if p.no_duplicates() {
        p
    } else {
        let (i, j) = choose|i: int, j: int|
            0 <= i < p.len() && 0 <= j < p.len() && i != j && p[i] == p[j];
        let (lo, hi) = if i < j {
            (i, j)
        } else {
            (j, i)
        };
        lemma_walk_prefix(w, p, lo);
        lemma_walk_suffix(w, p, hi);
        lemma_walk_concat(w, p.take(lo + 1), p.skip(hi));
        let shorter = p.take(lo + 1) + p.skip(hi).skip(1);
        lemma_simple_walk(w, shorter)
    }
}

/// Where every edge of `f` joins two vertices that `g` joins by a walk, the
/// ends of every walk in `f` are joined by a walk in `g`.
pub proof fn lemma_reroute(f: Seq<Seq<u64>>, g: Seq<Seq<u64>>, p: Seq<usize>)
    requires
        is_walk(f, p),
        f.len() == g.len(),
        forall|u: usize, v: usize|
            u < f.len() && v < f.len() && #[trigger] link(f, u, v) > 0 ==> reachable(g, u, v),
    ensures
        reachable(g, p[0], p.last()),
    decreases p.len(),
{
    if p.len() == 1 {
        assert(joins(g, seq![p[0]], p[0], p[0]));
    } else {
        let front = p.drop_last();
        lemma_walk_prefix(f, p, p.len() - 2);
        assert(p.take(p.len() - 1) =~= front);
        lemma_reroute(f, g, front);
        let u = p[p.len() - 2];
        let v = p[p.len() - 1];
        assert(link(f, p[p.len() - 2], p[p.len() - 2 + 1]) > 0);
        assert(reachable(g, u, v));
        lemma_reachable_trans(g, p[0], u, v);
    }
}

/// Walks can be put one after the other.
pub proof fn lemma_reachable_trans(g: Seq<Seq<u64>>, a: usize, b: usize, c: usize)
    requires
        reachable(g, a, b),
        reachable(g, b, c),
    ensures
        reachable(g, a, c),
{
    let p = choose|p: Seq<usize>| #[trigger] joins(g, p, a, b);
    let q = choose|q: Seq<usize>| #[trigger] joins(g, q, b, c);
    lemma_walk_concat(g, p, q);
    assert(joins(g, p + q.skip(1), a, c));
}

/// In an undirected graph walks can be walked backwards.
pub proof fn lemma_reachable_sym(g: Seq<Seq<u64>>, a: usize, b: usize)
    requires
        is_mirrored(g),
        reachable(g, a, b),
    ensures
        reachable(g, b, a),
{
    let p = choose|p: Seq<usize>| #[trigger] joins(g, p, a, b);
    lemma_walk_reverse(g, p);
    assert(joins(g, p.reverse(), b, a));
}

/// An edge is a walk.
pub proof fn lemma_edge_reachable(g: Seq<Seq<u64>>, a: usize, b: usize)
    requires
        a < g.len(),
        b < g.len(),
        link(g, a, b) > 0,
    ensures
        reachable(g, a, b),
{
    let p = seq![a, b];
    assert forall|k: int| 0 <= k < p.len() - 1 implies #[trigger] link(g, p[k], p[k + 1]) > 0 by {}
    assert(joins(g, p, a, b));
}

/// Every vertex is joined to itself.
pub proof fn lemma_reachable_self(g: Seq<Seq<u64>>, a: usize)
    requires
        a < g.len(),
    ensures
        reachable(g, a, a),
{
    assert(joins(g, seq![a], a, a));
}

/// A walk in a graph is a walk in every graph that includes it.
pub proof fn lemma_reachable_grows(t: Seq<Seq<u64>>, f: Seq<Seq<u64>>, a: usize, b: usize)
    requires
        t.len() == f.len(),
        includes(f, t),
        reachable(t, a, b),
    ensures
        reachable(f, a, b),
{
    let p = choose|p: Seq<usize>| #[trigger] joins(t, p, a, b);
    assert forall|k: int| 0 <= k < p.len() - 1 implies #[trigger] link(f, p[k], p[k + 1]) > 0 by {
        assert(link(t, p[k], p[k + 1]) > 0);
        assert(t[p[k] as int][p[k + 1] as int] > 0);
    }
    assert(joins(f, p, a, b));
}

/// The ends of a walk are vertices.
pub proof fn lemma_reachable_in_range(g: Seq<Seq<u64>>, a: usize, b: usize)
    requires
        reachable(g, a, b),
    ensures
        a < g.len(),
        b < g.len(),
{
    let p = choose|p: Seq<usize>| #[trigger] joins(g, p, a, b);
    assert(p[0] < g.len() && p[p.len() - 1] < g.len());
}

/// The exchange at the heart of the proof: a spanning subgraph `g` that
/// includes `t` but not the edge between `a` and `b` can give up an edge
/// across the cut for that edge, and stays spanning.
pub proof fn lemma_exchange(
    w: Seq<Seq<u64>>,
    t: Seq<Seq<u64>>,
    g: Seq<Seq<u64>>,
    side: Seq<bool>,
    a: usize,
    b: usize,
) -> (h: Seq<Seq<u64>>)
    requires
        is_square(w, w.len()),
        is_mirrored(w),
        is_subgraph(t, w),
        is_spanning(g, w),
        includes(g, t),
        side.len() == w.len(),
        a < w.len(),
        b < w.len(),
        side[a as int],
        !side[b as int],
        w[a as int][b as int] > 0,
        g[a as int][b as int] == 0,
        forall|i: int, j: int|
            0 <= i < w.len() && 0 <= j < w.len() && #[trigger] t[i][j] > 0 ==> side[i] == side[j],
        forall|i: int, j: int|
            0 <= i < w.len() && 0 <= j < w.len() && side[i] && !side[j] && #[trigger] w[i][j] > 0
                ==> w[a as int][b as int] <= w[i][j],
    ensures
        is_spanning(h, w),
        includes(h, with_pair(t, a as int, b as int, w[a as int][b as int])),
        total_weight(h) <= total_weight(g),
{
    let n = w.len();
    let x_ab = w[a as int][b as int];
    lemma_edge_reachable(w, a, b);
    assert(reachable(g, a, b));
    let any = choose|p: Seq<usize>| #[trigger] joins(g, p, a, b);
    let p = lemma_simple_walk(g, any);
    let k = lemma_first_unmarked(p, side);
    let x = p[k - 1];
    let y = p[k];
    assert(link(g, p[k - 1], p[k - 1 + 1]) > 0);
    assert(g[x as int][y as int] > 0);
    assert(g[x as int][y as int] == w[x as int][y as int]);
    assert(x != y);
    let g1 = with_pair(g, x as int, y as int, 0u64);
    lemma_weight_with_pair(g, n, x as int, y as int, 0u64);
    let h = with_pair(g1, a as int, b as int, x_ab);
    lemma_weight_with_pair(g1, n, a as int, b as int, x_ab);
    let t2 = with_pair(t, a as int, b as int, x_ab);
    lemma_weight_with_pair(t, n, a as int, b as int, x_ab);
    assert(g[b as int][a as int] == 0);
    assert(w[b as int][a as int] == x_ab);
    assert forall|i: int, j: int| 0 <= i < n && 0 <= j < n implies #[trigger] h[i][j] == if (i == a
        && j == b) || (i == b && j == a) {
        x_ab
    } else if (i == x && j == y) || (i == y && j == x) {
        0u64
    } else {
        g[i][j]
    } by {
        assert(g1[i][j] == if (i == x && j == y) || (i == y && j == x) {
            0u64
        } else {
            g[i][j]
        });
    }
    assert(is_subgraph(h, w)) by {
        assert forall|i: int, j: int| 0 <= i < n && 0 <= j < n implies #[trigger] h[i][j] == 0
            || h[i][j] == w[i][j] by {
            assert(g[i][j] == 0 || g[i][j] == w[i][j]);
        }
    }
    assert(includes(h, t2)) by {
        assert forall|i: int, j: int| 0 <= i < t2.len() && 0 <= j < t2.len() && #[trigger] t2[i][j]
            > 0 implies h[i][j] > 0 by {
            if (i == a && j == b) || (i == b && j == a) {
            } else {
                assert(t[i][j] > 0);
                assert(side[i] == side[j]);
                assert(g[i][j] > 0);
            }
        }
    }
    // every walk of `g` can be led around the edge that was given up
    assert(reachable(h, x, y) && reachable(h, y, x)) by {
        let first = p.take(k);
        let rest = p.skip(k);
        lemma_walk_prefix(g, p, k - 1);
        lemma_walk_suffix(g, p, k);
        assert(is_walk(h, first)) by {
            assert forall|i: int| 0 <= i < first.len() - 1 implies #[trigger] link(
                h,
                first[i],
                first[i + 1],
            ) > 0 by {
                assert(link(g, p[i], p[i + 1]) > 0);
                assert(side[p[i] as int] && side[p[i + 1] as int]);
            }
        }
        assert(is_walk(h, rest)) by {
            assert forall|i: int| 0 <= i < rest.len() - 1 implies #[trigger] link(
                h,
                rest[i],
                rest[i + 1],
            ) > 0 by {
                assert(link(g, p[k + i], p[k + i + 1]) > 0);
                assert(g[p[k + i] as int][p[k + i + 1] as int] > 0);
                assert(p[k + i] != p[k - 1]);
                assert(p[k + i + 1] != p[k - 1]);
            }
        }
        assert(joins(h, first, a, x));
        assert(joins(h, rest, y, b));
        lemma_reachable_sym(h, a, x);
        lemma_reachable_sym(h, y, b);
        lemma_edge_reachable(h, a, b);
        lemma_reachable_trans(h, x, a, b);
        lemma_reachable_trans(h, x, b, y);
        lemma_reachable_sym(h, x, y);
    }
    assert(spans(h, w)) by {
        assert forall|c: usize, d: usize| #[trigger] reachable(w, c, d) implies reachable(
            h,
            c,
            d,
        ) by {
            assert(reachable(g, c, d));
            let q = choose|q: Seq<usize>| #[trigger] joins(g, q, c, d);
            assert forall|u: usize, v: usize|
                u < g.len() && v < g.len() && #[trigger] link(g, u, v) > 0 implies reachable(
                h,
                u,
                v,
            ) by {
                if (u == x && v == y) || (u == y && v == x) {
                } else {
                    assert(h[u as int][v as int] == g[u as int][v as int]);
                    lemma_edge_reachable(h, u, v);
                }
            }
            lemma_reroute(g, h, q);
        }
    }
    assert(w[a as int][b as int] <= w[x as int][y as int]);
    h
}

/// A lightest edge across a cut is safe: where no edge of a promising `t`
/// crosses the cut, `t` with that edge is promising too.
pub proof fn lemma_safe_edge(
    w: Seq<Seq<u64>>,
    t: Seq<Seq<u64>>,
    side: Seq<bool>,
    a: usize,
    b: usize,
)
    requires
        is_square(w, w.len()),
        is_mirrored(w),
        is_subgraph(t, w),
        promising(t, w),
        side.len() == w.len(),
        a < w.len(),
        b < w.len(),
        side[a as int],
        !side[b as int],
        w[a as int][b as int] > 0,
        forall|i: int, j: int|
            0 <= i < w.len() && 0 <= j < w.len() && #[trigger] t[i][j] > 0 ==> side[i] == side[j],
        forall|i: int, j: int|
            0 <= i < w.len() && 0 <= j < w.len() && side[i] && !side[j] && #[trigger] w[i][j] > 0
                ==> w[a as int][b as int] <= w[i][j],
    ensures
        is_subgraph(with_pair(t, a as int, b as int, w[a as int][b as int]), w),
        promising(with_pair(t, a as int, b as int, w[a as int][b as int]), w),
{
    let n = w.len();
    let x_ab = w[a as int][b as int];
    let t2 = with_pair(t, a as int, b as int, x_ab);
    lemma_weight_with_pair(t, n, a as int, b as int, x_ab);
    assert(w[b as int][a as int] == x_ab);
    assert(is_subgraph(t2, w)) by {
        assert forall|i: int, j: int| 0 <= i < n && 0 <= j < n implies #[trigger] t2[i][j] == 0
            || t2[i][j] == w[i][j] by {
            assert(t[i][j] == 0 || t[i][j] == w[i][j]);
        }
    }
    assert forall|f: Seq<Seq<u64>>| #[trigger] is_spanning(f, w) implies completes_below(
        t2,
        w,
        f,
    ) by {
        assert(completes_below(t, w, f));
        let g = choose|g: Seq<Seq<u64>>|
            is_spanning(g, w) && #[trigger] includes(g, t) && total_weight(g) <= total_weight(f);
        if g[a as int][b as int] > 0 {
            assert(includes(g, t2)) by {
                assert forall|i: int, j: int|
                    0 <= i < t2.len() && 0 <= j < t2.len() && #[trigger] t2[i][j]
                        > 0 implies g[i][j] > 0 by {
                    if (i == a && j == b) || (i == b && j == a) {
                        assert(g[a as int][b as int] == g[b as int][a as int]);
                    } else {
                        assert(t[i][j] > 0);
                    }
                }
            }
        } else {
            let h = lemma_exchange(w, t, g, side, a, b);
            assert(includes(h, t2));
        }
    }
}

/// The graph without edges is promising.
pub proof fn lemma_promising_start(w: Seq<Seq<u64>>)
    ensures
        is_subgraph(zero_matrix(w.len()), w),
        promising(zero_matrix(w.len()), w),
{
    let z = zero_matrix(w.len());
    assert forall|f: Seq<Seq<u64>>| #[trigger] is_spanning(f, w) implies completes_below(z, w, f) by {
        assert(includes(f, z));
    }
}

/// A promising subgraph that spans is a lightest spanning subgraph.
pub proof fn lemma_promising_end(w: Seq<Seq<u64>>, t: Seq<Seq<u64>>)
    requires
        is_spanning(t, w),
        promising(t, w),
    ensures
        is_min_spanning(t, w),
{
    assert forall|f: Seq<Seq<u64>>| #[trigger] is_spanning(f, w) implies total_weight(t)
        <= total_weight(f) by {
        assert(completes_below(t, w, f));
        let g = choose|g: Seq<Seq<u64>>|
            is_spanning(g, w) && #[trigger] includes(g, t) && total_weight(g) <= total_weight(f);
        lemma_weight_monotone(t, g, w);
    }
}

/// Two lightest spanning subgraphs of one graph have the same total weight,
/// however they were found.
pub proof fn lemma_min_spanning_weights_agree(
    w: Seq<Seq<u64>>,
    first: Seq<Seq<u64>>,
    second: Seq<Seq<u64>>,
)
    requires
        is_min_spanning(first, w),
        is_min_spanning(second, w),
    ensures
        total_weight(first) == total_weight(second),
{
}

} // verus!
