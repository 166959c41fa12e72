use vstd::prelude::*;
use vstd::multiset::Multiset;
use crate::error::GraphError;
use crate::forest::Forest;
use crate::graph::{
    is_mirrored, is_square, matrix_view, same_labels, zero_matrix, zero_rows, Graph,
};
use crate::prim::write_pair;
use crate::queue::{entry_le, Entry, MinQueue};
use crate::route::link;
use crate::spanning::{
    is_min_spanning, is_subgraph, lemma_edge_reachable, lemma_promising_end,
    lemma_promising_start, lemma_reachable_grows, lemma_reachable_self, lemma_reachable_sym,
    lemma_reachable_trans, lemma_reroute, lemma_safe_edge, lemma_weight_with_pair, promising,
    spans, with_pair,
};
use crate::walks::{joins, reachable};

verus! {

/// The state of the search for a lightest spanning forest: the edges
/// accepted so far can be completed to one, `roots` tells which vertices
/// they join, and every edge of the graph is in the queue unless its ends
/// are joined already.
#[verifier::opaque]
pub open spec fn forest_ok(
    w: Seq<Seq<u64>>,
    t: Seq<Seq<u64>>,
    roots: Seq<int>,
    queue: Multiset<Entry>,
) -> bool {
    let n = w.len();
    &&& n <= usize::MAX
    &&& is_square(w, n)
    &&& is_mirrored(w)
    &&& is_subgraph(t, w)
    &&& promising(t, w)
    &&& roots.len() == n
    &&& forall|i: int, j: int|
        0 <= i < n && 0 <= j < n && #[trigger] t[i][j] > 0 ==> roots[i] == roots[j]
    &&& forall|i: usize, j: usize|
        i < n && j < n && roots[i as int] == roots[j as int] ==> #[trigger] reachable(t, i, j)
    &&& forall|i: usize, j: usize|
        i < j < n && #[trigger] link(w, i, j) > 0 ==> roots[i as int] == roots[j as int]
            || queue.count((w[i as int][j as int] as u128, i, j)) > 0
    &&& forall|e: Entry| #[trigger]
        queue.count(e) > 0 ==> e.1 < e.2 < n && e.0 == w[e.1 as int][e.2 as int] && e.0 > 0
}

/// The entry that stands for the edge between `a` and `b` in the queue.
pub open spec fn entry_of(w: Seq<Seq<u64>>, a: int, b: int) -> Entry {
    (w[a][b] as u128, a as usize, b as usize)
}

/// Whether the edge between `c` and `d` is tried before the edge between
/// `a` and `b`, where `c < d` and `a < b`: the lighter edge first, and of
/// two equally light ones that with the lower first vertex, or with the
/// lower second vertex where they share the first.
pub open spec fn tried_before(w: Seq<Seq<u64>>, c: int, d: int, a: int, b: int) -> bool {
    entry_le(entry_of(w, c, d), entry_of(w, a, b)) && !(c == a && d == b)
}

/// The graph of the edges of `w` that are tried before the edge between
/// `a` and `b`.
pub open spec fn earlier(w: Seq<Seq<u64>>, a: int, b: int) -> Seq<Seq<u64>> {
    Seq::new(
        w.len(),
        |i: int|
            Seq::new(
                w.len(),
                |j: int|
                    if (i < j && tried_before(w, i, j, a, b)) || (j < i && tried_before(
                        w,
                        j,
                        i,
                        a,
                        b,
                    )) {
                        w[i][j]
                    } else {
                        0u64
                    },
            ),
    )
}

/// Whether `t` holds exactly the edges of `w` that join two vertices not
/// joined by the edges tried before: the forest that is found by trying the
/// edges one by one in their order.
pub open spec fn is_first_forest(t: Seq<Seq<u64>>, w: Seq<Seq<u64>>) -> bool {
    forall|a: int, b: int|
        0 <= a < b < w.len() ==> (#[trigger] t[a][b] > 0 <==> w[a][b] > 0 && !reachable(
            earlier(w, a, b),
            a as usize,
            b as usize,
        ))
}

/// What the order of the edges has to do with the state of the search: no
/// edge is in the queue twice, the edges that have left the queue are tried
/// before those still in it, and an edge that has left the queue was
/// accepted exactly if the edges tried before it did not join its ends.
#[verifier::opaque]
pub open spec fn order_ok(w: Seq<Seq<u64>>, t: Seq<Seq<u64>>, queue: Multiset<Entry>) -> bool {
    let n = w.len();
    &&& forall|e: Entry| #[trigger] queue.count(e) <= 1
    &&& forall|c: int, d: int, a: int, b: int|
        0 <= c < d < n && 0 <= a < b < n && w[c][d] > 0 && w[a][b] > 0 && #[trigger] queue.count(
            entry_of(w, c, d),
        ) == 0 && #[trigger] queue.count(entry_of(w, a, b)) > 0 ==> tried_before(w, c, d, a, b)
    &&& forall|a: int, b: int|
        0 <= a < b < n && #[trigger] t[a][b] > 0 ==> queue.count(entry_of(w, a, b)) == 0
            && !reachable(earlier(w, a, b), a as usize, b as usize)
    &&& forall|a: int, b: int|
        0 <= a < b < n && w[a][b] > 0 && t[a][b] == 0 && #[trigger] queue.count(entry_of(w, a, b))
            == 0 ==> reachable(earlier(w, a, b), a as usize, b as usize)
}

/// Before any edge has been tried, with every edge in the queue once, the
/// order of the edges and the state of the search are in step.
pub proof fn lemma_order_start(w: Seq<Seq<u64>>, queue: Multiset<Entry>)
    requires
        forall|e: Entry| #[trigger] queue.count(e) <= 1,
        forall|a: usize, b: usize|
            a < b < w.len() && #[trigger] link(w, a, b) > 0 ==> queue.count(
                (w[a as int][b as int] as u128, a, b),
            ) > 0,
        w.len() <= usize::MAX,
    ensures
        order_ok(w, zero_matrix(w.len()), queue),
{
    reveal(order_ok);
    let n = w.len();
    assert forall|c: int, d: int, a: int, b: int|
        0 <= c < d < n && 0 <= a < b < n && w[c][d] > 0 && w[a][b] > 0 && #[trigger] queue.count(
            entry_of(w, c, d),
        ) == 0 && #[trigger] queue.count(entry_of(w, a, b)) > 0 implies tried_before(
        w,
        c,
        d,
        a,
        b,
    ) by {
        assert(link(w, c as usize, d as usize) > 0);
    }
    assert forall|a: int, b: int|
        0 <= a < b < n && w[a][b] > 0 && zero_matrix(n)[a][b] == 0 && #[trigger] queue.count(
            entry_of(w, a, b),
        ) == 0 implies reachable(earlier(w, a, b), a as usize, b as usize) by {
        assert(link(w, a as usize, b as usize) > 0);
    }
}

/// Vertices that the accepted edges join are in the same set.
pub proof fn lemma_walk_in_one_set(t: Seq<Seq<u64>>, roots: Seq<int>, p: Seq<usize>)
    requires
        crate::walks::is_walk(t, p),
        roots.len() == t.len(),
        forall|i: int, j: int|
            0 <= i < t.len() && 0 <= j < t.len() && #[trigger] t[i][j] > 0 ==> roots[i] == roots[j],
    ensures
        roots[p[0] as int] == roots[p.last() as int],
    decreases p.len(),
{
    if p.len() > 1 {
        let front = p.drop_last();
        crate::walks::lemma_walk_prefix(t, p, p.len() - 2);
        assert(p.take(p.len() - 1) =~= front);
        lemma_walk_in_one_set(t, roots, front);
        assert(link(t, p[p.len() - 2], p[p.len() - 2 + 1]) > 0);
        assert(t[p[p.len() - 2] as int][p[p.len() - 1] as int] > 0);
    }
}

/// At the time at which the edge between `a` and `b` is first in the queue,
/// its ends are in one set exactly if the edges tried before it join them.
pub proof fn lemma_sets_follow_order(
    w: Seq<Seq<u64>>,
    t: Seq<Seq<u64>>,
    roots: Seq<int>,
    queue: Multiset<Entry>,
    a: int,
    b: int,
)
    requires
        forest_ok(w, t, roots, queue),
        order_ok(w, t, queue),
        0 <= a < b < w.len(),
        w[a][b] > 0,
        queue.count(entry_of(w, a, b)) > 0,
        forall|x: Entry| queue.count(x) > 0 ==> entry_le(entry_of(w, a, b), x),
    ensures
        roots[a] == roots[b] <==> reachable(earlier(w, a, b), a as usize, b as usize),
{
    reveal(forest_ok);
    reveal(order_ok);
    let n = w.len();
    let g = earlier(w, a, b);
    if roots[a] == roots[b] {
        assert(reachable(t, a as usize, b as usize));
        assert(crate::spanning::includes(g, t)) by {
            assert forall|i: int, j: int| 0 <= i < n && 0 <= j < n && #[trigger] t[i][j] > 0 implies g[i][j]
                > 0 by {
                assert(t[i][j] == w[i][j]);
                assert(t[j][i] == t[i][j]);
                assert(w[j][i] == w[i][j]);
                assert(t[i][i] == 0);
                if i < j {
                    assert(queue.count(entry_of(w, i, j)) == 0);
                } else {
                    assert(t[j][i] > 0);
                    assert(queue.count(entry_of(w, j, i)) == 0);
                }
            }
        }
        lemma_reachable_grows(t, g, a as usize, b as usize);
    }
    if reachable(g, a as usize, b as usize) {
        let p = choose|p: Seq<usize>| #[trigger] joins(g, p, a as usize, b as usize);
        assert forall|u: usize, v: usize|
            u < n && v < n && #[trigger] link(g, u, v) > 0 implies reachable(t, u, v) by {
            assert(w[u as int][v as int] == w[v as int][u as int]);
            if u < v {
                assert(tried_before(w, u as int, v as int, a, b));
                assert(link(w, u, v) > 0);
                if queue.count(entry_of(w, u as int, v as int)) > 0 {
                    assert(entry_le(entry_of(w, a, b), entry_of(w, u as int, v as int)));
                }
                assert(roots[u as int] == roots[v as int]);
            } else {
                assert(tried_before(w, v as int, u as int, a, b));
                assert(link(w, v, u) > 0);
                if queue.count(entry_of(w, v as int, u as int)) > 0 {
                    assert(entry_le(entry_of(w, a, b), entry_of(w, v as int, u as int)));
                }
                assert(roots[v as int] == roots[u as int]);
            }
        }
        lemma_reroute(g, t, p);
        let q = choose|q: Seq<usize>| #[trigger] joins(t, q, a as usize, b as usize);
        lemma_walk_in_one_set(t, roots, q);
    }
}

/// Taking the first edge out of the queue, and into the forest exactly if
/// the edges tried before it did not join its ends, keeps the order of the
/// edges and the state of the search in step.
pub proof fn lemma_order_step(
    w: Seq<Seq<u64>>,
    t: Seq<Seq<u64>>,
    accepted: bool,
    queue: Multiset<Entry>,
    a: int,
    b: int,
)
    requires
        w.len() <= usize::MAX,
        is_square(w, w.len()),
        is_square(t, w.len()),
        is_mirrored(t),
        order_ok(w, t, queue),
        0 <= a < b < w.len(),
        w[a][b] > 0,
        queue.count(entry_of(w, a, b)) > 0,
        forall|x: Entry| queue.count(x) > 0 ==> entry_le(entry_of(w, a, b), x),
        forall|e: Entry| #[trigger]
            queue.count(e) > 0 ==> e.1 < e.2 < w.len() && e.0 == w[e.1 as int][e.2 as int],
        accepted <==> !reachable(earlier(w, a, b), a as usize, b as usize),
    ensures
        order_ok(
            w,
            if accepted {
                with_pair(t, a, b, w[a][b])
            } else {
                t
            },
            queue.remove(entry_of(w, a, b)),
        ),
{
    reveal(order_ok);
    let n = w.len();
    let after = if accepted {
        with_pair(t, a, b, w[a][b])
    } else {
        t
    };
    let e = entry_of(w, a, b);
    let rest = queue.remove(e);
    lemma_weight_with_pair(t, n, a, b, w[a][b]);
    assert(t[a][b] == 0);
    assert forall|c: int, d: int, x: int, y: int|
        0 <= c < d < n && 0 <= x < y < n && w[c][d] > 0 && w[x][y] > 0 && #[trigger] rest.count(
            entry_of(w, c, d),
        ) == 0 && #[trigger] rest.count(entry_of(w, x, y)) > 0 implies tried_before(
        w,
        c,
        d,
        x,
        y,
    ) by {
        assert(queue.count(entry_of(w, x, y)) > 0);
        if c == a && d == b {
            assert(entry_le(e, entry_of(w, x, y)));
        } else {
            assert(queue.count(entry_of(w, c, d)) == 0);
        }
    }
    assert forall|x: int, y: int| 0 <= x < y < n && #[trigger] after[x][y] > 0 implies rest.count(
        entry_of(w, x, y),
    ) == 0 && !reachable(earlier(w, x, y), x as usize, y as usize) by {
        if x == a && y == b {
        } else {
            assert(t[x][y] > 0);
        }
    }
    assert forall|x: int, y: int|
        0 <= x < y < n && w[x][y] > 0 && after[x][y] == 0 && #[trigger] rest.count(
            entry_of(w, x, y),
        ) == 0 implies reachable(earlier(w, x, y), x as usize, y as usize) by {
        if x == a && y == b {
        } else {
            assert(t[x][y] == 0);
            assert(queue.count(entry_of(w, x, y)) == 0);
        }
    }
}

/// Once the search has ended, the forest holds exactly the edges that join
/// two vertices not joined by the edges tried before.
pub proof fn lemma_order_done(
    w: Seq<Seq<u64>>,
    t: Seq<Seq<u64>>,
    roots: Seq<int>,
    queue: Multiset<Entry>,
)
    requires
        forest_ok(w, t, roots, queue),
        order_ok(w, t, queue),
        queue.len() == 0 || forall|i: int, j: int|
            0 <= i < roots.len() && 0 <= j < roots.len() ==> roots[i] == roots[j],
    ensures
        is_first_forest(t, w),
{
    reveal(forest_ok);
    reveal(order_ok);
    let n = w.len();
    assert forall|a: int, b: int| 0 <= a < b < n implies (#[trigger] t[a][b] > 0 <==> w[a][b] > 0
        && !reachable(earlier(w, a, b), a as usize, b as usize)) by {
        assert(t[a][b] == 0 || t[a][b] == w[a][b]);
        if t[a][b] == 0 && w[a][b] > 0 {
            if queue.count(entry_of(w, a, b)) > 0 {
                // the search ended before this edge was tried
                let g = earlier(w, a, b);
                assert(roots[a] == roots[b]);
                assert(reachable(t, a as usize, b as usize));
                assert(crate::spanning::includes(g, t)) by {
                    assert forall|i: int, j: int|
                        0 <= i < n && 0 <= j < n && #[trigger] t[i][j] > 0 implies g[i][j] > 0 by {
                        assert(t[i][j] == w[i][j]);
                        assert(t[j][i] == t[i][j]);
                        assert(w[j][i] == w[i][j]);
                        assert(t[i][i] == 0);
                        if i < j {
                            assert(queue.count(entry_of(w, i, j)) == 0);
                        } else {
                            assert(t[j][i] > 0);
                            assert(queue.count(entry_of(w, j, i)) == 0);
                        }
                    }
                }
                lemma_reachable_grows(t, g, a as usize, b as usize);
            }
        }
    }
}

/// Before any edge has been tried, with every edge in the queue and every
/// vertex in a set of its own, the state of the search is in order.
pub proof fn lemma_forest_start(w: Seq<Seq<u64>>, roots: Seq<int>, queue: Multiset<Entry>)
    requires
        w.len() <= usize::MAX,
        is_square(w, w.len()),
        is_mirrored(w),
        roots.len() == w.len(),
        forall|i: int| 0 <= i < roots.len() ==> roots[i] == i,
        forall|a: usize, b: usize|
            a < b < w.len() && #[trigger] link(w, a, b) > 0 ==> queue.count(
                (w[a as int][b as int] as u128, a, b),
            ) > 0,
        forall|e: Entry| #[trigger]
            queue.count(e) > 0 ==> e.1 < e.2 < w.len() && e.0 == w[e.1 as int][e.2 as int] && e.0
                > 0,
    ensures
        forest_ok(w, zero_matrix(w.len()), roots, queue),
{
    reveal(forest_ok);
    lemma_promising_start(w);
    assert forall|a: usize, b: usize|
        a < w.len() && b < w.len() && roots[a as int] == roots[b as int] implies #[trigger] reachable(
        zero_matrix(w.len()),
        a,
        b,
    ) by {
        lemma_reachable_self(zero_matrix(w.len()), a);
    }
}

/// An entry of the queue stands for an edge; and dropping the first entry,
/// where its edge joins no two sets, keeps the state of the search in
/// order.
pub proof fn lemma_forest_entry(
    w: Seq<Seq<u64>>,
    t: Seq<Seq<u64>>,
    roots: Seq<int>,
    queue: Multiset<Entry>,
    e: Entry,
)
    requires
        forest_ok(w, t, roots, queue),
        queue.count(e) > 0,
    ensures
        e.1 < e.2 < w.len(),
        e == entry_of(w, e.1 as int, e.2 as int),
        e.0 > 0,
        roots.len() == w.len(),
        is_square(w, w.len()),
        is_square(t, w.len()),
        is_mirrored(t),
        w.len() <= usize::MAX,
        forall|x: Entry| #[trigger]
            queue.count(x) > 0 ==> x.1 < x.2 < w.len() && x.0 == w[x.1 as int][x.2 as int],
        roots[e.1 as int] == roots[e.2 as int] ==> forest_ok(w, t, roots, queue.remove(e)),
{
    reveal(forest_ok);
    if roots[e.1 as int] == roots[e.2 as int] {
        let rest = queue.remove(e);
        let n = w.len();
        assert forall|i: usize, j: usize| i < j < n && #[trigger] link(w, i, j) > 0 implies roots[i as int]
            == roots[j as int] || rest.count((w[i as int][j as int] as u128, i, j)) > 0 by {
            if roots[i as int] != roots[j as int] {
                assert(queue.count((w[i as int][j as int] as u128, i, j)) > 0);
            }
        }
    }
}

/// Accepting the first edge of the queue, where it joins two sets, keeps
/// the state of the search in order.
pub proof fn lemma_accept(
    w: Seq<Seq<u64>>,
    t: Seq<Seq<u64>>,
    roots: Seq<int>,
    joined: Seq<int>,
    queue: Multiset<Entry>,
    e: Entry,
)
    requires
        forest_ok(w, t, roots, queue),
        queue.count(e) > 0,
        forall|x: Entry| queue.count(x) > 0 ==> entry_le(e, x),
        roots[e.1 as int] != roots[e.2 as int],
        joined.len() == roots.len(),
        forall|i: int, j: int|
            0 <= i < roots.len() && 0 <= j < roots.len() ==> (joined[i] == joined[j] <==> roots[i]
                == roots[j] || (roots[i] == roots[e.1 as int] && roots[j] == roots[e.2 as int]) || (
            roots[i] == roots[e.2 as int] && roots[j] == roots[e.1 as int])),
    ensures
        forest_ok(
            w,
            with_pair(t, e.1 as int, e.2 as int, w[e.1 as int][e.2 as int]),
            joined,
            queue.remove(e),
        ),
{
    reveal(forest_ok);
    let n = w.len();
    let a = e.1;
    let b = e.2;
    let x = w[a as int][b as int];
    let side = Seq::new(n, |i: int| roots[i] == roots[a as int]);
    assert forall|i: int, j: int|
        0 <= i < n && 0 <= j < n && side[i] && !side[j] && #[trigger] w[i][j] > 0 implies x
        <= w[i][j] by {
        assert(w[i][j] == w[j][i]);
        if i < j {
            assert(link(w, i as usize, j as usize) > 0);
            assert(entry_le(e, (w[i][j] as u128, i as usize, j as usize)));
        } else {
            assert(link(w, j as usize, i as usize) > 0);
            assert(entry_le(e, (w[j][i] as u128, j as usize, i as usize)));
        }
    }
    lemma_safe_edge(w, t, side, a, b);
    let t2 = with_pair(t, a as int, b as int, x);
    lemma_weight_with_pair(t, n, a as int, b as int, x);
    assert forall|i: int, j: int| 0 <= i < n && 0 <= j < n && #[trigger] t2[i][j] > 0 implies joined[i]
        == joined[j] by {
        if (i == a && j == b) || (i == b && j == a) {
        } else {
            assert(t[i][j] > 0);
        }
    }
    assert(crate::spanning::includes(t2, t)) by {
        assert forall|i: int, j: int| 0 <= i < n && 0 <= j < n && #[trigger] t[i][j] > 0 implies t2[i][j]
            > 0 by {
            assert(roots[i] == roots[j]);
        }
    }
    lemma_edge_reachable(t2, a, b);
    lemma_reachable_sym(t2, a, b);
    assert forall|i: usize, j: usize|
        i < n && j < n && joined[i as int] == joined[j as int] implies #[trigger] reachable(
        t2,
        i,
        j,
    ) by {
        if roots[i as int] == roots[j as int] {
            assert(reachable(t, i, j));
            lemma_reachable_grows(t, t2, i, j);
        } else if roots[i as int] == roots[a as int] {
            assert(reachable(t, i, a));
            assert(reachable(t, b, j));
            lemma_reachable_grows(t, t2, i, a);
            lemma_reachable_grows(t, t2, b, j);
            lemma_reachable_trans(t2, i, a, b);
            lemma_reachable_trans(t2, i, b, j);
        } else {
            assert(reachable(t, i, b));
            assert(reachable(t, a, j));
            lemma_reachable_grows(t, t2, i, b);
            lemma_reachable_grows(t, t2, a, j);
            lemma_reachable_trans(t2, i, b, a);
            lemma_reachable_trans(t2, i, a, j);
        }
    }
    let rest = queue.remove(e);
    assert forall|i: usize, j: usize| i < j < n && #[trigger] link(w, i, j) > 0 implies joined[i as int]
        == joined[j as int] || rest.count((w[i as int][j as int] as u128, i, j)) > 0 by {
        if roots[i as int] != roots[j as int] && !(i == a && j == b) {
            assert(queue.count((w[i as int][j as int] as u128, i, j)) > 0);
        }
    }
}

/// Once every edge has been looked at, or all vertices are joined, the
/// accepted edges are a lightest spanning forest.
pub proof fn lemma_forest_done(
    w: Seq<Seq<u64>>,
    t: Seq<Seq<u64>>,
    roots: Seq<int>,
    queue: Multiset<Entry>,
)
    requires
        forest_ok(w, t, roots, queue),
        queue.len() == 0 || forall|i: int, j: int|
            0 <= i < roots.len() && 0 <= j < roots.len() ==> roots[i] == roots[j],
    ensures
        is_min_spanning(t, w),
{
    reveal(forest_ok);
    let n = w.len();
    assert forall|u: usize, v: usize|
        u < n && v < n && #[trigger] link(w, u, v) > 0 implies reachable(t, u, v) by {
        assert(w[u as int][v as int] == w[v as int][u as int]);
        if queue.len() != 0 {
            assert(roots[u as int] == roots[v as int]);
            assert(reachable(t, u, v));
        } else if u < v {
            assert(queue.count((w[u as int][v as int] as u128, u, v)) == 0);
            assert(reachable(t, u, v));
        } else if v < u {
            assert(link(w, v, u) > 0);
            assert(queue.count((w[v as int][u as int] as u128, v, u)) == 0);
            assert(reachable(t, v, u));
            lemma_reachable_sym(t, v, u);
        } else {
            lemma_reachable_self(t, u);
        }
    }
    assert(spans(t, w)) by {
        assert forall|c: usize, d: usize| #[trigger] reachable(w, c, d) implies reachable(
            t,
            c,
            d,
        ) by {
            let q = choose|q: Seq<usize>| #[trigger] joins(w, q, c, d);
            lemma_reroute(w, t, q);
        }
    }
    lemma_promising_end(w, t);
}

/// A queue with every edge between a lower and a higher vertex, once.
pub fn edge_queue(m: &Vec<Vec<u64>>) -> (queue: MinQueue)
    requires
        is_square(matrix_view(m@), m.len() as nat),
    ensures
        forall|a: usize, b: usize|
            a < b < m.len() && #[trigger] link(matrix_view(m@), a, b) > 0 ==> queue@.count(
                (matrix_view(m@)[a as int][b as int] as u128, a, b),
            ) > 0,
        forall|e: Entry| #[trigger]
            queue@.count(e) > 0 ==> e.1 < e.2 < m.len() && e.0 == matrix_view(
                m@,
            )[e.1 as int][e.2 as int] && e.0 > 0,
        forall|e: Entry| #[trigger] queue@.count(e) <= 1,
{
    let n: usize = m.len();
    let ghost w = matrix_view(m@);
    let mut queue = MinQueue::new();
    let mut i: usize = 0;
    while i < n
        invariant
            i <= n,
            n == m.len(),
            w == matrix_view(m@),
            is_square(w, n as nat),
            forall|a: usize, b: usize|
                a < b < n && a < i && #[trigger] link(w, a, b) > 0 ==> queue@.count(
                    (w[a as int][b as int] as u128, a, b),
                ) > 0,
            forall|e: Entry| #[trigger]
                queue@.count(e) > 0 ==> e.1 < e.2 < n && e.0 == w[e.1 as int][e.2 as int] && e.0
                    > 0,
            forall|e: Entry| #[trigger] queue@.count(e) <= 1,
            forall|e: Entry| #[trigger] queue@.count(e) > 0 ==> e.1 < i,
        decreases n - i,
    {
        let mut j: usize = i + 1;
        while j < n
            invariant
                i < j <= n,
                n == m.len(),
                w == matrix_view(m@),
                is_square(w, n as nat),
                forall|a: usize, b: usize|
                    a < b < n && (a < i || (a == i && b < j)) && #[trigger] link(w, a, b) > 0
                        ==> queue@.count((w[a as int][b as int] as u128, a, b)) > 0,
                forall|e: Entry| #[trigger]
                    queue@.count(e) > 0 ==> e.1 < e.2 < n && e.0 == w[e.1 as int][e.2 as int]
                        && e.0 > 0,
                forall|e: Entry| #[trigger] queue@.count(e) <= 1,
                forall|e: Entry| #[trigger] queue@.count(e) > 0 ==> e.1 < i || (e.1 == i && e.2 < j),
            decreases n - j,
        {
            assert(w[i as int].len() == n);
            if m[i][j] > 0 {
                queue.push((m[i][j] as u128, i, j));
            }
            j += 1;
        }
        i += 1;
    }
    queue
}

/// The weight matrix of a lightest spanning forest of the undirected graph
/// with weight matrix `m`. The edges are tried in ascending order of weight
/// and, among equal weights, of their lower and then their higher vertex,
/// until all vertices are joined or no edge is left.
pub fn spanning_forest(m: &Vec<Vec<u64>>) -> (out: Vec<Vec<u64>>)
    requires
        is_square(matrix_view(m@), m.len() as nat),
        is_mirrored(matrix_view(m@)),
    ensures
        is_min_spanning(matrix_view(out@), matrix_view(m@)),
        is_first_forest(matrix_view(out@), matrix_view(m@)),
{
    let n: usize = m.len();
    let ghost w = matrix_view(m@);
    let mut queue = edge_queue(m);
    let mut forest = Forest::new(n);
    let mut out: Vec<Vec<u64>> = zero_rows(n);
    proof {
        lemma_forest_start(w, Seq::new(n as nat, |k: int| forest.root(k)), queue@);
        lemma_order_start(w, queue@);
    }
    loop
        invariant
            n == m.len(),
            w == matrix_view(m@),
            is_square(w, n as nat),
            forest.wf(),
            forest.size() == n,
            forest_ok(w, matrix_view(out@), Seq::new(n as nat, |k: int| forest.root(k)), queue@),
            order_ok(w, matrix_view(out@), queue@),
        ensures
            forest.wf(),
            forest.size() == n,
            forest_ok(w, matrix_view(out@), Seq::new(n as nat, |k: int| forest.root(k)), queue@),
            order_ok(w, matrix_view(out@), queue@),
            queue@.len() == 0 || forest.sets() == 1,
        decreases queue@.len(),
    {
        if forest.num_sets() == 1 {
            break ;
        }
        let ghost before = queue@;
        let ghost roots = Seq::new(n as nat, |k: int| forest.root(k));
        let ghost t = matrix_view(out@);
        let e = match queue.pop() {
            Some(e) => e,
            None => { break ; },
        };
        let a: usize = e.1;
        let b: usize = e.2;
        proof {
            lemma_forest_entry(w, t, roots, before, e);
            lemma_sets_follow_order(w, t, roots, before, a as int, b as int);
        }
        if forest.find(a) != forest.find(b) {
            let ghost old_forest = forest;
            forest.union(a, b);
            let ghost joined = Seq::new(n as nat, |k: int| forest.root(k));
            proof {
                assert forall|i: int, j: int| 0 <= i < n && 0 <= j < n implies (joined[i]
                    == joined[j] <==> roots[i] == roots[j] || (roots[i] == roots[a as int]
                    && roots[j] == roots[b as int]) || (roots[i] == roots[b as int] && roots[j]
                    == roots[a as int])) by {
                    assert(forest.same_set(i, j) <==> old_forest.same_set(i, j) || (
                    old_forest.same_set(i, a as int) && old_forest.same_set(j, b as int)) || (
                    old_forest.same_set(i, b as int) && old_forest.same_set(j, a as int)));
                }
                lemma_accept(w, t, roots, joined, before, e);
                assert(w[a as int].len() == n);
                lemma_order_step(w, t, true, before, a as int, b as int);
            }
            write_pair(&mut out, a, b, m[a][b]);
        } else {
            proof {
                lemma_order_step(w, t, false, before, a as int, b as int);
            }
        }
    }
    proof {
        let roots = Seq::new(n as nat, |k: int| forest.root(k));
        if queue@.len() != 0 {
            assert forall|i: int, j: int|
                0 <= i < roots.len() && 0 <= j < roots.len() implies roots[i] == roots[j] by {
                forest.lemma_one_set(i, j);
            }
        }
        lemma_forest_done(w, matrix_view(out@), roots, queue@);
        lemma_order_done(w, matrix_view(out@), roots, queue@);
    }
    out
}

impl<V: Clone> Graph<V> {
    /// A lightest spanning forest of this undirected graph: a graph on the
    /// same vertices that keeps some of the edges, joins all vertices that
    /// this graph joins, and has the least total weight of all such graphs.
    /// On a connected graph that is a minimum spanning tree. Of several
    /// lightest forests it is the one found by trying the edges in ascending
    /// order of weight, equally light ones in the order of their vertices.
    pub fn get_mst_kruskal(&self) -> (r: Result<Graph<V>, GraphError>)
        ensures
            !self.squared() ==> r is Err && r->Err_0 == GraphError::NotSquare,
            self.squared() && !self.symmetric() ==> r is Err && r->Err_0
                == GraphError::NotSymmetric,
            self.symmetric() ==> r is Ok && same_labels(self.labels(), r->Ok_0.labels())
                && is_min_spanning(r->Ok_0.weights(), self.weights()) && is_first_forest(
                r->Ok_0.weights(),
                self.weights(),
            ),
    {
        if !self.is_squared() {
            return Err(GraphError::NotSquare);
        }
        if !self.is_symmetric() {
            return Err(GraphError::NotSymmetric);
        }
        let tree = spanning_forest(self.get_adjacency_matrix());
        Ok(self.with_matrix(tree))
    }
}

} // verus!
