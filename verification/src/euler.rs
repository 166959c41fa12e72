use vstd::prelude::*;
use crate::error::GraphError;
use crate::graph::{is_mirrored, is_square, matrix_view, with_cell, Graph};
use crate::marks::{lemma_all_set, lemma_none_unset};
use crate::matching::{chosen, mark_members};
use crate::route::{in_range, link};
use crate::spanning::{
    lemma_reachable_sym, lemma_reachable_trans, lemma_row_sum_update, row_sum, with_pair,
};
use crate::walks::{
    connected, is_walk, joins, lemma_first_unmarked, lemma_walk_prefix, reachable,
};

verus! {

/// Whether the step from `x` to `y` runs along an edge between `a` and `b`.
pub open spec fn is_step(x: usize, y: usize, a: int, b: int) -> bool {
    (x == a && y == b) || (x == b && y == a)
}

/// How often the walk `p` runs along an edge between `a` and `b`, in either
/// direction.
pub open spec fn passes(p: Seq<usize>, a: int, b: int) -> int
    decreases p.len(),
{
    if p.len() <= 1 {
        0
    } else {
        passes(p.drop_last(), a, b) + if is_step(p[p.len() - 2], p[p.len() - 1], a, b) {
            1int
        } else {
            0int
        }
    }
}

/// The number of edge ends at `v` that lead to other vertices, in the
/// multigraph whose cell `(a, b)` tells how many edges join `a` and `b`.
pub open spec fn cross_degree(g: Seq<Seq<u64>>, v: int) -> int {
    row_sum(g[v], g[v].len() as int) - g[v][v]
}

/// Whether no edge is left at `v`.
pub open spec fn is_spent(g: Seq<Seq<u64>>, v: int) -> bool {
    forall|j: int| 0 <= j < g.len() ==> g[v][j] == 0
}

/// Whether an even number of edge ends meet at every vertex.
pub open spec fn all_even(g: Seq<Seq<u64>>) -> bool {
    forall|v: int| 0 <= v < g.len() ==> #[trigger] cross_degree(g, v) % 2 == 0
}

/// Whether `p` is a closed walk in the multigraph `g` that runs along every
/// edge exactly once and visits every vertex.
pub open spec fn is_eulerian(g: Seq<Seq<u64>>, p: Seq<usize>) -> bool {
    &&& in_range(p, g.len())
    &&& g.len() > 0 ==> p.len() > 0 && p[0] == p.last()
    &&& forall|v: usize| v < g.len() ==> #[trigger] p.contains(v)
    &&& forall|a: int, b: int|
        0 <= a < g.len() && 0 <= b < g.len() ==> #[trigger] passes(p, a, b) == g[a][b]
}

/// The sum of all cells in the first `i` rows of `g`.
pub open spec fn mass(g: Seq<Seq<u64>>, i: int) -> int
    decreases i,
{
    if i <= 0 {
        0
    } else {
        mass(g, i - 1) + row_sum(g[i - 1], g[i - 1].len() as int)
    }
}

/// The multigraph `g` without one of the edges between `a` and `b`.
pub open spec fn without_edge(g: Seq<Seq<u64>>, a: int, b: int) -> Seq<Seq<u64>> {
    if a == b {
        with_cell(g, a, a, (g[a][a] - 1) as u64)
    } else {
        with_pair(g, a, b, (g[a][b] - 1) as u64)
    }
}

/// The multigraph with one edge for each edge of `w`.
pub open spec fn unit(w: Seq<Seq<u64>>) -> Seq<Seq<u64>> {
    Seq::new(
        w.len(),
        |i: int|
            Seq::new(
                w[i].len(),
                |j: int|
                    if w[i][j] > 0 {
                        1u64
                    } else {
                        0u64
                    },
            ),
    )
}

/// A walk runs along an edge no less than never.
pub proof fn lemma_passes_nonneg(p: Seq<usize>, a: int, b: int)
    ensures
        passes(p, a, b) >= 0,
    decreases p.len(),
{
    if p.len() > 1 {
        lemma_passes_nonneg(p.drop_last(), a, b);
    }
}

/// What a walk made of two walks runs along is what both run along.
pub proof fn lemma_passes_join(x: Seq<usize>, y: Seq<usize>, a: int, b: int)
    requires
        x.len() > 0,
        y.len() > 0,
        x.last() == y[0],
    ensures
        passes(x + y.skip(1), a, b) == passes(x, a, b) + passes(y, a, b),
    decreases y.len(),
{
    if y.len() == 1 {
        assert(x + y.skip(1) =~= x);
    } else {
        let front = y.drop_last();
        lemma_passes_join(x, front, a, b);
        let whole = x + y.skip(1);
        assert(whole.drop_last() =~= x + front.skip(1));
        if y.len() == 2 {
            assert(whole[whole.len() - 2] == x.last());
        } else {
            assert(whole[whole.len() - 2] == y[y.len() - 2]);
        }
    }
}

/// A walk that runs along an edge visits both ends of it.
pub proof fn lemma_passes_member(p: Seq<usize>, a: int, b: int)
    requires
        passes(p, a, b) > 0,
    ensures
        exists|k: int| 0 <= k < p.len() && p[k] == a,
        exists|k: int| 0 <= k < p.len() && p[k] == b,
    decreases p.len(),
{
    if p.len() > 1 {
        if is_step(p[p.len() - 2], p[p.len() - 1], a, b) {
            assert(p[p.len() - 2] == a || p[p.len() - 1] == a);
            assert(p[p.len() - 2] == b || p[p.len() - 1] == b);
        } else {
            lemma_passes_member(p.drop_last(), a, b);
            let k = choose|k: int| 0 <= k < p.drop_last().len() && p.drop_last()[k] == a;
            assert(p[k] == a);
            let k2 = choose|k: int| 0 <= k < p.drop_last().len() && p.drop_last()[k] == b;
            assert(p[k2] == b);
        }
    }
}

/// A walk runs at least once along the edge of each of its steps.
pub proof fn lemma_passes_step(p: Seq<usize>, k: int)
    requires
        0 <= k < p.len() - 1,
    ensures
        passes(p, p[k] as int, p[k + 1] as int) >= 1,
    decreases p.len(),
{
    if k == p.len() - 2 {
        lemma_passes_nonneg(p.drop_last(), p[k] as int, p[k + 1] as int);
    } else {
        lemma_passes_step(p.drop_last(), k);
    }
}

/// Writing one cell changes the sum of all cells by the difference.
pub proof fn lemma_mass_update(g: Seq<Seq<u64>>, n: nat, a: int, b: int, x: u64, i: int)
    requires
        is_square(g, n),
        0 <= a < n,
        0 <= b < n,
        0 <= i <= n,
    ensures
        mass(with_cell(g, a, b, x), i) == if a < i {
            mass(g, i) - g[a][b] + x
        } else {
            mass(g, i)
        },
        mass(g, i) >= 0,
    decreases i,
{
    if i > 0 {
        lemma_mass_update(g, n, a, b, x, i - 1);
        assert(g[a].len() == n);
        assert(g[i - 1].len() == n);
        crate::matching::lemma_row_sum_by_count(g[i - 1], n as int);
        if a == i - 1 {
            lemma_row_sum_update(g[a], b, x, n as int);
        } else {
            assert(with_cell(g, a, b, x)[i - 1] == g[i - 1]);
        }
    }
}

/// What taking one edge away does to the cells, to the number of edge ends
/// at each vertex, and to the sum of all cells.
pub proof fn lemma_without_edge(g: Seq<Seq<u64>>, n: nat, a: int, b: int)
    requires
        is_square(g, n),
        is_mirrored(g),
        0 <= a < n,
        0 <= b < n,
        g[a][b] > 0,
    ensures
        is_square(without_edge(g, a, b), n),
        is_mirrored(without_edge(g, a, b)),
        forall|i: int, j: int|
            0 <= i < n && 0 <= j < n ==> #[trigger] without_edge(g, a, b)[i][j] == g[i][j] - if (i
                == a && j == b) || (i == b && j == a) {
                1int
            } else {
                0int
            },
        forall|v: int|
            0 <= v < n ==> #[trigger] cross_degree(without_edge(g, a, b), v) == cross_degree(g, v)
                - if a != b && (v == a || v == b) {
                1int
            } else {
                0int
            },
        mass(without_edge(g, a, b), n as int) < mass(g, n as int),
        mass(without_edge(g, a, b), n as int) >= 0,
{
    let h = without_edge(g, a, b);
    let x = (g[a][b] - 1) as u64;
    assert(g[a].len() == n && g[b].len() == n);
    assert(g[b][a] == g[a][b]);
    if a == b {
        lemma_mass_update(g, n, a, a, x, n as int);
        lemma_mass_update(h, n, a, a, x, n as int);
        assert forall|i: int| 0 <= i < n implies (#[trigger] h[i]).len() == n by {
            assert(g[i].len() == n);
        }
        assert forall|i: int, j: int| 0 <= i < n && 0 <= j < n implies #[trigger] h[i][j] == g[i][j]
            - if (i == a && j == b) || (i == b && j == a) {
            1int
        } else {
            0int
        } by {
            assert(g[i].len() == n);
        }
        assert forall|v: int| 0 <= v < n implies #[trigger] cross_degree(h, v) == cross_degree(
            g,
            v,
        ) by {
            assert(g[v].len() == n);
            if v == a {
                lemma_row_sum_update(g[a], a, x, n as int);
            } else {
                assert(h[v] == g[v]);
            }
        }
    } else {
        let u = with_cell(g, a, b, x);
        crate::spanning::lemma_weight_with_pair(g, n, a, b, x);
        crate::matching::lemma_with_pair_rows(g, n, a, b, x);
        lemma_mass_update(g, n, a, b, x, n as int);
        assert(is_square(u, n)) by {
            assert forall|i: int| 0 <= i < n implies (#[trigger] u[i]).len() == n by {
                assert(g[i].len() == n);
            }
        }
        assert(u[b] == g[b]);
        lemma_mass_update(u, n, b, a, x, n as int);
        lemma_mass_update(h, n, a, b, x, n as int);
        assert forall|v: int| 0 <= v < n implies #[trigger] cross_degree(h, v) == cross_degree(g, v)
            - if a != b && (v == a || v == b) {
            1int
        } else {
            0int
        } by {
            assert(g[v].len() == n);
            if v == a {
                lemma_row_sum_update(g[a], b, x, n as int);
            } else if v == b {
                lemma_row_sum_update(g[b], a, x, n as int);
            }
        }
    }
}

/// The first vertex to which an edge leads from `v`, if there is one.
pub fn first_edge(g: &Vec<Vec<u64>>, v: usize) -> (r: Option<usize>)
    requires
        is_square(matrix_view(g@), g.len() as nat),
        v < g.len(),
    ensures
        r is None ==> forall|j: int| 0 <= j < g.len() ==> matrix_view(g@)[v as int][j] == 0,
        r is Some ==> r->Some_0 < g.len() && matrix_view(g@)[v as int][r->Some_0 as int] > 0,
{
    let n: usize = g.len();
    assert(matrix_view(g@)[v as int].len() == n);
    let mut j: usize = 0;
    while j < n
        invariant
            j <= n,
            v < n,
            n == g.len(),
            g[v as int].len() == n,
            forall|c: int| 0 <= c < j ==> matrix_view(g@)[v as int][c] == 0,
        decreases n - j,
    {
        if g[v][j] > 0 {
            return Some(j);
        }
        j += 1;
    }
    None
}

/// Takes one of the edges between `a` and `b` away.
pub fn take_edge(g: &mut Vec<Vec<u64>>, a: usize, b: usize)
    requires
        is_square(matrix_view(old(g)@), old(g).len() as nat),
        is_mirrored(matrix_view(old(g)@)),
        a < old(g).len(),
        b < old(g).len(),
        matrix_view(old(g)@)[a as int][b as int] > 0,
    ensures
        final(g).len() == old(g).len(),
        matrix_view(final(g)@) == without_edge(matrix_view(old(g)@), a as int, b as int),
{
    let ghost before = matrix_view(g@);
    assert(before[a as int].len() == g.len());
    assert(before[b as int].len() == g.len());
    assert(before[b as int][a as int] == before[a as int][b as int]);
    let x: u64 = g[a][b] - 1;
    g[a][b] = x;
    if a != b {
        g[b][a] = x;
    }
    assert(matrix_view(g@) =~= without_edge(before, a as int, b as int));
}

/// Walks from `v` along edges not used before until no edge is left to go
/// on with, takes these edges out of `rem`, and returns the walk. Where an
/// even number of edge ends meet at every vertex the walk ends at `v`.
pub fn closed_trail(rem: &mut Vec<Vec<u64>>, v: usize) -> (trail: Vec<usize>)
    requires
        is_square(matrix_view(old(rem)@), old(rem).len() as nat),
        is_mirrored(matrix_view(old(rem)@)),
        all_even(matrix_view(old(rem)@)),
        v < old(rem).len(),
    ensures
        final(rem).len() == old(rem).len(),
        is_square(matrix_view(final(rem)@), old(rem).len() as nat),
        is_mirrored(matrix_view(final(rem)@)),
        all_even(matrix_view(final(rem)@)),
        trail.len() > 0,
        trail@[0] == v,
        trail@.last() == v,
        in_range(trail@, old(rem).len() as nat),
        forall|a: int, b: int|
            0 <= a < old(rem).len() && 0 <= b < old(rem).len() ==> #[trigger] passes(trail@, a, b)
                + matrix_view(final(rem)@)[a][b] == matrix_view(old(rem)@)[a][b],
        forall|j: int| 0 <= j < old(rem).len() ==> matrix_view(final(rem)@)[v as int][j] == 0,
        mass(matrix_view(final(rem)@), old(rem).len() as int) + trail.len() - 1 <= mass(
            matrix_view(old(rem)@),
            old(rem).len() as int,
        ),
        mass(matrix_view(final(rem)@), old(rem).len() as int) >= 0,
{
    let n: usize = rem.len();
    let ghost start = matrix_view(rem@);
    let mut trail: Vec<usize> = Vec::new();
    trail.push(v);
    let mut at: usize = v;
    proof {
        lemma_mass_update(start, n as nat, 0, 0, 0u64, n as int);
    }
    loop
        invariant
            n == rem.len(),
            v < n,
            at < n,
            is_square(start, n as nat),
            is_square(matrix_view(rem@), n as nat),
            is_mirrored(matrix_view(rem@)),
            trail.len() > 0,
            trail@[0] == v,
            trail@.last() == at,
            in_range(trail@, n as nat),
            forall|a: int, b: int|
                0 <= a < n && 0 <= b < n ==> #[trigger] passes(trail@, a, b) + matrix_view(
                    rem@,
                )[a][b] == start[a][b],
            forall|u: int|
                0 <= u < n ==> #[trigger] cross_degree(matrix_view(rem@), u) % 2 == if at != v && (u
                    == at || u == v) {
                    1int
                } else {
                    0int
                },
            mass(matrix_view(rem@), n as int) + trail.len() - 1 <= mass(start, n as int),
            mass(matrix_view(rem@), n as int) >= 0,
        ensures
            n == rem.len(),
            at == v,
            is_square(matrix_view(rem@), n as nat),
            is_mirrored(matrix_view(rem@)),
            all_even(matrix_view(rem@)),
            trail.len() > 0,
            trail@[0] == v,
            trail@.last() == v,
            in_range(trail@, n as nat),
            forall|a: int, b: int|
                0 <= a < n && 0 <= b < n ==> #[trigger] passes(trail@, a, b) + matrix_view(
                    rem@,
                )[a][b] == start[a][b],
            forall|j: int| 0 <= j < n ==> matrix_view(rem@)[v as int][j] == 0,
            mass(matrix_view(rem@), n as int) + trail.len() - 1 <= mass(start, n as int),
            mass(matrix_view(rem@), n as int) >= 0,
        decreases mass(matrix_view(rem@), n as int),
    {
        let ghost g = matrix_view(rem@);
        let next: usize = match first_edge(rem, at) {
            Some(j) => j,
            None => {
                proof {
                    assert(g[at as int].len() == n);
                    lemma_zero_row(g[at as int], n as int);
                    assert(cross_degree(g, at as int) == 0);
                }
                break ;
            },
        };
        let ghost walked = trail@;
        proof {
            lemma_without_edge(g, n as nat, at as int, next as int);
        }
        take_edge(rem, at, next);
        trail.push(next);
        proof {
            let h = matrix_view(rem@);
            assert(trail@.drop_last() =~= walked);
            assert forall|a: int, b: int| 0 <= a < n && 0 <= b < n implies #[trigger] passes(
                trail@,
                a,
                b,
            ) + h[a][b] == start[a][b] by {
                assert(passes(walked, a, b) + g[a][b] == start[a][b]);
            }
            assert forall|u: int| 0 <= u < n implies #[trigger] cross_degree(h, u) % 2 == if next
                != v && (u == next || u == v) {
                1int
            } else {
                0int
            } by {
                assert(cross_degree(g, u) % 2 == if at != v && (u == at || u == v) {
                    1int
                } else {
                    0int
                });
            }
        }
        at = next;
    }
    trail
}

/// A row of zeros sums to zero.
pub proof fn lemma_zero_row(row: Seq<u64>, k: int)
    requires
        0 <= k <= row.len(),
        forall|j: int| 0 <= j < k ==> row[j] == 0,
    ensures
        row_sum(row, k) == 0,
    decreases k,
{
    if k > 0 {
        lemma_zero_row(row, k - 1);
    }
}

/// Whether an odd number of edge ends meet at `v`.
pub fn has_odd_degree(g: &Vec<Vec<u64>>, v: usize) -> (odd: bool)
    requires
        is_square(matrix_view(g@), g.len() as nat),
        v < g.len(),
    ensures
        odd == (cross_degree(matrix_view(g@), v as int) % 2 == 1),
{
    let n: usize = g.len();
    assert(matrix_view(g@)[v as int].len() == n);
    let mut odd: bool = false;
    let mut j: usize = 0;
    while j < n
        invariant
            j <= n,
            v < n,
            n == g.len(),
            g[v as int].len() == n,
            odd == ((row_sum(g[v as int]@, j as int) - if v < j {
                g[v as int][v as int] as int
            } else {
                0int
            }) % 2 == 1),
        decreases n - j,
    {
        if j != v && g[v][j] % 2 == 1 {
            odd = !odd;
        }
        j += 1;
    }
    odd
}

/// A copy of the matrix `g`.
pub fn copy_rows(g: &Vec<Vec<u64>>) -> (out: Vec<Vec<u64>>)
    ensures
        matrix_view(out@) == matrix_view(g@),
        out.len() == g.len(),
{
    let mut out: Vec<Vec<u64>> = Vec::new();
    let mut i: usize = 0;
    while i < g.len()
        invariant
            i <= g.len(),
            out.len() == i,
            forall|k: int| 0 <= k < i ==> (#[trigger] out[k])@ == g[k]@,
        decreases g.len() - i,
    {
        let mut row: Vec<u64> = Vec::new();
        let mut j: usize = 0;
        while j < g[i].len()
            invariant
                i < g.len(),
                j <= g[i as int].len(),
                row@ == g[i as int]@.take(j as int),
            decreases g[i as int].len() - j,
        {
            row.push(g[i][j]);
            assert(row@ =~= g[i as int]@.take(j + 1));
            j += 1;
        }
        assert(row@ =~= g[i as int]@);
        out.push(row);
        i += 1;
    }
    assert(matrix_view(out@) =~= matrix_view(g@));
    out
}

/// The walk `walk` with the closed walk `trail`, which starts and ends at
/// the vertex at place `p`, put in at that place.
pub fn splice(walk: &Vec<usize>, p: usize, trail: &Vec<usize>) -> (out: Vec<usize>)
    requires
        p < walk.len(),
        trail.len() > 0,
        trail@[0] == walk@[p as int],
        trail@.last() == walk@[p as int],
    ensures
        out@ == walk@.take(p + 1) + trail@.skip(1) + walk@.skip(p + 1),
{
    let mut out: Vec<usize> = Vec::new();
    let mut i: usize = 0;
    while i <= p
        invariant
            i <= p + 1,
            p < walk.len(),
            out@ == walk@.take(i as int),
        decreases p + 1 - i,
    {
        out.push(walk[i]);
        assert(out@ =~= walk@.take(i + 1));
        i += 1;
    }
    let mut j: usize = 1;
    while j < trail.len()
        invariant
            1 <= j <= trail.len(),
            out@ == walk@.take(p + 1) + trail@.subrange(1, j as int),
        decreases trail.len() - j,
    {
        out.push(trail[j]);
        assert(out@ =~= walk@.take(p + 1) + trail@.subrange(1, j + 1));
        j += 1;
    }
    assert(trail@.subrange(1, trail.len() as int) =~= trail@.skip(1));
    let mut k: usize = p + 1;
    while k < walk.len()
        invariant
            p + 1 <= k <= walk.len(),
            out@ == walk@.take(p + 1) + trail@.skip(1) + walk@.subrange(p + 1, k as int),
        decreases walk.len() - k,
    {
        out.push(walk[k]);
        assert(out@ =~= walk@.take(p + 1) + trail@.skip(1) + walk@.subrange(p + 1, k + 1));
        k += 1;
    }
    assert(walk@.subrange(p + 1, walk.len() as int) =~= walk@.skip(p + 1));
    out
}

/// What a walk runs along after a closed walk has been put in at one of
/// its places.
pub proof fn lemma_passes_splice(walk: Seq<usize>, p: int, trail: Seq<usize>, a: int, b: int)
    requires
        0 <= p < walk.len(),
        trail.len() > 0,
        trail[0] == walk[p],
        trail.last() == walk[p],
    ensures
        passes(walk.take(p + 1) + trail.skip(1) + walk.skip(p + 1), a, b) == passes(walk, a, b)
            + passes(trail, a, b),
{
    let x = walk.take(p + 1);
    let y = walk.skip(p);
    assert(y.skip(1) =~= walk.skip(p + 1));
    assert(x + y.skip(1) =~= walk);
    lemma_passes_join(x, y, a, b);
    lemma_passes_join(x, trail, a, b);
    let xt = x + trail.skip(1);
    assert(xt.last() == walk[p]);
    lemma_passes_join(xt, y, a, b);
}

/// A closed walk through the multigraph `g` that runs along every edge
/// exactly once, from vertex 0, built by walking until no edge is left to go
/// on with and by putting further closed walks in at vertices of the walk
/// found so far that still have edges not used. `None` unless an even
/// number of edge ends meet at every vertex and the graph is connected.
pub fn euler_walk(g: &Vec<Vec<u64>>) -> (out: Option<Vec<usize>>)
    requires
        is_square(matrix_view(g@), g.len() as nat),
        is_mirrored(matrix_view(g@)),
    ensures
        out is Some <==> all_even(matrix_view(g@)) && connected(matrix_view(g@)),
        out is Some ==> is_eulerian(matrix_view(g@), out->Some_0@),
        out is Some && g.len() > 0 ==> out->Some_0@[0] == 0,
{
    let n: usize = g.len();
    let ghost w = matrix_view(g@);
    if n == 0 {
        let empty: Vec<usize> = Vec::new();
        assert(connected(w));
        return Some(empty);
    }
    let mut v: usize = 0;
    while v < n
        invariant
            v <= n,
            n == g.len(),
            w == matrix_view(g@),
            is_square(w, n as nat),
            forall|u: int| 0 <= u < v ==> #[trigger] cross_degree(w, u) % 2 == 0,
        decreases n - v,
    {
        if has_odd_degree(g, v) {
            return None;
        }
        v += 1;
    }
    let mut rem: Vec<Vec<u64>> = copy_rows(g);
    let mut walk: Vec<usize> = Vec::new();
    walk.push(0);
    let mut p: usize = 0;
    proof {
        lemma_mass_update(w, n as nat, 0, 0, 0u64, n as int);
        assert forall|a: int, b: int| 0 <= a < n && 0 <= b < n implies #[trigger] passes(
            walk@,
            a,
            b,
        ) + matrix_view(rem@)[a][b] == w[a][b] by {}
    }
    while p < walk.len()
        invariant
            n == g.len(),
            n == rem.len(),
            n > 0,
            w == matrix_view(g@),
            is_square(w, n as nat),
            is_mirrored(w),
            all_even(w),
            is_square(matrix_view(rem@), n as nat),
            is_mirrored(matrix_view(rem@)),
            all_even(matrix_view(rem@)),
            walk.len() > 0,
            walk@[0] == 0,
            walk@[0] == walk@.last(),
            in_range(walk@, n as nat),
            p <= walk.len(),
            forall|a: int, b: int|
                0 <= a < n && 0 <= b < n ==> #[trigger] passes(walk@, a, b) + matrix_view(
                    rem@,
                )[a][b] == w[a][b],
            forall|q: int| 0 <= q < p ==> #[trigger] is_spent(matrix_view(rem@), walk@[q] as int),
            mass(matrix_view(rem@), n as int) >= 0,
        decreases mass(matrix_view(rem@), n as int) + walk.len() - p,
    {
        let ghost before = matrix_view(rem@);
        let ghost old_walk = walk@;
        let at: usize = walk[p];
        let trail = closed_trail(&mut rem, at);
        let longer = splice(&walk, p, &trail);
        proof {
            let h = matrix_view(rem@);
            assert forall|a: int, b: int| 0 <= a < n && 0 <= b < n implies #[trigger] passes(
                longer@,
                a,
                b,
            ) + h[a][b] == w[a][b] by {
                lemma_passes_splice(old_walk, p as int, trail@, a, b);
                assert(passes(trail@, a, b) + h[a][b] == before[a][b]);
                assert(passes(old_walk, a, b) + before[a][b] == w[a][b]);
            }
            assert forall|q: int| 0 <= q < p + 1 implies #[trigger] is_spent(
                h,
                longer@[q] as int,
            ) by {
                assert(longer@[q] == old_walk[q]);
                let a = old_walk[q] as int;
                if q < p {
                    assert(is_spent(before, old_walk[q] as int));
                }
                assert forall|j: int| 0 <= j < n implies h[a][j] == 0 by {
                    assert(passes(trail@, a, j) + h[a][j] == before[a][j]);
                    lemma_passes_nonneg(trail@, a, j);
                }
            }
            assert(in_range(longer@, n as nat)) by {
                assert forall|k: int| 0 <= k < longer@.len() implies #[trigger] longer@[k] < n by {
                    if k < p + 1 {
                        assert(longer@[k] == old_walk[k]);
                    } else if k < p + trail.len() {
                        assert(longer@[k] == trail@[k - p]);
                    } else {
                        assert(longer@[k] == old_walk[k - trail.len() + 1]);
                    }
                }
            }
            assert(longer@[0] == old_walk[0]);
            if p + 1 == old_walk.len() {
                assert(longer@.last() == trail@.last());
            } else {
                assert(longer@.last() == old_walk.last());
            }
        }
        walk = longer;
        p += 1;
    }
    let (seen, count) = mark_members(&walk, n);
    let ghost marks = chosen(walk@, n as nat);
    proof {
        assert forall|a: int, b: int| 0 <= a < n && 0 <= b < n && marks[a] implies #[trigger] w[a][b]
            == passes(walk@, a, b) by {
            let q = choose|q: int| 0 <= q < walk@.len() && walk@[q] == a;
            assert(is_spent(matrix_view(rem@), walk@[q] as int));
            assert(passes(walk@, a, b) + matrix_view(rem@)[a][b] == w[a][b]);
        }
    }
    if count == n {
        proof {
            lemma_all_set(marks);
            assert forall|v: usize| v < n implies #[trigger] walk@.contains(v) by {
                assert(marks[v as int]);
                let k = choose|k: int| 0 <= k < walk@.len() && walk@[k] == v as int;
                assert(walk@[k] == v);
            }
            lemma_walk_joins_all(w, walk@);
        }
        Some(walk)
    } else {
        proof {
            if forall|v: int| 0 <= v < n ==> marks[v] {
                lemma_none_unset(marks);
            }
            let v = choose|v: int| 0 <= v < n && !marks[v];
            assert(marks[walk@[0] as int]);
            if reachable(w, walk@[0], v as usize) {
                let target = v as usize;
                let q = choose|q: Seq<usize>| #[trigger] joins(w, q, walk@[0], target);
                let k = lemma_first_unmarked(q, marks);
                let x = q[k - 1] as int;
                let y = q[k] as int;
                assert(link(w, q[k - 1], q[k - 1 + 1]) > 0);
                assert(w[x][y] == passes(walk@, x, y));
                lemma_passes_member(walk@, x, y);
            }
        }
        None
    }
}

/// A closed walk that runs along every edge of vertices it visits, and
/// along edges only, joins every two of its vertices.
pub proof fn lemma_walk_joins_all(w: Seq<Seq<u64>>, p: Seq<usize>)
    requires
        is_mirrored(w),
        p.len() > 0,
        in_range(p, w.len()),
        forall|v: usize| v < w.len() ==> #[trigger] p.contains(v),
        forall|a: int, b: int|
            0 <= a < w.len() && 0 <= b < w.len() ==> #[trigger] w[a][b] == passes(p, a, b),
    ensures
        connected(w),
{
    assert(is_walk(w, p)) by {
        assert forall|k: int| 0 <= k < p.len() - 1 implies #[trigger] link(w, p[k], p[k + 1]) > 0 by {
            lemma_passes_step(p, k);
            assert(w[p[k] as int][p[k + 1] as int] == passes(p, p[k] as int, p[k + 1] as int));
        }
    }
    assert forall|a: usize, b: usize| a < w.len() && b < w.len() implies #[trigger] reachable(
        w,
        a,
        b,
    ) by {
        assert(p.contains(a) && p.contains(b));
        let i = choose|k: int| 0 <= k < p.len() && p[k] == a;
        let j = choose|k: int| 0 <= k < p.len() && p[k] == b;
        lemma_walk_prefix(w, p, i);
        lemma_walk_prefix(w, p, j);
        assert(reachable(w, p[0], a));
        assert(reachable(w, p[0], b));
        lemma_reachable_sym(w, p[0], a);
        lemma_reachable_trans(w, a, p[0], b);
    }
}

/// The multigraph with one edge for each edge of the graph with weight
/// matrix `m`.
pub fn unit_rows(m: &Vec<Vec<u64>>) -> (out: Vec<Vec<u64>>)
    ensures
        matrix_view(out@) == unit(matrix_view(m@)),
{
    let mut out: Vec<Vec<u64>> = Vec::new();
    let mut i: usize = 0;
    while i < m.len()
        invariant
            i <= m.len(),
            out.len() == i,
            forall|k: int| 0 <= k < i ==> (#[trigger] out[k])@ == unit(matrix_view(m@))[k],
        decreases m.len() - i,
    {
        let mut row: Vec<u64> = Vec::new();
        let mut j: usize = 0;
        while j < m[i].len()
            invariant
                i < m.len(),
                j <= m[i as int].len(),
                row.len() == j,
                forall|c: int| 0 <= c < j ==> #[trigger] row[c] == unit(matrix_view(m@))[i as int][c],
            decreases m[i as int].len() - j,
        {
            row.push(if m[i][j] > 0 {
                1
            } else {
                0
            });
            j += 1;
        }
        assert(row@ =~= unit(matrix_view(m@))[i as int]);
        out.push(row);
        i += 1;
    }
    assert(matrix_view(out@) =~= unit(matrix_view(m@)));
    out
}

/// The multigraph with one edge for each edge of `w` joins the vertices
/// that `w` joins.
pub proof fn lemma_unit_connected(w: Seq<Seq<u64>>)
    requires
        is_square(w, w.len()),
    ensures
        is_square(unit(w), w.len()),
        is_mirrored(w) ==> is_mirrored(unit(w)),
        connected(unit(w)) <==> connected(w),
{
    let u = unit(w);
    assert forall|a: usize, b: usize| reachable(w, a, b) <==> reachable(u, a, b) by {
        if reachable(w, a, b) {
            let p = choose|p: Seq<usize>| #[trigger] joins(w, p, a, b);
            assert forall|k: int| 0 <= k < p.len() - 1 implies #[trigger] link(u, p[k], p[k + 1])
                > 0 by {
                assert(link(w, p[k], p[k + 1]) > 0);
                assert(w[p[k] as int].len() == w.len());
            }
            assert(joins(u, p, a, b));
        }
        if reachable(u, a, b) {
            let p = choose|p: Seq<usize>| #[trigger] joins(u, p, a, b);
            assert forall|k: int| 0 <= k < p.len() - 1 implies #[trigger] link(w, p[k], p[k + 1])
                > 0 by {
                assert(link(u, p[k], p[k + 1]) > 0);
                assert(w[p[k] as int].len() == w.len());
            }
            assert(joins(w, p, a, b));
        }
    }
    if is_mirrored(w) {
        assert forall|i: int, j: int| 0 <= i < u.len() && 0 <= j < u.len() implies #[trigger] u[i][j]
            == #[trigger] u[j][i] by {
            assert(w[i].len() == w.len() && w[j].len() == w.len());
            assert(w[i][j] == w[j][i]);
        }
    }
    if connected(w) {
        assert forall|a: usize, b: usize| a < u.len() && b < u.len() implies #[trigger] reachable(
            u,
            a,
            b,
        ) by {
            assert(reachable(w, a, b));
        }
    }
    if connected(u) {
        assert forall|a: usize, b: usize| a < w.len() && b < w.len() implies #[trigger] reachable(
            w,
            a,
            b,
        ) by {
            assert(reachable(u, a, b));
        }
    }
}

impl<V> Graph<V> {
    /// A closed walk from vertex 0 that runs along every edge of this
    /// undirected graph exactly once. There is one exactly where an even
    /// number of edge ends meet at every vertex and the graph is connected.
    pub fn get_eulerian_path(&self) -> (r: Result<Vec<usize>, GraphError>)
        ensures
            !self.squared() ==> r == Err::<Vec<usize>, GraphError>(GraphError::NotSquare),
            self.squared() && !self.symmetric() ==> r == Err::<Vec<usize>, GraphError>(
                GraphError::NotSymmetric,
            ),
            self.symmetric() && !(all_even(unit(self.weights())) && connected(self.weights()))
                ==> r == Err::<Vec<usize>, GraphError>(GraphError::NoEulerianCircuit),
            self.symmetric() && all_even(unit(self.weights())) && connected(self.weights())
                ==> r is Ok && is_eulerian(unit(self.weights()), r->Ok_0@),
    {
        if !self.is_squared() {
            return Err(GraphError::NotSquare);
        }
        if !self.is_symmetric() {
            return Err(GraphError::NotSymmetric);
        }
        let edges = unit_rows(self.get_adjacency_matrix());
        proof {
            lemma_unit_connected(self.weights());
        }
        match euler_walk(&edges) {
            Some(walk) => Ok(walk),
            None => Err(GraphError::NoEulerianCircuit),
        }
    }
}

} // verus!
