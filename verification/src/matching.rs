use vstd::prelude::*;
use crate::error::GraphError;
use crate::graph::{
    is_mirrored, is_square, matrix_view, same_labels, zero_matrix, zero_rows, Graph,
};
use crate::marks::{
    filled, lemma_set_count_positive, lemma_unset_count_clear, lemma_unset_count_update,
    set_count, };
use crate::prim::write_pair;
use crate::route::in_range;
use crate::spanning::{
    is_subgraph, lemma_weight_with_pair, lower_sum, row_sum, total_weight, with_pair,
};

verus! {

/// How a perfect matching is looked for.
#[derive(Clone, Copy, Debug, PartialEq, Eq, Structural)]
pub enum Matching {
    /// Every pairing is tried, and a lightest one is returned.
    Exact,
    /// Each vertex in turn is paired with the nearest vertex still free.
    /// The result need not be a lightest matching, and a matching may be
    /// missed where the graph is not complete.
    Greedy,
}

/// The number of positive entries among the first `k` of `row`.
pub open spec fn positive_count(row: Seq<u64>, k: int) -> int
    decreases k,
{
    if k <= 0 {
        0
    } else {
        positive_count(row, k - 1) + if row[k - 1] > 0 {
            1int
        } else {
            0int
        }
    }
}

/// The number of edges at vertex `v`.
pub open spec fn degree(t: Seq<Seq<u64>>, v: int) -> int {
    positive_count(t[v], t[v].len() as int)
}

/// The vertices below `k` at which an odd number of edges meet, in
/// ascending order.
pub open spec fn odd_vertices(t: Seq<Seq<u64>>, k: int) -> Seq<usize>
    decreases k,
{
    if k <= 0 {
        Seq::empty()
    } else if degree(t, k - 1) % 2 == 1 {
        odd_vertices(t, k - 1).push((k - 1) as usize)
    } else {
        odd_vertices(t, k - 1)
    }
}

/// Which of the vertices `0..n` occur in `subset`.
pub open spec fn chosen(subset: Seq<usize>, n: nat) -> Seq<bool> {
    Seq::new(n, |v: int| exists|k: int| 0 <= k < subset.len() && subset[k] == v)
}

/// Whether `t` is a perfect matching of the marked vertices in the graph
/// `w`: a subgraph in which one edge meets each marked vertex, and none any
/// other.
pub open spec fn is_matching(t: Seq<Seq<u64>>, w: Seq<Seq<u64>>, marked: Seq<bool>) -> bool {
    &&& is_subgraph(t, w)
    &&& marked.len() == w.len()
    &&& forall|v: int|
        0 <= v < w.len() ==> #[trigger] degree(t, v) == if marked[v] {
            1int
        } else {
            0int
        }
}

/// Whether `t` is a perfect matching of the marked vertices of the least
/// total weight.
pub open spec fn is_min_matching(t: Seq<Seq<u64>>, w: Seq<Seq<u64>>, marked: Seq<bool>) -> bool {
    &&& is_matching(t, w, marked)
    &&& forall|f: Seq<Seq<u64>>| #[trigger]
        is_matching(f, w, marked) ==> total_weight(t) <= total_weight(f)
}

/// Whether `b` is at least as near to `a` as `c` is, the lower index
/// counting as nearer where the weights are the same.
pub open spec fn is_nearer(w: Seq<Seq<u64>>, a: int, b: int, c: int) -> bool {
    w[a][b] < w[a][c] || (w[a][b] == w[a][c] && b <= c)
}

/// Whether all partners of `c` in `t` have an index above `a`.
pub open spec fn pairs_after(t: Seq<Seq<u64>>, c: int, a: int) -> bool {
    forall|d: int| 0 <= d < t.len() && #[trigger] t[c][d] > 0 ==> a < d
}

/// Whether the matching `t` is the one in which each vertex in turn, by
/// ascending index, was given the nearest vertex still free as its partner:
/// the partner of the lower vertex `a` of a pair is no farther from `a`
/// than any vertex above `a` whose own pair lies above `a`.
pub open spec fn is_greedy_matching(t: Seq<Seq<u64>>, w: Seq<Seq<u64>>) -> bool {
    forall|a: int, b: int, c: int|
        0 <= a < b < w.len() && a < c < w.len() && #[trigger] t[a][b] > 0 && #[trigger] w[a][c] > 0
            && degree(t, c) == 1 && pairs_after(t, c, a) ==> is_nearer(w, a, b, c)
}

/// Whether the marked vertices have a perfect matching in `w`.
pub open spec fn can_match(w: Seq<Seq<u64>>, marked: Seq<bool>) -> bool {
    exists|f: Seq<Seq<u64>>| #[trigger] is_matching(f, w, marked)
}

/// Whether there is an edge between every two different vertices.
pub open spec fn is_complete(w: Seq<Seq<u64>>) -> bool {
    forall|i: int, j: int|
        0 <= i < w.len() && 0 <= j < w.len() && i != j ==> #[trigger] w[i][j] > 0
}

/// The count of positive entries lies between nothing and all.
pub proof fn lemma_positive_count_bounds(row: Seq<u64>, k: int)
    requires
        0 <= k <= row.len(),
    ensures
        0 <= positive_count(row, k) <= k,
        positive_count(row, k) <= positive_count(row, row.len() as int),
        positive_count(row, k) == 0 <==> forall|j: int| 0 <= j < k ==> row[j] == 0,
        row_sum(row, k) <= positive_count(row, k) * u64::MAX,
    decreases row.len() - k,
{
    lemma_positive_count_zero(row, k);
    if k < row.len() {
        lemma_positive_count_bounds(row, k + 1);
    }
    lemma_row_sum_by_count(row, k);
}

/// No entry is counted exactly where all entries are zero.
pub proof fn lemma_positive_count_zero(row: Seq<u64>, k: int)
    requires
        0 <= k <= row.len(),
    ensures
        0 <= positive_count(row, k) <= k,
        positive_count(row, k) == 0 <==> forall|j: int| 0 <= j < k ==> row[j] == 0,
    decreases k,
{
    if k > 0 {
        lemma_positive_count_zero(row, k - 1);
    }
}

/// A sum of entries is at most the largest value for each positive entry.
pub proof fn lemma_row_sum_by_count(row: Seq<u64>, k: int)
    requires
        0 <= k <= row.len(),
    ensures
        0 <= row_sum(row, k) <= positive_count(row, k) * u64::MAX,
    decreases k,
{
    if k > 0 {
        lemma_row_sum_by_count(row, k - 1);
        assert((positive_count(row, k - 1) + 1) * u64::MAX == positive_count(row, k - 1) * u64::MAX
            + u64::MAX) by (nonlinear_arith);
    }
}

/// Writing one entry changes the count by what the entry adds or takes
/// away.
pub proof fn lemma_positive_count_update(row: Seq<u64>, j: int, x: u64, k: int)
    requires
        0 <= j < row.len(),
        0 <= k <= row.len(),
    ensures
        positive_count(row.update(j, x), k) == if j < k {
            positive_count(row, k) - (if row[j] > 0 {
                1int
            } else {
                0int
            }) + (if x > 0 {
                1int
            } else {
                0int
            })
        } else {
            positive_count(row, k)
        },
    decreases k,
{
    if k > 0 {
        lemma_positive_count_update(row, j, x, k - 1);
    }
}

/// Where a single entry of a row is positive, every other entry is zero.
pub proof fn lemma_single_positive(row: Seq<u64>, b: int)
    requires
        0 <= b < row.len(),
        row[b] > 0,
        positive_count(row, row.len() as int) == 1,
    ensures
        forall|j: int| 0 <= j < row.len() && j != b ==> row[j] == 0,
{
    lemma_positive_count_update(row, b, 0u64, row.len() as int);
    lemma_positive_count_zero(row.update(b, 0u64), row.len() as int);
    assert forall|j: int| 0 <= j < row.len() && j != b implies row[j] == 0 by {
        assert(row.update(b, 0u64)[j] == 0);
    }
}

/// The rows of a graph after the weight of one edge was written.
pub proof fn lemma_with_pair_rows(t: Seq<Seq<u64>>, n: nat, a: int, b: int, x: u64)
    requires
        is_square(t, n),
        0 <= a < n,
        0 <= b < n,
        a != b,
    ensures
        with_pair(t, a, b, x)[a] == t[a].update(b, x),
        with_pair(t, a, b, x)[b] == t[b].update(a, x),
        with_pair(t, a, b, x).len() == n,
        forall|v: int| 0 <= v < n && v != a && v != b ==> #[trigger] with_pair(t, a, b, x)[v] == t[v],
{
    assert(t[a].len() == n && t[b].len() == n);
}

/// A matching weighs at most the largest weight for each vertex.
pub proof fn lemma_matching_weight_bound(t: Seq<Seq<u64>>, w: Seq<Seq<u64>>, marked: Seq<bool>, i: int)
    requires
        is_matching(t, w, marked),
        0 <= i <= w.len(),
    ensures
        0 <= lower_sum(t, i) <= i * u64::MAX,
    decreases i,
{
    if i > 0 {
        lemma_matching_weight_bound(t, w, marked, i - 1);
        let row = t[i - 1];
        assert(row.len() == w.len());
        lemma_positive_count_bounds(row, i - 1);
        lemma_row_sum_by_count(row, i - 1);
        let c = positive_count(row, i - 1);
        assert(degree(t, i - 1) <= 1);
        assert(c <= 1);
        assert(row_sum(row, i - 1) <= c * u64::MAX);
        assert(c * u64::MAX <= u64::MAX) by (nonlinear_arith)
            requires
                0 <= c <= 1,
        ;
        assert((i - 1) * u64::MAX + u64::MAX == i * u64::MAX) by (nonlinear_arith);
    }
}

/// The graph without edges is the matching of no vertices.
pub proof fn lemma_empty_matching(w: Seq<Seq<u64>>, marked: Seq<bool>)
    requires
        marked.len() == w.len(),
        forall|v: int| 0 <= v < marked.len() ==> !marked[v],
    ensures
        is_matching(zero_matrix(w.len()), w, marked),
        total_weight(zero_matrix(w.len())) == 0,
{
    let z = zero_matrix(w.len());
    assert forall|v: int| 0 <= v < w.len() implies #[trigger] degree(z, v) == 0 by {
        lemma_positive_count_zero(z[v], z[v].len() as int);
    }
    lemma_zero_weight(w.len(), w.len() as int);
}

/// The graph without edges weighs nothing.
pub proof fn lemma_zero_weight(n: nat, i: int)
    requires
        0 <= i <= n,
    ensures
        lower_sum(zero_matrix(n), i) == 0,
    decreases i,
{
    if i > 0 {
        lemma_zero_weight(n, i - 1);
        lemma_zero_row_sum(n, i - 1);
    }
}

/// A row of zeros sums to zero.
pub proof fn lemma_zero_row_sum(n: nat, k: int)
    requires
        0 <= k <= n,
    ensures
        row_sum(Seq::new(n, |j: int| 0u64), k) == 0,
    decreases k,
{
    if k > 0 {
        lemma_zero_row_sum(n, k - 1);
    }
}

/// A matching of all marked vertices but `a` and `b`, with the edge between
/// `a` and `b` added, is a matching of the marked vertices.
pub proof fn lemma_add_pair(
    w: Seq<Seq<u64>>,
    t: Seq<Seq<u64>>,
    marked: Seq<bool>,
    a: usize,
    b: usize,
)
    requires
        is_mirrored(w),
        a < w.len(),
        b < w.len(),
        a != b,
        marked.len() == w.len(),
        marked[a as int],
        marked[b as int],
        w[a as int][b as int] > 0,
        is_matching(t, w, marked.update(a as int, false).update(b as int, false)),
    ensures
        is_matching(with_pair(t, a as int, b as int, w[a as int][b as int]), w, marked),
        total_weight(with_pair(t, a as int, b as int, w[a as int][b as int])) == total_weight(t)
            + w[a as int][b as int],
{
    let n = w.len();
    let x = w[a as int][b as int];
    let less = marked.update(a as int, false).update(b as int, false);
    let t2 = with_pair(t, a as int, b as int, x);
    lemma_weight_with_pair(t, n, a as int, b as int, x);
    lemma_with_pair_rows(t, n, a as int, b as int, x);
    assert(w[b as int][a as int] == x);
    assert(t[a as int].len() == n && t[b as int].len() == n);
    assert(degree(t, a as int) == 0);
    assert(degree(t, b as int) == 0);
    lemma_positive_count_zero(t[a as int], n as int);
    lemma_positive_count_zero(t[b as int], n as int);
    assert(t[a as int][b as int] == 0);
    assert(is_subgraph(t2, w)) by {
        assert forall|i: int, j: int| 0 <= i < n && 0 <= j < n implies #[trigger] t2[i][j] == 0
            || t2[i][j] == w[i][j] by {
            assert(t[i][j] == 0 || t[i][j] == w[i][j]);
        }
        assert forall|i: int| 0 <= i < n implies (#[trigger] t2[i])[i] == 0 by {
            assert(t[i][i] == 0);
            assert(t2[i][i] == t[i][i]);
        }
    }
    assert forall|v: int| 0 <= v < n implies #[trigger] degree(t2, v) == if marked[v] {
        1int
    } else {
        0int
    } by {
        assert(degree(t, v) == if less[v] {
            1int
        } else {
            0int
        });
        if v == a {
            lemma_positive_count_update(t[a as int], b as int, x, n as int);
        } else if v == b {
            lemma_positive_count_update(t[b as int], a as int, x, n as int);
        }
    }
}

/// In a matching, the marked vertex `a` has a partner; without the edge
/// between them the matching is one of the other marked vertices.
pub proof fn lemma_remove_pair(w: Seq<Seq<u64>>, f: Seq<Seq<u64>>, marked: Seq<bool>, a: usize) -> (b:
    usize)
    requires
        w.len() <= usize::MAX,
        is_mirrored(w),
        is_matching(f, w, marked),
        a < w.len(),
        marked[a as int],
    ensures
        b < w.len(),
        b != a,
        marked[b as int],
        w[a as int][b as int] > 0,
        is_matching(
            with_pair(f, a as int, b as int, 0u64),
            w,
            marked.update(a as int, false).update(b as int, false),
        ),
        total_weight(f) == total_weight(with_pair(f, a as int, b as int, 0u64))
            + w[a as int][b as int],
{
    let n = w.len();
    assert(f[a as int].len() == n);
    assert(degree(f, a as int) == 1);
    lemma_positive_count_zero(f[a as int], n as int);
    let bi = choose|j: int| 0 <= j < n && f[a as int][j] != 0;
    let b = bi as usize;
    assert(f[a as int][a as int] == 0);
    assert(f[bi][a as int] == f[a as int][bi]);
    assert(f[bi].len() == n);
    lemma_positive_count_zero(f[bi], n as int);
    assert(degree(f, bi) != 0);
    assert(f[a as int][bi] == 0 || f[a as int][bi] == w[a as int][bi]);
    lemma_single_positive(f[a as int], bi);
    lemma_single_positive(f[bi], a as int);
    let g = with_pair(f, a as int, bi, 0u64);
    let less = marked.update(a as int, false).update(bi, false);
    lemma_weight_with_pair(f, n, a as int, bi, 0u64);
    lemma_with_pair_rows(f, n, a as int, bi, 0u64);
    assert(is_subgraph(g, w)) by {
        assert forall|i: int, j: int| 0 <= i < n && 0 <= j < n implies #[trigger] g[i][j] == 0
            || g[i][j] == w[i][j] by {
            assert(f[i][j] == 0 || f[i][j] == w[i][j]);
        }
        assert forall|i: int| 0 <= i < n implies (#[trigger] g[i])[i] == 0 by {
            assert(f[i][i] == 0);
            assert(g[i][i] == f[i][i]);
        }
    }
    assert forall|v: int| 0 <= v < n implies #[trigger] degree(g, v) == if less[v] {
        1int
    } else {
        0int
    } by {
        assert(degree(f, v) == if marked[v] {
            1int
        } else {
            0int
        });
        if v == a {
            lemma_positive_count_update(f[a as int], bi, 0u64, n as int);
        } else if v == bi {
            lemma_positive_count_update(f[bi], a as int, 0u64, n as int);
        }
    }
    b
}

/// The first marked vertex, if there is one.
pub fn first_marked(marks: &Vec<bool>) -> (r: Option<usize>)
    ensures
        r is None ==> forall|v: int| 0 <= v < marks.len() ==> !marks[v],
        r is Some ==> r->Some_0 < marks.len() && marks[r->Some_0 as int] && forall|v: int|
            0 <= v < r->Some_0 ==> !marks[v],
{
    let mut i: usize = 0;
    while i < marks.len()
        invariant
            i <= marks.len(),
            forall|v: int| 0 <= v < i ==> !marks[v],
        decreases marks.len() - i,
    {
        if marks[i] {
            return Some(i);
        }
        i += 1;
    }
    None
}

/// A lightest perfect matching of the vertices marked in `free`, with its
/// total weight, found by trying every partner for the first of them and
/// matching the rest in the same way; `None` where they have no perfect
/// matching. The marks are the same after the call as before.
pub fn lightest_pairing(m: &Vec<Vec<u64>>, free: &mut Vec<bool>) -> (out: Option<
    (Vec<Vec<u64>>, u128),
>)
    requires
        is_square(matrix_view(m@), m.len() as nat),
        is_mirrored(matrix_view(m@)),
        old(free).len() == m.len(),
    ensures
        final(free)@ == old(free)@,
        out is Some <==> can_match(matrix_view(m@), old(free)@),
        out is Some ==> is_min_matching(matrix_view(out->Some_0.0@), matrix_view(m@), old(free)@)
            && out->Some_0.1 == total_weight(matrix_view(out->Some_0.0@)),
    decreases set_count(old(free)@),
{
    let n: usize = m.len();
    let ghost w = matrix_view(m@);
    let ghost marked = free@;
    let a: usize = match first_marked(free) {
        Some(a) => a,
        None => {
            proof {
                lemma_empty_matching(w, marked);
                assert forall|f: Seq<Seq<u64>>| #[trigger] is_matching(f, w, marked) implies 0
                    <= total_weight(f) by {
                    lemma_matching_weight_bound(f, w, marked, n as int);
                }
            }
            return Some((zero_rows(n), 0));
        },
    };
    free[a] = false;
    proof {
        lemma_unset_count_clear(marked, a as int);
    }
    let mut best: Option<(Vec<Vec<u64>>, u128)> = None;
    let mut b: usize = a + 1;
    while b < n
        invariant
            a < b <= n,
            n == m.len(),
            w == matrix_view(m@),
            is_square(w, n as nat),
            is_mirrored(w),
            marked.len() == n,
            marked == old(free)@,
            marked[a as int],
            forall|v: int| 0 <= v < a ==> !marked[v],
            free@ == marked.update(a as int, false),
            set_count(free@) < set_count(marked),
            best is Some ==> is_matching(matrix_view(best->Some_0.0@), w, marked) && best->Some_0.1
                == total_weight(matrix_view(best->Some_0.0@)),
            forall|c: int, f: Seq<Seq<u64>>|
                a < c < b && marked[c] && w[a as int][c] > 0 && #[trigger] is_matching(
                    f,
                    w,
                    marked.update(a as int, false).update(c, false),
                ) ==> best is Some && best->Some_0.1 <= total_weight(f) + w[a as int][c],
        decreases n - b,
    {
        assert(w[a as int].len() == n);
        if free[b] && m[a][b] > 0 {
            free[b] = false;
            let ghost less = marked.update(a as int, false).update(b as int, false);
            proof {
                lemma_unset_count_clear(marked.update(a as int, false), b as int);
                lemma_set_count_positive(free@);
            }
            let sub = lightest_pairing(m, free);
            free[b] = true;
            assert(free@ =~= marked.update(a as int, false));
            match sub {
                Some((rest, cost)) => {
                    proof {
                        lemma_add_pair(w, matrix_view(rest@), marked, a, b);
                        lemma_matching_weight_bound(matrix_view(rest@), w, less, n as int);
                        assert(n * u64::MAX + u64::MAX <= u128::MAX) by (nonlinear_arith)
                            requires
                                0 <= n <= 0xffff_ffff_ffff_ffff,
                        ;
                    }
                    let total: u128 = cost + m[a][b] as u128;
                    let better: bool = match &best {
                        None => true,
                        Some(pair) => total < pair.1,
                    };
                    if better {
                        let mut rest = rest;
                        write_pair(&mut rest, a, b, m[a][b]);
                        best = Some((rest, total));
                    }
                },
                None => {},
            }
        }
        b += 1;
    }
    free[a] = true;
    proof {
        assert(free@ =~= marked);
        assert forall|f: Seq<Seq<u64>>| #[trigger] is_matching(f, w, marked) implies best is Some
            && best->Some_0.1 <= total_weight(f) by {
            let c = lemma_remove_pair(w, f, marked, a);
            assert(a < c);
        }
    }
    best
}

/// The free vertex nearest to `a` among those that have an edge to `a`, the
/// one with the lowest index among equals.
pub fn nearest_free(m: &Vec<Vec<u64>>, free: &Vec<bool>, a: usize) -> (r: Option<usize>)
    requires
        is_square(matrix_view(m@), m.len() as nat),
        free.len() == m.len(),
        a < m.len(),
    ensures
        r is None ==> forall|j: int|
            0 <= j < m.len() ==> !(free[j] && matrix_view(m@)[a as int][j] > 0),
        r is Some ==> r->Some_0 < m.len() && free[r->Some_0 as int] && matrix_view(
            m@,
        )[a as int][r->Some_0 as int] > 0 && forall|j: int|
            0 <= j < m.len() && free[j] && matrix_view(m@)[a as int][j] > 0 ==> matrix_view(
                m@,
            )[a as int][r->Some_0 as int] < matrix_view(m@)[a as int][j] || (matrix_view(
                m@,
            )[a as int][r->Some_0 as int] == matrix_view(m@)[a as int][j] && r->Some_0 <= j),
{
    let n: usize = m.len();
    let ghost w = matrix_view(m@);
    assert(w[a as int].len() == n);
    let mut best: Option<usize> = None;
    let mut j: usize = 0;
    while j < n
        invariant
            j <= n,
            n == m.len(),
            a < n,
            free.len() == n,
            w == matrix_view(m@),
            w[a as int].len() == n,
            best is None ==> forall|c: int| 0 <= c < j ==> !(free[c] && w[a as int][c] > 0),
            best is Some ==> best->Some_0 < j && free[best->Some_0 as int] && w[a as int][best->Some_0 as int]
                > 0 && forall|c: int|
                0 <= c < j && free[c] && w[a as int][c] > 0 ==> w[a as int][best->Some_0 as int]
                    < w[a as int][c] || (w[a as int][best->Some_0 as int] == w[a as int][c]
                    && best->Some_0 <= c),
        decreases n - j,
    {
        if free[j] && m[a][j] > 0 {
            match best {
                None => {
                    best = Some(j);
                },
                Some(b) => {
                    if m[a][j] < m[a][b] {
                        best = Some(j);
                    }
                },
            }
        }
        j += 1;
    }
    best
}

/// A perfect matching of the marked vertices in which each vertex in turn,
/// by ascending index, is given the nearest vertex still free as its
/// partner; `None` where a vertex finds no partner. On a complete graph
/// with an even number of marked vertices a matching is found.
pub fn greedy_pairing(m: &Vec<Vec<u64>>, marked: &Vec<bool>) -> (out: Option<Vec<Vec<u64>>>)
    requires
        is_square(matrix_view(m@), m.len() as nat),
        is_mirrored(matrix_view(m@)),
        marked.len() == m.len(),
    ensures
        out is Some ==> is_matching(matrix_view(out->Some_0@), matrix_view(m@), marked@),
        out is Some ==> is_greedy_matching(matrix_view(out->Some_0@), matrix_view(m@)),
        is_complete(matrix_view(m@)) && set_count(marked@) % 2 == 0 ==> out is Some,
{
    let n: usize = m.len();
    let ghost w = matrix_view(m@);
    let mut free: Vec<bool> = Vec::new();
    let mut k: usize = 0;
    while k < n
        invariant
            k <= n,
            n == marked.len(),
            free@ == marked@.take(k as int),
        decreases n - k,
    {
        free.push(marked[k]);
        assert(free@ =~= marked@.take(k + 1));
        k += 1;
    }
    assert(free@ =~= marked@);
    let mut tree: Vec<Vec<u64>> = zero_rows(n);
    proof {
        lemma_empty_matching(w, Seq::new(n as nat, |v: int| marked@[v] && !free@[v]));
    }
    let mut a: usize = 0;
    while a < n
        invariant
            a <= n,
            n == m.len(),
            w == matrix_view(m@),
            is_square(w, n as nat),
            is_mirrored(w),
            marked.len() == n,
            free.len() == n,
            is_square(matrix_view(tree@), n as nat),
            forall|v: int| 0 <= v < n && free[v] ==> marked[v],
            forall|v: int| 0 <= v < a ==> !free[v],
            is_matching(
                matrix_view(tree@),
                w,
                Seq::new(n as nat, |v: int| marked@[v] && !free@[v]),
            ),
            set_count(marked@) % 2 == 0 ==> set_count(free@) % 2 == 0,
            is_greedy_matching(matrix_view(tree@), w),
            forall|x: int, y: int|
                0 <= x < y < n && #[trigger] matrix_view(tree@)[x][y] > 0 ==> x < a,
            forall|x: int, y: int, c: int|
                0 <= x < y < n && 0 <= c < n && #[trigger] matrix_view(tree@)[x][y] > 0 && free[c]
                    && #[trigger] w[x][c] > 0 ==> is_nearer(w, x, y, c),
        decreases n - a,
    {
        if free[a] {
            let ghost before = free@;
            let ghost done = Seq::new(n as nat, |v: int| marked@[v] && !before[v]);
            free[a] = false;
            proof {
                lemma_unset_count_clear(before, a as int);
            }
            let ghost mid = free@;
            let b: usize = match nearest_free(m, &free, a) {
                Some(b) => b,
                None => {
                    proof {
                        if is_complete(w) && set_count(marked@) % 2 == 0 {
                            lemma_set_count_positive(free@);
                            let v = choose|v: int| 0 <= v < free@.len() && free@[v];
                            assert(w[a as int][v] > 0);
                        }
                    }
                    return None;
                },
            };
            proof {
                lemma_unset_count_clear(free@, b as int);
            }
            free[b] = false;
            let ghost t = matrix_view(tree@);
            proof {
                let after = Seq::new(n as nat, |v: int| marked@[v] && !free@[v]);
                assert(after.update(a as int, false).update(b as int, false) =~= done);
                lemma_add_pair(w, t, after, a, b);
                assert(w[a as int].len() == n);
                assert forall|c: int|
                    0 <= c < n && before[c] && c != a && w[a as int][c] > 0 implies is_nearer(
                    w,
                    a as int,
                    b as int,
                    c,
                ) by {
                    assert(mid[c]);
                }
                assert forall|v: int| 0 <= v < n && before[v] implies degree(t, v) == 0 by {
                    assert(!done[v]);
                }
                assert(free@ =~= before.update(a as int, false).update(b as int, false));
                lemma_greedy_step(w, t, before, a, b);
            }
            write_pair(&mut tree, a, b, m[a][b]);
        }
        a += 1;
    }
    assert(Seq::new(n as nat, |v: int| marked@[v] && !free@[v]) =~= marked@);
    Some(tree)
}

/// Pairing the first free vertex `a` with the nearest free vertex `b`
/// keeps a matching one in which every vertex got the nearest vertex still
/// free.
pub proof fn lemma_greedy_step(
    w: Seq<Seq<u64>>,
    t: Seq<Seq<u64>>,
    free: Seq<bool>,
    a: usize,
    b: usize,
)
    requires
        is_square(w, w.len()),
        is_square(t, w.len()),
        is_mirrored(t),
        free.len() == w.len(),
        a < b < w.len(),
        free[a as int],
        free[b as int],
        w[a as int][b as int] > 0,
        forall|v: int| 0 <= v < a ==> !free[v],
        forall|v: int| 0 <= v < w.len() ==> (#[trigger] t[v])[v] == 0,
        forall|v: int| 0 <= v < w.len() && free[v] ==> degree(t, v) == 0,
        forall|c: int|
            0 <= c < w.len() && free[c] && c != a && w[a as int][c] > 0 ==> is_nearer(
                w,
                a as int,
                b as int,
                c,
            ),
        is_greedy_matching(t, w),
        forall|x: int, y: int| 0 <= x < y < w.len() && #[trigger] t[x][y] > 0 ==> x < a,
        forall|x: int, y: int, c: int|
            0 <= x < y < w.len() && 0 <= c < w.len() && #[trigger] t[x][y] > 0 && free[c]
                && #[trigger] w[x][c] > 0 ==> is_nearer(w, x, y, c),
    ensures
        is_greedy_matching(with_pair(t, a as int, b as int, w[a as int][b as int]), w),
        forall|x: int, y: int|
            0 <= x < y < w.len() && #[trigger] with_pair(
                t,
                a as int,
                b as int,
                w[a as int][b as int],
            )[x][y] > 0 ==> x < a + 1,
        forall|x: int, y: int, c: int|
            0 <= x < y < w.len() && 0 <= c < w.len() && #[trigger] with_pair(
                t,
                a as int,
                b as int,
                w[a as int][b as int],
            )[x][y] > 0 && free.update(a as int, false).update(b as int, false)[c]
                && #[trigger] w[x][c] > 0 ==> is_nearer(w, x, y, c),
{
    let n = w.len();
    let x_ab = w[a as int][b as int];
    let t2 = with_pair(t, a as int, b as int, x_ab);
    lemma_weight_with_pair(t, n, a as int, b as int, x_ab);
    lemma_with_pair_rows(t, n, a as int, b as int, x_ab);
    assert(t[a as int].len() == n && t[b as int].len() == n);
    lemma_positive_count_zero(t[a as int], n as int);
    lemma_positive_count_zero(t[b as int], n as int);
    assert forall|x: int, y: int, c: int|
        0 <= x < y < n && x < c < n && #[trigger] t2[x][y] > 0 && #[trigger] w[x][c] > 0 && degree(
            t2,
            c,
        ) == 1 && pairs_after(t2, c, x) implies is_nearer(w, x, y, c) by {
        if x == a && y == b {
            if c != b {
                if !free[c] {
                    // `c` was paired before, with a vertex below `a`
                    assert(t2[c] == t[c]);
                    assert(t[c].len() == n);
                    lemma_positive_count_zero(t[c], n as int);
                    let d = choose|d: int| 0 <= d < n && t[c][d] != 0;
                    assert(t2[c][d] > 0);
                    assert(a < d);
                    assert(t[d][c] == t[c][d]);
                    assert(t[c][c] == 0);
                    if d < c {
                        assert(t[d][c] > 0);
                        assert(d < a);
                    } else {
                        assert(t[c][d] > 0);
                        assert(c < a);
                    }
                }
            }
        } else {
            assert(t[x][y] > 0);
            if c == a || c == b {
                assert(free[c]);
            } else {
                assert(t2[c] == t[c]);
                assert(pairs_after(t, c, x)) by {
                    assert forall|d: int| 0 <= d < n && #[trigger] t[c][d] > 0 implies x < d by {
                        assert(t2[c][d] > 0);
                    }
                }
            }
        }
    }
}

/// Marks, of the vertices `0..n`, those that occur in `subset`, and counts
/// them.
pub fn mark_members(subset: &Vec<usize>, n: usize) -> (out: (Vec<bool>, usize))
    requires
        in_range(subset@, n as nat),
    ensures
        out.0@ == chosen(subset@, n as nat),
        out.1 == set_count(out.0@),
{
    let mut marks: Vec<bool> = filled(false, n);
    let mut count: usize = 0;
    proof {
        crate::marks::lemma_unset_count_bound(marks@);
    }
    let mut k: usize = 0;
    while k < subset.len()
        invariant
            k <= subset.len(),
            marks.len() == n,
            in_range(subset@, n as nat),
            marks@ == chosen(subset@.take(k as int), n as nat),
            count == set_count(marks@),
        decreases subset.len() - k,
    {
        let v: usize = subset[k];
        let ghost before = marks@;
        assert(subset@[k as int] < n);
        if !marks[v] {
            proof {
                lemma_unset_count_update(marks@, v as int);
                lemma_set_count_positive(marks@);
            }
            marks[v] = true;
            count += 1;
        }
        proof {
            let now = subset@.take(k + 1);
            let was = subset@.take(k as int);
            assert forall|u: int| 0 <= u < n implies marks@[u] == chosen(now, n as nat)[u] by {
                if u == v {
                    assert(now[k as int] == v);
                } else if before[u] {
                    let i = choose|i: int| 0 <= i < was.len() && was[i] == u;
                    assert(now[i] == u);
                } else if chosen(now, n as nat)[u] {
                    let i = choose|i: int| 0 <= i < now.len() && now[i] == u;
                    assert(was[i] == u);
                }
            }
            assert(marks@ =~= chosen(now, n as nat));
        }
        k += 1;
    }
    assert(subset@.take(subset.len() as int) =~= subset@);
    (marks, count)
}

/// The number of positive entries of `row`.
pub fn count_positive(row: &Vec<u64>) -> (c: usize)
    ensures
        c == positive_count(row@, row.len() as int),
{
    let mut c: usize = 0;
    let mut j: usize = 0;
    while j < row.len()
        invariant
            j <= row.len(),
            c == positive_count(row@, j as int),
            c <= j,
        decreases row.len() - j,
    {
        if row[j] > 0 {
            c += 1;
        }
        j += 1;
    }
    c
}

impl<V> Graph<V> {
    /// The vertices at which an odd number of edges meet, in ascending
    /// order.
    pub fn get_odd_degree_vertices(&self) -> (r: Result<Vec<usize>, GraphError>)
        ensures
            !self.squared() ==> r == Err::<Vec<usize>, GraphError>(GraphError::NotSquare),
            self.squared() ==> r is Ok && r->Ok_0@ == odd_vertices(
                self.weights(),
                self.order() as int,
            ),
    {
        if !self.is_squared() {
            return Err(GraphError::NotSquare);
        }
        Ok(odd_rows(self.get_adjacency_matrix()))
    }
}

/// The rows of `m` with an odd number of positive entries, in ascending
/// order.
pub fn odd_rows(m: &Vec<Vec<u64>>) -> (out: Vec<usize>)
    ensures
        out@ == odd_vertices(matrix_view(m@), m.len() as int),
{
    let mut out: Vec<usize> = Vec::new();
    let mut i: usize = 0;
    while i < m.len()
        invariant
            i <= m.len(),
            out@ == odd_vertices(matrix_view(m@), i as int),
        decreases m.len() - i,
    {
        if count_positive(&m[i]) % 2 == 1 {
            out.push(i);
        }
        i += 1;
    }
    out
}

impl<V: Clone> Graph<V> {
    /// A perfect matching of the vertices named in `subset`: a graph on the
    /// same vertices that keeps some of the edges, one at each of these
    /// vertices and none at any other. With `Matching::Exact` it is one of
    /// the least total weight, and it is found whenever there is one.
    pub fn perfect_matching(&self, subset: &Vec<usize>, mode: Matching) -> (r: Result<
        Graph<V>,
        GraphError,
    >)
        ensures
            !self.squared() ==> r is Err && r->Err_0 == GraphError::NotSquare,
            self.squared() && !self.symmetric() ==> r is Err && r->Err_0
                == GraphError::NotSymmetric,
            self.symmetric() && !in_range(subset@, self.order()) ==> r is Err && r->Err_0
                == GraphError::OutOfRange,
            self.symmetric() && in_range(subset@, self.order()) && set_count(
                chosen(subset@, self.order()),
            ) % 2 == 1 ==> r is Err && r->Err_0 == GraphError::OddVertexCount,
            self.symmetric() && in_range(subset@, self.order()) && set_count(
                chosen(subset@, self.order()),
            ) % 2 == 0 ==> {
                &&& r is Err ==> r->Err_0 == GraphError::Disconnected
                &&& r is Ok ==> same_labels(self.labels(), r->Ok_0.labels()) && is_matching(
                    r->Ok_0.weights(),
                    self.weights(),
                    chosen(subset@, self.order()),
                )
                &&& mode == Matching::Exact ==> (r is Ok <==> can_match(
                    self.weights(),
                    chosen(subset@, self.order()),
                ))
                &&& mode == Matching::Exact && r is Ok ==> is_min_matching(
                    r->Ok_0.weights(),
                    self.weights(),
                    chosen(subset@, self.order()),
                )
                &&& mode == Matching::Greedy && is_complete(self.weights()) ==> r is Ok
                &&& mode == Matching::Greedy && r is Ok ==> is_greedy_matching(
                    r->Ok_0.weights(),
                    self.weights(),
                )
            },
    {
        if !self.is_squared() {
            return Err(GraphError::NotSquare);
        }
        if !self.is_symmetric() {
            return Err(GraphError::NotSymmetric);
        }
        let n: usize = self.num_vertices();
        let mut k: usize = 0;
        while k < subset.len()
            invariant
                k <= subset.len(),
                n == self.order(),
                self.symmetric(),
                forall|i: int| 0 <= i < k ==> #[trigger] subset[i] < n,
            decreases subset.len() - k,
        {
            if subset[k] >= n {
                return Err(GraphError::OutOfRange);
            }
            k += 1;
        }
        let (marks, count) = mark_members(subset, n);
        if count % 2 == 1 {
            return Err(GraphError::OddVertexCount);
        }
        let m = self.get_adjacency_matrix();
        let found: Option<Vec<Vec<u64>>> = match mode {
            Matching::Exact => {
                let mut free = marks;
                match lightest_pairing(m, &mut free) {
                    Some(pair) => Some(pair.0),
                    None => None,
                }
            },
            Matching::Greedy => greedy_pairing(m, &marks),
        };
        match found {
            Some(t) => Ok(self.with_matrix(t)),
            None => Err(GraphError::Disconnected),
        }
    }
}

} // verus!
