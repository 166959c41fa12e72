use vstd::prelude::*;
use vstd::multiset::Multiset;
use crate::error::GraphError;
use crate::graph::{is_mirrored, is_square, matrix_view, same_labels, zero_rows, Graph};
use crate::marks::{
    filled, lemma_all_set, lemma_none_unset, lemma_unset_count_bound, lemma_unset_count_update,
    unset_count,
};
use crate::queue::{entry_le, Entry, MinQueue};
use crate::route::link;
use crate::spanning::{
    includes, is_min_spanning, is_subgraph, lemma_edge_reachable, lemma_promising_end,
    lemma_promising_start, lemma_reachable_grows, lemma_reachable_in_range, lemma_reachable_self,
    lemma_reachable_sym, lemma_reachable_trans, lemma_safe_edge, lemma_weight_with_pair,
    promising, spans, with_pair,
};
use crate::walks::{connected, joins, lemma_first_unmarked, reachable};

verus! {

/// The state of the growth of a tree from `start`: the tree can be
/// completed to a lightest spanning subgraph, it joins `start` to exactly
/// the vertices marked in `inside`, and the queue holds every edge that
/// leaves the tree, except those of the vertex `u` to the vertices from `j`
/// on.
#[verifier::opaque]
pub open spec fn tree_ok(
    w: Seq<Seq<u64>>,
    t: Seq<Seq<u64>>,
    inside: Seq<bool>,
    start: usize,
    queue: Multiset<Entry>,
    u: int,
    j: int,
) -> bool {
    let n = w.len();
    &&& n <= usize::MAX
    &&& is_square(w, n)
    &&& is_mirrored(w)
    &&& is_subgraph(t, w)
    &&& promising(t, w)
    &&& inside.len() == n
    &&& start < n
    &&& inside[start as int]
    &&& forall|a: int, b: int|
        0 <= a < n && 0 <= b < n && #[trigger] t[a][b] > 0 ==> inside[a] && inside[b]
    &&& forall|v: usize| v < n && inside[v as int] ==> #[trigger] reachable(t, start, v)
    &&& forall|a: usize, b: usize|
        a < n && b < n && inside[a as int] && !inside[b as int] && #[trigger] link(w, a, b) > 0
            && (a != u || b < j) ==> queue.count((w[a as int][b as int] as u128, a, b)) > 0
    &&& forall|e: Entry| #[trigger]
        queue.count(e) > 0 ==> e.1 < n && e.2 < n && inside[e.1 as int] && e.0
            == w[e.1 as int][e.2 as int] && e.0 > 0
}

/// Taking the first edge of the queue into the tree, where it leads to a
/// vertex outside, keeps the state of the growth in order.
pub proof fn lemma_grow(
    w: Seq<Seq<u64>>,
    t: Seq<Seq<u64>>,
    inside: Seq<bool>,
    start: usize,
    queue: Multiset<Entry>,
    e: Entry,
)
    requires
        tree_ok(w, t, inside, start, queue, 0, w.len() as int),
        queue.count(e) > 0,
        forall|x: Entry| queue.count(x) > 0 ==> entry_le(e, x),
        !inside[e.2 as int],
    ensures
        tree_ok(
            w,
            with_pair(t, e.1 as int, e.2 as int, w[e.1 as int][e.2 as int]),
            inside.update(e.2 as int, true),
            start,
            queue.remove(e),
            e.2 as int,
            0,
        ),
{
    reveal(tree_ok);
    let n = w.len();
    let a = e.1;
    let b = e.2;
    let x = w[a as int][b as int];
    assert forall|i: int, j: int|
        0 <= i < n && 0 <= j < n && inside[i] && !inside[j] && #[trigger] w[i][j] > 0 implies x
        <= w[i][j] by {
        assert(link(w, i as usize, j as usize) > 0);
        assert(entry_le(e, (w[i][j] as u128, i as usize, j as usize)));
    }
    lemma_safe_edge(w, t, inside, a, b);
    let t2 = with_pair(t, a as int, b as int, x);
    let grown = inside.update(b as int, true);
    lemma_weight_with_pair(t, n, a as int, b as int, x);
    assert(includes(t2, t)) by {
        assert forall|i: int, j: int| 0 <= i < n && 0 <= j < n && #[trigger] t[i][j] > 0 implies t2[i][j]
            > 0 by {
            assert(inside[i] && inside[j]);
        }
    }
    assert forall|i: int, j: int| 0 <= i < n && 0 <= j < n && #[trigger] t2[i][j] > 0 implies grown[i]
        && grown[j] by {
        if (i == a && j == b) || (i == b && j == a) {
        } else {
            assert(t[i][j] > 0);
        }
    }
    lemma_edge_reachable(t2, a, b);
    assert forall|v: usize| v < n && grown[v as int] implies #[trigger] reachable(t2, start, v) by {
        if v == b {
            assert(reachable(t, start, a));
            lemma_reachable_grows(t, t2, start, a);
            lemma_reachable_trans(t2, start, a, b);
        } else {
            assert(reachable(t, start, v));
            lemma_reachable_grows(t, t2, start, v);
        }
    }
    let rest = queue.remove(e);
    assert forall|i: usize, j: usize|
        i < n && j < n && grown[i as int] && !grown[j as int] && #[trigger] link(w, i, j) > 0 && (i
            != b || j < 0) implies rest.count((w[i as int][j as int] as u128, i, j)) > 0 by {
        assert(queue.count((w[i as int][j as int] as u128, i, j)) > 0);
    }
}

/// Looking at the edge from the tree vertex `u` to `j`, and putting it into
/// the queue where it leaves the tree, keeps the state of the growth in
/// order.
pub proof fn lemma_offer(
    w: Seq<Seq<u64>>,
    t: Seq<Seq<u64>>,
    inside: Seq<bool>,
    start: usize,
    queue: Multiset<Entry>,
    u: usize,
    j: usize,
)
    requires
        tree_ok(w, t, inside, start, queue, u as int, j as int),
        u < w.len(),
        j < w.len(),
        inside[u as int],
    ensures
        w[u as int][j as int] > 0 && !inside[j as int] ==> tree_ok(
            w,
            t,
            inside,
            start,
            queue.insert((w[u as int][j as int] as u128, u, j)),
            u as int,
            j + 1,
        ),
        !(w[u as int][j as int] > 0 && !inside[j as int]) ==> tree_ok(
            w,
            t,
            inside,
            start,
            queue,
            u as int,
            j + 1,
        ),
{
    reveal(tree_ok);
    let n = w.len();
    if w[u as int][j as int] > 0 && !inside[j as int] {
        let e = (w[u as int][j as int] as u128, u, j);
        let more = queue.insert(e);
        assert forall|a: usize, b: usize|
            a < n && b < n && inside[a as int] && !inside[b as int] && #[trigger] link(w, a, b) > 0
                && (a != u || b < j + 1) implies more.count((w[a as int][b as int] as u128, a, b))
            > 0 by {
            if a == u && b == j {
            } else {
                assert(queue.count((w[a as int][b as int] as u128, a, b)) > 0);
            }
        }
        assert forall|x: Entry| #[trigger] more.count(x) > 0 implies x.1 < n && x.2 < n
            && inside[x.1 as int] && x.0 == w[x.1 as int][x.2 as int] && x.0 > 0 by {
            if x != e {
                assert(queue.count(x) > 0);
            }
        }
    }
}

/// Once all edges of `u` have been looked at, no edge is left out.
pub proof fn lemma_offers_done(
    w: Seq<Seq<u64>>,
    t: Seq<Seq<u64>>,
    inside: Seq<bool>,
    start: usize,
    queue: Multiset<Entry>,
    u: int,
)
    requires
        tree_ok(w, t, inside, start, queue, u, w.len() as int),
    ensures
        tree_ok(w, t, inside, start, queue, 0, w.len() as int),
{
    reveal(tree_ok);
}

/// The tree that holds `start` alone, with an empty queue, is in order
/// before the edges of `start` have been looked at.
pub proof fn lemma_tree_start(w: Seq<Seq<u64>>, start: usize)
    requires
        w.len() <= usize::MAX,
        is_square(w, w.len()),
        is_mirrored(w),
        start < w.len(),
    ensures
        tree_ok(
            w,
            crate::graph::zero_matrix(w.len()),
            Seq::new(w.len(), |i: int| false).update(start as int, true),
            start,
            Multiset::empty(),
            start as int,
            0,
        ),
{
    reveal(tree_ok);
    lemma_promising_start(w);
    lemma_reachable_self(crate::graph::zero_matrix(w.len()), start);
}

/// An entry of the queue names two vertices, and dropping one that leads
/// to a vertex of the tree keeps the state of the growth in order.
pub proof fn lemma_entry(
    w: Seq<Seq<u64>>,
    t: Seq<Seq<u64>>,
    inside: Seq<bool>,
    start: usize,
    queue: Multiset<Entry>,
    e: Entry,
)
    requires
        tree_ok(w, t, inside, start, queue, 0, w.len() as int),
        queue.count(e) > 0,
    ensures
        e.1 < w.len(),
        e.2 < w.len(),
        inside.len() == w.len(),
        inside[e.2 as int] ==> tree_ok(w, t, inside, start, queue.remove(e), 0, w.len() as int),
{
    reveal(tree_ok);
    if inside[e.2 as int] {
        let rest = queue.remove(e);
        let n = w.len();
        assert forall|a: usize, b: usize|
            a < n && b < n && inside[a as int] && !inside[b as int] && #[trigger] link(w, a, b)
                > 0 implies rest.count((w[a as int][b as int] as u128, a, b)) > 0 by {
            assert(queue.count((w[a as int][b as int] as u128, a, b)) > 0);
        }
    }
}

/// Once no edge leaves the tree, no walk leads from `start` to a vertex
/// outside the tree.
pub proof fn lemma_tree_closed(
    w: Seq<Seq<u64>>,
    t: Seq<Seq<u64>>,
    inside: Seq<bool>,
    start: usize,
    queue: Multiset<Entry>,
    v: usize,
)
    requires
        tree_ok(w, t, inside, start, queue, 0, w.len() as int),
        queue.len() == 0,
        v < w.len(),
        !inside[v as int],
    ensures
        !reachable(w, start, v),
{
    reveal(tree_ok);
    if reachable(w, start, v) {
        let q = choose|q: Seq<usize>| #[trigger] joins(w, q, start, v);
        let k = lemma_first_unmarked(q, inside);
        assert(link(w, q[k - 1], q[k - 1 + 1]) > 0);
        assert(queue.count((w[q[k - 1] as int][q[k] as int] as u128, q[k - 1], q[k])) > 0);
    }
}

/// A tree that holds every vertex is a lightest spanning subgraph, and the
/// graph is connected.
pub proof fn lemma_tree_done(
    w: Seq<Seq<u64>>,
    t: Seq<Seq<u64>>,
    inside: Seq<bool>,
    start: usize,
    queue: Multiset<Entry>,
)
    requires
        tree_ok(w, t, inside, start, queue, 0, w.len() as int),
        forall|v: int| 0 <= v < inside.len() ==> inside[v],
    ensures
        is_min_spanning(t, w),
        connected(w),
{
    reveal(tree_ok);
    let n = w.len();
    assert(includes(w, t)) by {
        assert forall|i: int, j: int| 0 <= i < n && 0 <= j < n && #[trigger] t[i][j] > 0 implies w[i][j]
            > 0 by {
            assert(t[i][j] == 0 || t[i][j] == w[i][j]);
        }
    }
    assert forall|a: usize, b: usize| a < n && b < n implies reachable(t, a, b) && #[trigger] reachable(
        w,
        a,
        b,
    ) by {
        assert(reachable(t, start, a));
        assert(reachable(t, start, b));
        lemma_reachable_sym(t, start, a);
        lemma_reachable_trans(t, a, start, b);
        lemma_reachable_grows(t, w, a, b);
    }
    assert(spans(t, w)) by {
        assert forall|a: usize, b: usize| #[trigger] reachable(w, a, b) implies reachable(
            t,
            a,
            b,
        ) by {
            lemma_reachable_in_range(w, a, b);
        }
    }
    lemma_promising_end(w, t);
}

/// Whether the cell `(i, j)` comes before the cell `(a, b)` in the order of
/// rows and columns.
pub open spec fn comes_before(i: int, j: int, a: int, b: int) -> bool {
    i < a || (i == a && j < b)
}

/// Whether the matrix holds an edge.
pub open spec fn has_edges(w: Seq<Seq<u64>>) -> bool {
    exists|a: int, b: int| 0 <= a < w.len() && 0 <= b < w.len() && #[trigger] w[a][b] > 0
}

/// Whether the cell `(i, j)` holds the lightest edge, and the first of the
/// lightest edges in the order of rows and columns: no edge is lighter, and
/// every edge in a cell before this one is heavier.
pub open spec fn is_first_lightest(w: Seq<Seq<u64>>, i: int, j: int) -> bool {
    &&& 0 <= i < w.len()
    &&& 0 <= j < w.len()
    &&& w[i][j] > 0
    &&& forall|a: int, b: int|
        0 <= a < w.len() && 0 <= b < w.len() && #[trigger] w[a][b] > 0 ==> w[i][j] <= w[a][b] && (
        comes_before(a, b, i, j) ==> w[i][j] < w[a][b])
}

/// The vertex at which the lightest edge starts, the first such edge in
/// the order of rows and columns; vertex 0 where there is no edge.
pub fn lightest_start(m: &Vec<Vec<u64>>) -> (start: usize)
    requires
        is_square(matrix_view(m@), m.len() as nat),
    ensures
        m.len() > 0 ==> start < m.len(),
        !has_edges(matrix_view(m@)) ==> start == 0,
        has_edges(matrix_view(m@)) ==> exists|j: int| #[trigger]
            is_first_lightest(matrix_view(m@), start as int, j),
{
    let n: usize = m.len();
    let ghost w = matrix_view(m@);
    let mut start: usize = 0;
    let mut least: u64 = 0;
    let ghost mut col: int = 0;
    let mut i: usize = 0;
    while i < n
        invariant
            i <= n,
            n == m.len(),
            w == matrix_view(m@),
            is_square(w, n as nat),
            n > 0 ==> start < n,
            least == 0 ==> start == 0 && forall|a: int, b: int|
                0 <= a < i && 0 <= b < n ==> #[trigger] w[a][b] == 0,
            least > 0 ==> 0 <= col < n && start < i && w[start as int][col] == least
                && forall|a: int, b: int|
                0 <= a < i && 0 <= b < n && #[trigger] w[a][b] > 0 ==> least <= w[a][b] && (
                comes_before(a, b, start as int, col) ==> least < w[a][b]),
        decreases n - i,
    {
        let mut j: usize = 0;
        while j < n
            invariant
                i < n,
                j <= n,
                n == m.len(),
                w == matrix_view(m@),
                is_square(w, n as nat),
                start < n,
                least == 0 ==> start == 0 && forall|a: int, b: int|
                    0 <= a < n && 0 <= b < n && comes_before(a, b, i as int, j as int)
                        ==> #[trigger] w[a][b] == 0,
                least > 0 ==> 0 <= col < n && comes_before(start as int, col, i as int, j as int)
                    && w[start as int][col] == least && forall|a: int, b: int|
                    0 <= a < n && 0 <= b < n && comes_before(a, b, i as int, j as int)
                        && #[trigger] w[a][b] > 0 ==> least <= w[a][b] && (comes_before(
                        a,
                        b,
                        start as int,
                        col,
                    ) ==> least < w[a][b]),
            decreases n - j,
        {
            assert(w[i as int].len() == n);
            let x: u64 = m[i][j];
            if x > 0 && (least == 0 || x < least) {
                least = x;
                start = i;
                proof {
                    col = j as int;
                }
            }
            j += 1;
        }
        i += 1;
    }
    proof {
        if least == 0 {
            assert(!has_edges(w));
        } else {
            assert(is_first_lightest(w, start as int, col));
            assert(has_edges(w));
        }
    }
    start
}

/// The weight matrix of a minimum spanning tree of the undirected graph
/// with weight matrix `m`, or `None` where that graph is not connected. The
/// tree grows from an end of the lightest edge, each time by the lightest
/// edge that leaves it.
pub fn spanning_tree(m: &Vec<Vec<u64>>) -> (out: Option<Vec<Vec<u64>>>)
    requires
        is_square(matrix_view(m@), m.len() as nat),
        is_mirrored(matrix_view(m@)),
    ensures
        out is Some <==> connected(matrix_view(m@)),
        out is Some ==> is_min_spanning(matrix_view(out->Some_0@), matrix_view(m@)),
{
    let n: usize = m.len();
    let ghost w = matrix_view(m@);
    let mut tree: Vec<Vec<u64>> = zero_rows(n);
    if n == 0 {
        proof {
            lemma_promising_start(w);
            assert(spans(matrix_view(tree@), w)) by {
                assert forall|a: usize, b: usize| #[trigger] reachable(w, a, b) implies reachable(
                    matrix_view(tree@),
                    a,
                    b,
                ) by {
                    lemma_reachable_in_range(w, a, b);
                }
            }
            lemma_promising_end(w, matrix_view(tree@));
        }
        return Some(tree);
    }
    let start: usize = lightest_start(m);
    let mut inside: Vec<bool> = filled(false, n);
    let mut queue = MinQueue::new();
    let mut count: usize = 1;
    proof {
        lemma_unset_count_bound(inside@);
        lemma_unset_count_update(inside@, start as int);
        lemma_tree_start(w, start);
    }
    inside[start] = true;
    let mut j: usize = 0;
    while j < n
        invariant
            j <= n,
            n == m.len(),
            n > 0,
            w == matrix_view(m@),
            start < n,
            inside.len() == n,
            is_square(w, n as nat),
            is_square(matrix_view(tree@), n as nat),
            inside@[start as int],
            tree_ok(w, matrix_view(tree@), inside@, start, queue@, start as int, j as int),
        decreases n - j,
    {
        assert(w[start as int].len() == n);
        proof {
            lemma_offer(w, matrix_view(tree@), inside@, start, queue@, start, j);
        }
        if m[start][j] > 0 && !inside[j] {
            queue.push((m[start][j] as u128, start, j));
        }
        j += 1;
    }
    proof {
        lemma_offers_done(w, matrix_view(tree@), inside@, start, queue@, start as int);
    }
    loop
        invariant
            n == m.len(),
            w == matrix_view(m@),
            1 <= count <= n,
            count + unset_count(inside@) == n,
            n > 0,
            start < n,
            inside.len() == n,
            is_square(w, n as nat),
            is_square(matrix_view(tree@), n as nat),
            tree_ok(w, matrix_view(tree@), inside@, start, queue@, 0, n as int),
        ensures
            inside.len() == n,
            tree_ok(w, matrix_view(tree@), inside@, start, queue@, 0, n as int),
            count + unset_count(inside@) == n,
            count == n || queue@.len() == 0,
        decreases unset_count(inside@), queue@.len(),
    {
        if count == n {
            break ;
        }
        let ghost before = queue@;
        let ghost t = matrix_view(tree@);
        let ghost inside_before = inside@;
        let e = match queue.pop() {
            Some(e) => e,
            None => { break ; },
        };
        let a: usize = e.1;
        let b: usize = e.2;
        proof {
            lemma_entry(w, t, inside@, start, before, e);
        }
        if inside[b] {
            continue ;
        }
        proof {
            lemma_grow(w, t, inside@, start, before, e);
            lemma_unset_count_update(inside@, b as int);
            assert(w[a as int].len() == n && w[b as int].len() == n);
        }
        let x: u64 = m[a][b];
        write_pair(&mut tree, a, b, x);
        inside[b] = true;
        count += 1;
        let mut j: usize = 0;
        while j < n
            invariant
                j <= n,
                b < n,
                n == m.len(),
                n > 0,
                w == matrix_view(m@),
                inside.len() == n,
                is_square(w, n as nat),
                is_square(matrix_view(tree@), n as nat),
                count + unset_count(inside@) == n,
                unset_count(inside@) < unset_count(inside_before),
                1 <= count <= n,
                start < n,
                inside@[b as int],
                tree_ok(w, matrix_view(tree@), inside@, start, queue@, b as int, j as int),
                decreases n - j,
        {
            assert(w[b as int].len() == n);
            proof {
                lemma_offer(w, matrix_view(tree@), inside@, start, queue@, b, j);
            }
            if m[b][j] > 0 && !inside[j] {
                queue.push((m[b][j] as u128, b, j));
            }
            j += 1;
        }
        proof {
            lemma_offers_done(w, matrix_view(tree@), inside@, start, queue@, b as int);
        }
    }
    if count == n {
        proof {
            lemma_all_set(inside@);
            lemma_tree_done(w, matrix_view(tree@), inside@, start, queue@);
        }
        Some(tree)
    } else {
        proof {
            if forall|v: int| 0 <= v < n ==> inside@[v] {
                lemma_unset_count_bound(inside@);
                lemma_none_unset(inside@);
            }
            let v = choose|v: int| 0 <= v < n && !inside@[v];
            lemma_tree_closed(w, matrix_view(tree@), inside@, start, queue@, v as usize);
        }
        None
    }
}

/// Writes the weight `x` for the edge between `a` and `b`.
pub fn write_pair(t: &mut Vec<Vec<u64>>, a: usize, b: usize, x: u64)
    requires
        is_square(matrix_view(old(t)@), old(t).len() as nat),
        a < old(t).len(),
        b < old(t).len(),
    ensures
        matrix_view(final(t)@) == with_pair(matrix_view(old(t)@), a as int, b as int, x),
        is_square(matrix_view(final(t)@), old(t).len() as nat),
        final(t).len() == old(t).len(),
{
    assert(matrix_view(t@)[a as int].len() == t.len());
    assert(matrix_view(t@)[b as int].len() == t.len());
    t[a][b] = x;
    t[b][a] = x;
    assert(matrix_view(t@) =~= with_pair(matrix_view(old(t)@), a as int, b as int, x));
    assert forall|i: int| 0 <= i < t.len() implies (#[trigger] matrix_view(t@)[i]).len()
        == t.len() by {
        assert(matrix_view(old(t)@)[i].len() == t.len());
    }
}

impl<V: Clone> Graph<V> {
    /// A minimum spanning tree of this undirected graph: a graph on the
    /// same vertices that keeps some of the edges, joins all vertices, and
    /// has the least total weight of all such graphs.
    pub fn get_mst_prim(&self) -> (r: Result<Graph<V>, GraphError>)
        ensures
            !self.squared() ==> r is Err && r->Err_0 == GraphError::NotSquare,
            self.squared() && !self.symmetric() ==> r is Err && r->Err_0
                == GraphError::NotSymmetric,
            self.symmetric() && !connected(self.weights()) ==> r is Err && r->Err_0
                == GraphError::Disconnected,
            self.symmetric() && connected(self.weights()) ==> r is Ok && same_labels(
                self.labels(),
                r->Ok_0.labels(),
            ) && is_min_spanning(r->Ok_0.weights(), self.weights()),
    {
        if !self.is_squared() {
            return Err(GraphError::NotSquare);
        }
        if !self.is_symmetric() {
            return Err(GraphError::NotSymmetric);
        }
        match spanning_tree(self.get_adjacency_matrix()) {
            Some(tree) => Ok(self.with_matrix(tree)),
            None => Err(GraphError::Disconnected),
        }
    }
}

} // verus!
