use vstd::prelude::*;
use vstd::multiset::Multiset;
use std::collections::VecDeque;
use crate::error::GraphError;
use crate::graph::{is_square, matrix_view, Graph};
use crate::marks::{filled, lemma_unset_count_update, unset_count};
use crate::queue::{entry_le, Entry, MinQueue};
use crate::route::{link, path_cost};
use crate::walks::{
    joins, lemma_distinct_len, lemma_first_unmarked, lemma_path_cost_bound,
    lemma_walk_prefix, lemma_walk_push, reachable,
};

verus! {

/// Whether `p` is a walk from `a` to `b` that visits no vertex twice and
/// costs no more than any other walk from `a` to `b`.
pub open spec fn is_shortest_path(w: Seq<Seq<u64>>, p: Seq<usize>, a: usize, b: usize) -> bool {
    &&& joins(w, p, a, b)
    &&& p.no_duplicates()
    &&& forall|q: Seq<usize>| joins(w, q, a, b) ==> path_cost(w, p) <= #[trigger] path_cost(w, q)
}

/// The vertex through which `v` was reached, or `v` itself for the source.
pub open spec fn via(prev: Seq<Option<usize>>, v: int) -> usize {
    match prev[v] {
        Some(u) => u,
        None => v as usize,
    }
}

/// What is kept for vertex `v` during the search: nothing where no walk to
/// it has been found yet, else the cheapest walk found so far, which runs
/// through closed vertices only and ends with the step from `prev[v]`.
pub open spec fn reached_ok(
    w: Seq<Seq<u64>>,
    src: usize,
    dist: Seq<Option<u128>>,
    prev: Seq<Option<usize>>,
    closed: Seq<bool>,
    found: Seq<Seq<usize>>,
    v: int,
) -> bool {
    match dist[v] {
        None => prev[v] is None && !closed[v],
        Some(d) => {
            &&& joins(w, found[v], src, v as usize)
            &&& path_cost(w, found[v]) == d
            &&& found[v].no_duplicates()
            &&& forall|i: int| 0 <= i < found[v].len() - 1 ==> closed[#[trigger] found[v][i] as int]
            &&& match prev[v] {
                None => found[v] == seq![src],
                Some(u) => u < dist.len() && closed[u as int] && dist[u as int] is Some
                    && found[v] == found[u as int].push(v as usize),
            }
        },
    }
}

/// Whether the distance kept for the closed vertex `v` is that of a
/// cheapest walk.
pub open spec fn settled_ok(
    w: Seq<Seq<u64>>,
    src: usize,
    dist: Seq<Option<u128>>,
    closed: Seq<bool>,
    v: int,
) -> bool {
    closed[v] ==> dist[v] is Some && forall|q: Seq<usize>|
        joins(w, q, src, v as usize) ==> dist[v]->Some_0 <= #[trigger] path_cost(w, q)
}

/// Whether the edge from the closed vertex `x` to `v`, if there is one, has
/// been taken into account.
pub open spec fn edge_ok(
    w: Seq<Seq<u64>>,
    dist: Seq<Option<u128>>,
    closed: Seq<bool>,
    x: int,
    v: int,
) -> bool {
    closed[x] && w[x][v] > 0 ==> dist[x] is Some && dist[v] is Some && dist[v]->Some_0
        <= dist[x]->Some_0 + w[x][v]
}

/// The state of the search while the edges of the closed vertex `u` to the
/// vertices below `j` have been taken into account, and all edges of the
/// other closed vertices.
pub open spec fn search_ok(
    w: Seq<Seq<u64>>,
    src: usize,
    dist: Seq<Option<u128>>,
    prev: Seq<Option<usize>>,
    closed: Seq<bool>,
    found: Seq<Seq<usize>>,
    queue: Multiset<Entry>,
    u: int,
    j: int,
) -> bool {
    let n = w.len();
    &&& is_square(w, n)
    &&& src < n
    &&& dist.len() == n
    &&& prev.len() == n
    &&& closed.len() == n
    &&& found.len() == n
    &&& dist[src as int] is Some
    &&& forall|v: int| 0 <= v < n ==> reached_ok(w, src, dist, prev, closed, found, v)
    &&& forall|v: int| 0 <= v < n ==> settled_ok(w, src, dist, closed, v)
    &&& forall|x: int, v: int|
        0 <= x < n && 0 <= v < n && (x != u || v < j) ==> edge_ok(w, dist, closed, x, v)
    &&& forall|e: Entry| #[trigger]
        queue.count(e) > 0 ==> e.1 < n && dist[e.1 as int] is Some && dist[e.1 as int]->Some_0
            <= e.0
    &&& forall|v: int|
        0 <= v < n && !closed[v] && dist[v] is Some ==> queue.count(
            (#[trigger] dist[v]->Some_0, v as usize, via(prev, v)),
        ) > 0
}

/// Whether the vertex `u` at distance `d` is closed no later than the
/// vertex `v` at distance `e`: the nearer vertex first, and of two equally
/// near ones that with the lower index.
pub open spec fn nearer_first(d: int, u: int, e: int, v: int) -> bool {
    d < e || (d == e && u <= v)
}

/// What the order in which vertices are closed has to do with the choice
/// of predecessors: every closed vertex is closed no later than any vertex
/// still open would be, and the predecessor of a vertex is, of the closed
/// vertices through which the vertex is reached as cheaply, the one that
/// was closed first.
pub open spec fn choice_ok(
    w: Seq<Seq<u64>>,
    dist: Seq<Option<u128>>,
    prev: Seq<Option<usize>>,
    closed: Seq<bool>,
) -> bool {
    let n = w.len();
    &&& forall|u: int, v: int|
        0 <= u < n && 0 <= v < n && closed[u] && !closed[v] && #[trigger] dist[u] is Some
            && #[trigger] dist[v] is Some ==> nearer_first(
            dist[u]->Some_0 as int,
            u,
            dist[v]->Some_0 as int,
            v,
        )
    &&& forall|v: int, x: int|
        0 <= v < n && 0 <= x < n && #[trigger] prev[v] is Some && closed[x] && #[trigger] dist[x] is Some
            && dist[v] is Some && w[x][v] > 0 && dist[x]->Some_0 + w[x][v] == dist[v]->Some_0
            ==> nearer_first(
            dist[prev[v]->Some_0 as int]->Some_0 as int,
            prev[v]->Some_0 as int,
            dist[x]->Some_0 as int,
            x,
        )
}

/// Closing the vertex of the entry that leaves the queue first keeps the
/// order of closing and the choice of predecessors in step; and no closed
/// vertex is farther than it.
pub proof fn lemma_choice_close(
    w: Seq<Seq<u64>>,
    src: usize,
    dist: Seq<Option<u128>>,
    prev: Seq<Option<usize>>,
    closed: Seq<bool>,
    found: Seq<Seq<usize>>,
    queue: Multiset<Entry>,
    e: Entry,
)
    requires
        search_ok(w, src, dist, prev, closed, found, queue, 0, w.len() as int),
        choice_ok(w, dist, prev, closed),
        queue.count(e) > 0,
        forall|x: Entry| queue.count(x) > 0 ==> entry_le(e, x),
        !closed[e.1 as int],
        dist[e.1 as int] == Some(e.0),
    ensures
        choice_ok(w, dist, prev, closed.update(e.1 as int, true)),
        forall|u: int|
            0 <= u < w.len() && closed.update(e.1 as int, true)[u] && #[trigger] dist[u] is Some
                ==> nearer_first(dist[u]->Some_0 as int, u, e.0 as int, e.1 as int),
{
    let n = w.len();
    let x = e.1 as int;
    let after = closed.update(x, true);
    assert forall|u: int, v: int|
        0 <= u < n && 0 <= v < n && after[u] && !after[v] && #[trigger] dist[u] is Some
            && #[trigger] dist[v] is Some implies nearer_first(
        dist[u]->Some_0 as int,
        u,
        dist[v]->Some_0 as int,
        v,
    ) by {
        if u == x {
            let own = (dist[v]->Some_0, v as usize, via(prev, v));
            assert(queue.count(own) > 0);
            assert(entry_le(e, own));
        }
    }
    assert forall|v: int, y: int|
        0 <= v < n && 0 <= y < n && #[trigger] prev[v] is Some && after[y] && #[trigger] dist[y] is Some
            && dist[v] is Some && w[y][v] > 0 && dist[y]->Some_0 + w[y][v] == dist[v]->Some_0 implies nearer_first(
        dist[prev[v]->Some_0 as int]->Some_0 as int,
        prev[v]->Some_0 as int,
        dist[y]->Some_0 as int,
        y,
    ) by {
        if y == x {
            assert(reached_ok(w, src, dist, prev, closed, found, v));
            let u = prev[v]->Some_0 as int;
            assert(closed[u] && dist[u] is Some);
        }
    }
}

/// Reaching the open vertex `j` more cheaply through the vertex `x`, which
/// was closed last, keeps the order of closing and the choice of
/// predecessors in step.
pub proof fn lemma_choice_relax(
    w: Seq<Seq<u64>>,
    src: usize,
    dist: Seq<Option<u128>>,
    prev: Seq<Option<usize>>,
    closed: Seq<bool>,
    found: Seq<Seq<usize>>,
    queue: Multiset<Entry>,
    x: usize,
    j: usize,
    reach: u128,
)
    requires
        search_ok(w, src, dist, prev, closed, found, queue, x as int, j as int),
        choice_ok(w, dist, prev, closed),
        x < w.len(),
        j < w.len(),
        closed[x as int],
        !closed[j as int],
        dist[x as int] is Some,
        w[x as int][j as int] > 0,
        reach == dist[x as int]->Some_0 + w[x as int][j as int],
        dist[j as int] is Some ==> reach < dist[j as int]->Some_0,
        forall|u: int|
            0 <= u < w.len() && closed[u] && #[trigger] dist[u] is Some ==> nearer_first(
                dist[u]->Some_0 as int,
                u,
                dist[x as int]->Some_0 as int,
                x as int,
            ),
    ensures
        choice_ok(w, dist.update(j as int, Some(reach)), prev.update(j as int, Some(x)), closed),
{
    let n = w.len();
    let dist2 = dist.update(j as int, Some(reach));
    let prev2 = prev.update(j as int, Some(x));
    assert forall|u: int, v: int|
        0 <= u < n && 0 <= v < n && closed[u] && !closed[v] && #[trigger] dist2[u] is Some
            && #[trigger] dist2[v] is Some implies nearer_first(
        dist2[u]->Some_0 as int,
        u,
        dist2[v]->Some_0 as int,
        v,
    ) by {
        assert(dist[u] is Some);
        if v != j {
            assert(dist[v] is Some);
        }
    }
    assert forall|v: int, y: int|
        0 <= v < n && 0 <= y < n && #[trigger] prev2[v] is Some && closed[y] && #[trigger] dist2[y] is Some
            && dist2[v] is Some && w[y][v] > 0 && dist2[y]->Some_0 + w[y][v]
            == dist2[v]->Some_0 implies nearer_first(
        dist2[prev2[v]->Some_0 as int]->Some_0 as int,
        prev2[v]->Some_0 as int,
        dist2[y]->Some_0 as int,
        y,
    ) by {
        assert(dist[y] is Some);
        if v == j {
            if y != x {
                assert(edge_ok(w, dist, closed, y, j as int));
            }
        } else {
            assert(prev[v] is Some);
            assert(reached_ok(w, src, dist, prev, closed, found, v));
        }
    }
}

/// The entry that leaves the queue first, if its vertex is not closed yet,
/// holds the true distance of that vertex.
pub proof fn lemma_front_is_settled(
    w: Seq<Seq<u64>>,
    src: usize,
    dist: Seq<Option<u128>>,
    prev: Seq<Option<usize>>,
    closed: Seq<bool>,
    found: Seq<Seq<usize>>,
    queue: Multiset<Entry>,
    e: Entry,
)
    requires
        search_ok(w, src, dist, prev, closed, found, queue, 0, w.len() as int),
        queue.count(e) > 0,
        forall|x: Entry| queue.count(x) > 0 ==> entry_le(e, x),
        !closed[e.1 as int],
    ensures
        dist[e.1 as int] == Some(e.0),
        forall|q: Seq<usize>| joins(w, q, src, e.1) ==> e.0 <= #[trigger] path_cost(w, q),
{
    let n = w.len();
    let u = e.1 as int;
    let own = (dist[u]->Some_0, u as usize, via(prev, u));
    assert(queue.count(own) > 0);
    assert(entry_le(e, own));
    assert forall|q: Seq<usize>| joins(w, q, src, e.1) implies e.0 <= #[trigger] path_cost(
        w,
        q,
    ) by {
        let k = lemma_first_unmarked(q, closed);
        let y = q[k] as int;
        lemma_walk_prefix(w, q, k);
        crate::route::lemma_path_cost_prefix(w, q, k + 1);
        if k == 0 {
            assert(reached_ok(w, src, dist, prev, closed, found, y));
            lemma_path_cost_bound(w, q.take(1));
        } else {
            let x = q[k - 1] as int;
            lemma_walk_prefix(w, q, k - 1);
            assert(settled_ok(w, src, dist, closed, x));
            assert(dist[x]->Some_0 <= path_cost(w, q.take(k)));
            assert(link(w, q[k - 1], q[k - 1 + 1]) > 0);
            assert(edge_ok(w, dist, closed, x, y));
            assert(q.take(k + 1).drop_last() =~= q.take(k));
        }
        let other = (dist[y]->Some_0, y as usize, via(prev, y));
        assert(queue.count(other) > 0);
        assert(entry_le(e, other));
    }
}

/// What the search leaves behind for vertex `v`: for a vertex that can be
/// reached, a shortest path to it, which ends with the step from `prev[v]`;
/// for any other, no predecessor.
pub open spec fn traced_ok(
    w: Seq<Seq<u64>>,
    src: usize,
    prev: Seq<Option<usize>>,
    found: Seq<Seq<usize>>,
    v: int,
) -> bool {
    if reachable(w, src, v as usize) {
        &&& is_shortest_path(w, found[v], src, v as usize)
        &&& match prev[v] {
            None => found[v] == seq![src],
            Some(u) => u < w.len() && reachable(w, src, u) && found[v] == found[u as int].push(
                v as usize,
            ),
        }
    } else {
        prev[v] is None
    }
}

/// Whether the predecessor of `v` is, of the vertices through which `v` is
/// reached as cheaply, the nearest to the source, and of equally near ones
/// that with the lowest index.
pub open spec fn chosen_way(
    w: Seq<Seq<u64>>,
    src: usize,
    prev: Seq<Option<usize>>,
    found: Seq<Seq<usize>>,
    v: int,
) -> bool {
    forall|x: usize|
        x < w.len() && #[trigger] reachable(w, src, x) && prev[v] is Some && w[x as int][v] > 0
            && path_cost(w, found[x as int]) + w[x as int][v] == path_cost(w, found[v])
            ==> nearer_first(
            path_cost(w, found[prev[v]->Some_0 as int]),
            prev[v]->Some_0 as int,
            path_cost(w, found[x as int]),
            x as int,
        )
}

/// Whether each vertex of the path `p` from `a` is reached from the vertex
/// before it by choice: of the vertices through which it is reached as
/// cheaply, that vertex is the nearest to `a`, and of equally near ones that
/// with the lowest index.
pub open spec fn takes_first_way(w: Seq<Seq<u64>>, a: usize, p: Seq<usize>) -> bool {
    forall|k: int, q: Seq<usize>|
        1 <= k < p.len() && #[trigger] joins(w, q, a, q.last()) && link(w, q.last(), p[k]) > 0
            && path_cost(w, q) + link(w, q.last(), p[k]) == #[trigger] path_cost(w, p.take(k + 1))
            ==> nearer_first(path_cost(w, p.take(k)), p[k - 1] as int, path_cost(w, q), q.last() as int)
}

/// The path that the search has found to a vertex reaches each of its
/// vertices by choice.
pub proof fn lemma_first_way(
    w: Seq<Seq<u64>>,
    src: usize,
    prev: Seq<Option<usize>>,
    found: Seq<Seq<usize>>,
    v: usize,
)
    requires
        prev.len() == w.len(),
        found.len() == w.len(),
        forall|y: int| 0 <= y < w.len() ==> traced_ok(w, src, prev, found, y),
        forall|y: int| 0 <= y < w.len() ==> chosen_way(w, src, prev, found, y),
        v < w.len(),
        reachable(w, src, v),
    ensures
        takes_first_way(w, src, found[v as int]),
    decreases found[v as int].len(),
{
    let p = found[v as int];
    assert(traced_ok(w, src, prev, found, v as int));
    match prev[v as int] {
        None => {},
        Some(u) => {
            let front = found[u as int];
            lemma_first_way(w, src, prev, found, u);
            assert(traced_ok(w, src, prev, found, u as int));
            assert(p.drop_last() =~= front);
            assert forall|k: int, q: Seq<usize>|
                1 <= k < p.len() && #[trigger] joins(w, q, src, q.last()) && link(
                    w,
                    q.last(),
                    p[k],
                ) > 0 && path_cost(w, q) + link(w, q.last(), p[k]) == #[trigger] path_cost(
                    w,
                    p.take(k + 1),
                ) implies nearer_first(
                path_cost(w, p.take(k)),
                p[k - 1] as int,
                path_cost(w, q),
                q.last() as int,
            ) by {
                if k < p.len() - 1 {
                    assert(p.take(k + 1) =~= front.take(k + 1));
                    assert(p.take(k) =~= front.take(k));
                    assert(p[k] == front[k] && p[k - 1] == front[k - 1]);
                } else {
                    let x = q.last();
                    assert(p.take(k + 1) =~= p);
                    assert(p.take(k) =~= front);
                    assert(reachable(w, src, x));
                    assert(traced_ok(w, src, prev, found, x as int));
                    assert(chosen_way(w, src, prev, found, v as int));
                    lemma_walk_push(w, found[x as int], v);
                    assert(path_cost(w, found[x as int]) <= path_cost(w, q));
                    assert(path_cost(w, p) <= path_cost(w, found[x as int].push(v)));
                }
            }
        },
    }
}

/// Runs the search from `src` over the whole graph and returns, for each
/// vertex, the vertex before it on a shortest path from `src`.
fn search_from(m: &Vec<Vec<u64>>, src: usize) -> (out: (Vec<Option<usize>>, Ghost<Seq<Seq<usize>>>))
    requires
        is_square(matrix_view(m@), m.len() as nat),
        src < m.len(),
    ensures
        out.0.len() == m.len(),
        out.1@.len() == m.len(),
        forall|v: int| 0 <= v < m.len() ==> traced_ok(matrix_view(m@), src, out.0@, out.1@, v),
        forall|v: int| 0 <= v < m.len() ==> chosen_way(matrix_view(m@), src, out.0@, out.1@, v),
{
    let n: usize = m.len();
    let ghost w = matrix_view(m@);
    let mut dist: Vec<Option<u128>> = filled(None, n);
    let mut prev: Vec<Option<usize>> = filled(None, n);
    let mut closed: Vec<bool> = filled(false, n);
    let mut queue = MinQueue::new();
    let ghost mut found: Seq<Seq<usize>> = Seq::new(n as nat, |i: int| seq![src]);
    dist[src] = Some(0);
    queue.push((0, src, src));
    proof {
        assert(joins(w, seq![src], src, src));
        assert forall|e: Entry| #[trigger] queue@.count(e) > 0 implies e == (0u128, src, src) by {
            if e != (0u128, src, src) {
                assert(queue@.count(e) == 0);
            }
        }
    }
    loop
        invariant
            n == m.len(),
            w == matrix_view(m@),
            search_ok(w, src, dist@, prev@, closed@, found, queue@, 0, n as int),
            choice_ok(w, dist@, prev@, closed@),
        ensures
            search_ok(w, src, dist@, prev@, closed@, found, queue@, 0, n as int),
            choice_ok(w, dist@, prev@, closed@),
            queue@.len() == 0,
        decreases unset_count(closed@), queue@.len(),
    {
        let ghost before = queue@;
        let e = match queue.pop() {
            Some(e) => e,
            None => { break ; },
        };
        let u: usize = e.1;
        assert(before.count(e) > 0);
        if closed[u] {
            assert(search_ok(w, src, dist@, prev@, closed@, found, queue@, 0, n as int));
            continue ;
        }
        proof {
            lemma_front_is_settled(w, src, dist@, prev@, closed@, found, before, e);
            lemma_unset_count_update(closed@, u as int);
            lemma_choice_close(w, src, dist@, prev@, closed@, found, before, e);
        }
        let d: u128 = e.0;
        let ghost closed_before = closed@;
        closed[u] = true;
        proof {
            assert forall|v: int| 0 <= v < n implies reached_ok(
                w,
                src,
                dist@,
                prev@,
                closed@,
                found,
                v,
            ) by {
                assert(reached_ok(w, src, dist@, prev@, closed_before, found, v));
            }
            assert forall|v: int| 0 <= v < n implies settled_ok(w, src, dist@, closed@, v) by {
                assert(settled_ok(w, src, dist@, closed_before, v));
            }
            assert forall|x: int, v: int|
                0 <= x < n && 0 <= v < n && (x != u || v < 0) implies edge_ok(
                w,
                dist@,
                closed@,
                x,
                v,
            ) by {
                assert(edge_ok(w, dist@, closed_before, x, v));
            }
            assert forall|v: int| 0 <= v < n && !closed@[v] && dist@[v] is Some implies queue@.count(
                (#[trigger] dist@[v]->Some_0, v as usize, via(prev@, v)),
            ) > 0 by {
                assert(before.count((dist@[v]->Some_0, v as usize, via(prev@, v))) > 0);
            }
        }
        let mut j: usize = 0;
        while j < n
            invariant
                j <= n,
                u < n,
                n == m.len(),
                w == matrix_view(m@),
                closed@[u as int],
                dist@[u as int] == Some(d),
                search_ok(w, src, dist@, prev@, closed@, found, queue@, u as int, j as int),
                choice_ok(w, dist@, prev@, closed@),
                forall|y: int|
                    0 <= y < n && closed@[y] && #[trigger] dist@[y] is Some ==> nearer_first(
                        dist@[y]->Some_0 as int,
                        y,
                        d as int,
                        u as int,
                    ),
                unset_count(closed@) < unset_count(closed_before),
            decreases n - j,
        {
            assert(w[u as int].len() == n);
            let weight: u64 = m[u][j];
            assert(weight == w[u as int][j as int]);
            let ghost dist_before = dist@;
            let ghost prev_before = prev@;
            let ghost found_before = found;
            let ghost queue_before = queue@;
            proof {
                assert(reached_ok(w, src, dist@, prev@, closed@, found, u as int));
                assert(reached_ok(w, src, dist@, prev@, closed@, found, j as int));
                assert(settled_ok(w, src, dist@, closed@, j as int));
                if weight > 0 {
                    lemma_walk_push(w, found[u as int], j);
                    lemma_path_cost_bound(w, found[u as int]);
                    lemma_distinct_len(found[u as int], n as nat);
                    let steps = found[u as int].len() as int;
                    assert(1 <= steps <= usize::MAX);
                    assert((steps - 1) * u64::MAX + u64::MAX <= u128::MAX) by (nonlinear_arith)
                        requires
                            1 <= steps <= 0xffff_ffff_ffff_ffff,
                    ;
                }
            }
            if weight > 0 && !closed[j] {
                let reach: u128 = d + weight as u128;
                let better: bool = match dist[j] {
                    None => true,
                    Some(old) => reach < old,
                };
                if better {
                    proof {
                        lemma_choice_relax(w, src, dist@, prev@, closed@, found, queue@, u, j, reach);
                    }
                    dist[j] = Some(reach);
                    prev[j] = Some(u);
                    queue.push((reach, j, u));
                    proof {
                        found = found.update(j as int, found[u as int].push(j));
                        assert(found[j as int].no_duplicates()) by {
                            let p = found_before[u as int];
                            assert forall|a: int| 0 <= a < p.len() implies p[a] != j by {
                                if a < p.len() - 1 {
                                    assert(closed@[p[a] as int]);
                                }
                            }
                        }
                        assert forall|v: int| 0 <= v < n implies reached_ok(
                            w,
                            src,
                            dist@,
                            prev@,
                            closed@,
                            found,
                            v,
                        ) by {
                            assert(reached_ok(
                                w,
                                src,
                                dist_before,
                                prev_before,
                                closed@,
                                found_before,
                                v,
                            ));
                            if v == j {
                                let p = found_before[u as int];
                                assert forall|i: int| 0 <= i < found[v].len() - 1 implies closed@[#[trigger] found[v][i] as int] by {
                                    if i < p.len() - 1 {
                                        assert(closed@[p[i] as int]);
                                    }
                                }
                            }
                        }
                        assert forall|v: int| 0 <= v < n implies settled_ok(
                            w,
                            src,
                            dist@,
                            closed@,
                            v,
                        ) by {
                            assert(settled_ok(w, src, dist_before, closed@, v));
                        }
                        assert forall|x: int, v: int|
                            0 <= x < n && 0 <= v < n && (x != u || v < j + 1) implies edge_ok(
                            w,
                            dist@,
                            closed@,
                            x,
                            v,
                        ) by {
                            if x != u || v < j {
                                assert(edge_ok(w, dist_before, closed@, x, v));
                            }
                        }
                        assert forall|e2: Entry| #[trigger] queue@.count(e2) > 0 implies e2.1 < n
                            && dist@[e2.1 as int] is Some && dist@[e2.1 as int]->Some_0 <= e2.0 by {
                            if e2 != (reach, j, u) {
                                assert(queue_before.count(e2) > 0);
                            }
                        }
                        assert forall|v: int|
                            0 <= v < n && !closed@[v] && dist@[v] is Some implies queue@.count(
                            (#[trigger] dist@[v]->Some_0, v as usize, via(prev@, v)),
                        ) > 0 by {
                            if v != j {
                                assert(queue_before.count(
                                    (dist_before[v]->Some_0, v as usize, via(prev_before, v)),
                                ) > 0);
                            }
                        }
                    }
                }
            } else {
                proof {
                    assert(edge_ok(w, dist@, closed@, u as int, j as int));
                }
            }
            proof {
                assert forall|x: int, v: int|
                    0 <= x < n && 0 <= v < n && (x != u || v < j + 1) implies edge_ok(
                    w,
                    dist@,
                    closed@,
                    x,
                    v,
                ) by {
                    if x == u && v == j {
                    } else if dist@ == dist_before {
                        assert(edge_ok(w, dist_before, closed@, x, v));
                    }
                }
            }
            j += 1;
        }
    }
    proof {
        assert forall|v: int| 0 <= v < n implies traced_ok(w, src, prev@, found, v) by {
            assert(reached_ok(w, src, dist@, prev@, closed@, found, v));
            assert(settled_ok(w, src, dist@, closed@, v));
            if reachable(w, src, v as usize) {
                if !closed@[v] {
                    lemma_unreached_stays_open(
                        w,
                        src,
                        dist@,
                        prev@,
                        closed@,
                        found,
                        queue@,
                        v as usize,
                    );
                }
                match prev@[v] {
                    None => {},
                    Some(x) => {
                        assert(reached_ok(w, src, dist@, prev@, closed@, found, x as int));
                    },
                }
            } else {
                if dist@[v] is Some {
                    assert(joins(w, found[v], src, v as usize));
                }
            }
        }
    }
    proof {
        assert forall|v: int| 0 <= v < n implies chosen_way(w, src, prev@, found, v) by {
            assert forall|x: usize|
                x < w.len() && #[trigger] reachable(w, src, x) && prev@[v] is Some && w[x as int][v]
                    > 0 && path_cost(w, found[x as int]) + w[x as int][v] == path_cost(
                    w,
                    found[v],
                ) implies nearer_first(
                path_cost(w, found[prev@[v]->Some_0 as int]),
                prev@[v]->Some_0 as int,
                path_cost(w, found[x as int]),
                x as int,
            ) by {
                if !closed@[x as int] {
                    lemma_unreached_stays_open(w, src, dist@, prev@, closed@, found, queue@, x);
                }
                assert(reached_ok(w, src, dist@, prev@, closed@, found, x as int));
                assert(reached_ok(w, src, dist@, prev@, closed@, found, v));
                assert(settled_ok(w, src, dist@, closed@, x as int));
                let u = prev@[v]->Some_0 as int;
                assert(reached_ok(w, src, dist@, prev@, closed@, found, u));
                assert(dist@[x as int] is Some && dist@[v] is Some && dist@[u] is Some);
            }
        }
    }
    (prev, Ghost(found))
}

/// Once the queue is empty, no walk leads from the source to a vertex that
/// is not closed.
pub proof fn lemma_unreached_stays_open(
    w: Seq<Seq<u64>>,
    src: usize,
    dist: Seq<Option<u128>>,
    prev: Seq<Option<usize>>,
    closed: Seq<bool>,
    found: Seq<Seq<usize>>,
    queue: Multiset<Entry>,
    v: usize,
)
    requires
        search_ok(w, src, dist, prev, closed, found, queue, 0, w.len() as int),
        queue.len() == 0,
        v < w.len(),
        !closed[v as int],
    ensures
        !reachable(w, src, v),
{
    if reachable(w, src, v) {
        let q = choose|q: Seq<usize>| #[trigger] joins(w, q, src, v);
        let k = lemma_first_unmarked(q, closed);
        let y = q[k] as int;
        if k > 0 {
            let x = q[k - 1] as int;
            assert(link(w, q[k - 1], q[k - 1 + 1]) > 0);
            assert(edge_ok(w, dist, closed, x, y));
        }
        assert(dist[y] is Some);
        assert(queue.count((dist[y]->Some_0, y as usize, via(prev, y))) > 0);
    }
}

impl<V> Graph<V> {
    /// A shortest path from `src_idx` to `dst_idx`, from the first to the
    /// last vertex. Of several shortest paths it is the one on which each
    /// vertex is reached from the vertex nearest to the source, and from the
    /// one with the lowest index among equally near ones. Where no walk
    /// leads from the one to the other, the result holds `dst_idx` alone.
    pub fn get_dijkstra_path(&self, src_idx: usize, dst_idx: usize) -> (r: Result<
        VecDeque<usize>,
        GraphError,
    >)
        ensures
            src_idx >= self.order() || dst_idx >= self.order() ==> r == Err::<
                VecDeque<usize>,
                GraphError,
            >(GraphError::OutOfRange),
            src_idx < self.order() && dst_idx < self.order() && !self.squared() ==> r == Err::<
                VecDeque<usize>,
                GraphError,
            >(GraphError::NotSquare),
            src_idx < self.order() && dst_idx < self.order() && self.squared() ==> r is Ok && (
            if reachable(self.weights(), src_idx, dst_idx) {
                is_shortest_path(self.weights(), r->Ok_0@, src_idx, dst_idx) && takes_first_way(
                    self.weights(),
                    src_idx,
                    r->Ok_0@,
                )
            } else {
                r->Ok_0@ == seq![dst_idx]
            }),
    {
        let n: usize = self.num_vertices();
        if n <= src_idx || n <= dst_idx {
            return Err(GraphError::OutOfRange);
        }
        if !self.is_squared() {
            return Err(GraphError::NotSquare);
        }
        let m = self.get_adjacency_matrix();
        let ghost w = self.weights();
        let (prev, Ghost(found)) = search_from(m, src_idx);
        proof {
            if reachable(w, src_idx, dst_idx) {
                lemma_first_way(w, src_idx, prev@, found, dst_idx);
            }
        }
        let mut path: VecDeque<usize> = VecDeque::new();
        path.push_front(dst_idx);
        let mut at: usize = dst_idx;
        assert(traced_ok(w, src_idx, prev@, found, dst_idx as int));
        loop
            invariant
                n == w.len(),
                prev.len() == n,
                found.len() == n,
                at < n,
                forall|v: int| 0 <= v < n ==> traced_ok(w, src_idx, prev@, found, v),
                path@.len() > 0,
                path@[0] == at,
                reachable(w, src_idx, dst_idx) ==> reachable(w, src_idx, at) && found[dst_idx as int]
                    == found[at as int] + path@.skip(1),
                !reachable(w, src_idx, dst_idx) ==> path@ == seq![dst_idx] && at == dst_idx,
            ensures
                reachable(w, src_idx, dst_idx) ==> path@ == found[dst_idx as int],
                !reachable(w, src_idx, dst_idx) ==> path@ == seq![dst_idx],
            decreases
                    if reachable(w, src_idx, at) {
                        found[at as int].len()
                    } else {
                        0
                    },
        {
            assert(traced_ok(w, src_idx, prev@, found, at as int));
            match prev[at] {
                Some(before) => {
                    let ghost old_path = path@;
                    path.push_front(before);
                    proof {
                        assert(path@.skip(1) =~= old_path);
                        assert(old_path =~= seq![at] + old_path.skip(1));
                        assert(found[before as int].push(at) + old_path.skip(1) =~= found[before as int]
                            + path@.skip(1));
                    }
                    at = before;
                },
                None => {
                    proof {
                        if reachable(w, src_idx, dst_idx) {
                            assert(found[at as int] + path@.skip(1) =~= path@);
                        }
                    }
                    break ;
                },
            }
        }
        Ok(path)
    }
}

} // verus!
