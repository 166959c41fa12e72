use vstd::prelude::*;
use vstd::set_lib::{lemma_int_range, lemma_len_subset, set_int_range};
use crate::route::{in_range, link, path_cost};

verus! {

/// Whether `p` is a walk in the graph with weights `w`: at least one
/// vertex, and an edge from each vertex to the next.
pub open spec fn is_walk(w: Seq<Seq<u64>>, p: Seq<usize>) -> bool {
    &&& p.len() > 0
    &&& in_range(p, w.len())
    &&& forall|k: int| 0 <= k < p.len() - 1 ==> #[trigger] link(w, p[k], p[k + 1]) > 0
}

/// Whether `p` is a walk from `a` to `b`.
pub open spec fn joins(w: Seq<Seq<u64>>, p: Seq<usize>, a: usize, b: usize) -> bool {
    is_walk(w, p) && p[0] == a && p.last() == b
}

/// Whether some walk leads from `a` to `b`.
pub open spec fn reachable(w: Seq<Seq<u64>>, a: usize, b: usize) -> bool {
    exists|p: Seq<usize>| #[trigger] joins(w, p, a, b)
}

/// Whether every vertex can be reached from every other.
pub open spec fn connected(w: Seq<Seq<u64>>) -> bool {
    forall|a: usize, b: usize| a < w.len() && b < w.len() ==> #[trigger] reachable(w, a, b)
}

/// The part of a walk up to its place `k` is a walk to the vertex there.
pub proof fn lemma_walk_prefix(w: Seq<Seq<u64>>, p: Seq<usize>, k: int)
    requires
        is_walk(w, p),
        0 <= k < p.len(),
    ensures
        joins(w, p.take(k + 1), p[0], p[k]),
{
    let q = p.take(k + 1);
    assert forall|i: int| 0 <= i < q.len() - 1 implies #[trigger] link(w, q[i], q[i + 1]) > 0 by {
        assert(link(w, p[i], p[i + 1]) > 0);
    }
}

/// The part of a walk from its place `k` on is a walk from the vertex
/// there.
pub proof fn lemma_walk_suffix(w: Seq<Seq<u64>>, p: Seq<usize>, k: int)
    requires
        is_walk(w, p),
        0 <= k < p.len(),
    ensures
        joins(w, p.skip(k), p[k], p.last()),
{
    let q = p.skip(k);
    assert forall|i: int| 0 <= i < q.len() - 1 implies #[trigger] link(w, q[i], q[i + 1]) > 0 by {
        assert(link(w, p[k + i], p[k + i + 1]) > 0);
    }
}

/// A walk that is followed by an edge is a walk.
pub proof fn lemma_walk_push(w: Seq<Seq<u64>>, p: Seq<usize>, v: usize)
    requires
        is_walk(w, p),
        v < w.len(),
        link(w, p.last(), v) > 0,
    ensures
        joins(w, p.push(v), p[0], v),
        path_cost(w, p.push(v)) == path_cost(w, p) + link(w, p.last(), v),
{
    let q = p.push(v);
    assert forall|i: int| 0 <= i < q.len() - 1 implies #[trigger] link(w, q[i], q[i + 1]) > 0 by {
        if i < p.len() - 1 {
            assert(link(w, p[i], p[i + 1]) > 0);
        }
    }
    assert(q.drop_last() =~= p);
}

/// Two walks of which the second starts where the first ends make one walk.
pub proof fn lemma_walk_concat(w: Seq<Seq<u64>>, p: Seq<usize>, q: Seq<usize>)
    requires
        is_walk(w, p),
        is_walk(w, q),
        p.last() == q[0],
    ensures
        joins(w, p + q.skip(1), p[0], q.last()),
{
    let r = p + q.skip(1);
    assert forall|i: int| 0 <= i < r.len() - 1 implies #[trigger] link(w, r[i], r[i + 1]) > 0 by {
        if i < p.len() - 1 {
            assert(link(w, p[i], p[i + 1]) > 0);
        } else {
            let j = i - (p.len() - 1);
            assert(link(w, q[j], q[j + 1]) > 0);
        }
    }
}

/// On a matrix equal to its transpose a walk can be walked backwards.
pub proof fn lemma_walk_reverse(w: Seq<Seq<u64>>, p: Seq<usize>)
    requires
        is_walk(w, p),
        crate::graph::is_mirrored(w),
    ensures
        joins(w, p.reverse(), p.last(), p[0]),
{
    let r = p.reverse();
    assert forall|i: int| 0 <= i < r.len() - 1 implies #[trigger] link(w, r[i], r[i + 1]) > 0 by {
        let j = p.len() - 2 - i;
        assert(link(w, p[j], p[j + 1]) > 0);
        assert(r[i] == p[j + 1] && r[i + 1] == p[j]);
        assert(p[j] < w.len() && p[j + 1] < w.len());
    }
}

/// In a sequence whose last entry is not marked, some entry is the first
/// that is not marked.
pub proof fn lemma_first_unmarked(p: Seq<usize>, marked: Seq<bool>) -> (k: int)
    requires
        p.len() > 0,
        in_range(p, marked.len()),
        !marked[p.last() as int],
    ensures
        0 <= k < p.len(),
        !marked[p[k] as int],
        forall|i: int| 0 <= i < k ==> marked[#[trigger] p[i] as int],
    decreases p.len(),
{
    if p.len() == 1 {
        0
    } else {
        let front = p.drop_last();
        if marked[front.last() as int] {
            if forall|i: int| 0 <= i < front.len() ==> marked[#[trigger] front[i] as int] {
                assert forall|i: int| 0 <= i < p.len() - 1 implies marked[#[trigger] p[i] as int] by {
                    assert(front[i] == p[i]);
                }
                p.len() - 1
            } else {
                let j = choose|j: int| 0 <= j < front.len() && !marked[#[trigger] front[j] as int];
                let k = lemma_first_unmarked(front.take(j + 1), marked);
                assert(front.take(j + 1)[k] == p[k]);
                assert forall|i: int| 0 <= i < k implies marked[#[trigger] p[i] as int] by {
                    assert(front.take(j + 1)[i] == p[i]);
                }
                k
            }
        } else {
            let k = lemma_first_unmarked(front, marked);
            assert(front[k] == p[k]);
            assert forall|i: int| 0 <= i < k implies marked[#[trigger] p[i] as int] by {
                assert(front[i] == p[i]);
            }
            k
        }
    }
}

/// A path of `k` steps costs at most `k` times the largest weight.
pub proof fn lemma_path_cost_bound(w: Seq<Seq<u64>>, p: Seq<usize>)
    ensures
        p.len() > 0 ==> path_cost(w, p) <= (p.len() - 1) * u64::MAX,
        path_cost(w, p) >= 0,
    decreases p.len(),
{
    if p.len() > 1 {
        lemma_path_cost_bound(w, p.drop_last());
        assert((p.len() - 2) * u64::MAX + u64::MAX == (p.len() - 1) * u64::MAX) by (nonlinear_arith);
    }
}

/// A sequence of different vertices below `n` has at most `n` entries.
pub proof fn lemma_distinct_len(r: Seq<usize>, n: nat)
    requires
        r.no_duplicates(),
        in_range(r, n),
    ensures
        r.len() <= n,
{
    let s = Seq::new(r.len(), |i: int| r[i] as int);
    assert(s.no_duplicates()) by {
        assert forall|i: int, j: int| 0 <= i < s.len() && 0 <= j < s.len() && i != j implies s[i]
            != s[j] by {
            assert(r[i] != r[j]);
        }
    }
    s.unique_seq_to_set();
    lemma_int_range(0, n as int);
    assert(s.to_set().subset_of(set_int_range(0, n as int))) by {
        assert forall|x: int| s.to_set().contains(x) implies set_int_range(0, n as int).contains(
            x,
        ) by {
            let i = choose|i: int| 0 <= i < s.len() && s[i] == x;
            assert(r[i] < n);
        }
    }
    lemma_len_subset(s.to_set(), set_int_range(0, n as int));
}

} // verus!
