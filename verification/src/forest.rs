use vstd::prelude::*;
use vstd::set_lib::{lemma_int_range, set_int_range};

verus! {

/// A partition of `0..n` into disjoint sets, kept as a forest of parent
/// pointers in which each set is a tree and its root stands for it.
pub struct Forest {
    parent: Vec<usize>,
    rank: Vec<usize>,
    count: usize,
    level: Ghost<Seq<nat>>,
    top: Ghost<nat>,
}

impl Forest {
    /// The number of elements.
    pub closed spec fn size(&self) -> nat {
        self.parent@.len()
    }

    /// The elements that are the root of their tree.
    pub closed spec fn roots(&self) -> Set<int> {
        Set::new(|i: int| 0 <= i < self.parent@.len() && self.parent@[i] == i)
    }

    /// The number of sets.
    pub closed spec fn sets(&self) -> nat {
        self.count as nat
    }

    /// Whether the parent pointers form trees: they stay in range, and
    /// every step to a parent leads to a higher level; and the sets are
    /// counted.
    pub closed spec fn wf(&self) -> bool {
        &&& self.roots().finite()
        &&& self.roots().len() == self.count
        &&& self.rank@.len() == self.parent@.len()
        &&& self.level@.len() == self.parent@.len()
        &&& forall|i: int|
            0 <= i < self.parent@.len() ==> (#[trigger] self.parent@[i]) < self.parent@.len()
        &&& forall|i: int|
            0 <= i < self.parent@.len() && self.parent@[i] != i ==> self.level@[i]
                < self.level@[#[trigger] self.parent@[i] as int]
        &&& forall|i: int| 0 <= i < self.parent@.len() ==> #[trigger] self.level@[i] <= self.top@
    }

    /// A bound on the number of steps from `i` to its root.
    pub closed spec fn climb(&self, i: int) -> int {
        self.top@ - self.level@[i]
    }

    /// The root of the tree that holds `i`.
    pub closed spec fn root(&self, i: int) -> int
        decreases self.climb(i),
        when self.wf() && 0 <= i < self.size()
    {
        if self.parent@[i] == i {
            i
        } else {
            self.root(self.parent@[i] as int)
        }
    }

    /// Whether `i` is the root of its tree.
    pub closed spec fn is_root(&self, i: int) -> bool {
        self.parent@[i] == i
    }

    /// Whether `i` and `j` are in the same set.
    pub open spec fn same_set(&self, i: int, j: int) -> bool {
        self.root(i) == self.root(j)
    }

    /// The partition of `0..n` into `n` sets of one element each.
    pub fn new(n: usize) -> (f: Self)
        ensures
            f.wf(),
            f.size() == n,
            f.sets() == n,
            forall|i: int| 0 <= i < n ==> #[trigger] f.root(i) == i,
    {
        let mut parent: Vec<usize> = Vec::new();
        let mut rank: Vec<usize> = Vec::new();
        let mut i: usize = 0;
        while i < n
            invariant
                i <= n,
                parent.len() == i,
                rank.len() == i,
                forall|k: int| 0 <= k < i ==> #[trigger] parent[k] == k,
            decreases n - i,
        {
            parent.push(i);
            rank.push(0);
            i += 1;
        }
        let f = Forest {
            parent,
            rank,
            count: n,
            level: Ghost(Seq::new(n as nat, |k: int| 0nat)),
            top: Ghost(0nat),
        };
        proof {
            lemma_int_range(0, n as int);
            assert(f.roots() =~= set_int_range(0, n as int));
        }
        assert(f.wf());
        assert forall|k: int| 0 <= k < n implies #[trigger] f.root(k) == k by {}
        f
    }

    /// The root of the tree that holds `i`.
    pub fn find(&self, i: usize) -> (r: usize)
        requires
            self.wf(),
            i < self.size(),
        ensures
            r == self.root(i as int),
            r < self.size(),
            self.is_root(r as int),
    {
        let mut at: usize = i;
        while self.parent[at] != at
            invariant
                self.wf(),
                at < self.size(),
                self.root(at as int) == self.root(i as int),
            decreases self.climb(at as int),
        {
            at = self.parent[at];
        }
        at
    }

    /// The number of sets.
    pub fn num_sets(&self) -> (c: usize)
        ensures
            c == self.sets(),
    {
        self.count
    }

    /// Where there is one set, every two elements are in the same set.
    pub proof fn lemma_one_set(&self, i: int, j: int)
        requires
            self.wf(),
            self.sets() == 1,
            0 <= i < self.size(),
            0 <= j < self.size(),
        ensures
            self.same_set(i, j),
    {
        self.lemma_root_is_root(i);
        self.lemma_root_is_root(j);
        Set::lemma_is_singleton(self.roots());
        assert(self.roots().contains(self.root(i)));
        assert(self.roots().contains(self.root(j)));
    }

    /// The root of any element is the root of its tree.
    pub proof fn lemma_root_is_root(&self, i: int)
        requires
            self.wf(),
            0 <= i < self.size(),
        ensures
            0 <= self.root(i) < self.size(),
            self.is_root(self.root(i)),
        decreases self.climb(i),
    {
        if self.parent@[i] != i {
            self.lemma_root_is_root(self.parent@[i] as int);
        }
    }

    /// Joins the set of `a` and the set of `b`; all other sets stay as they
    /// are.
    pub fn union(&mut self, a: usize, b: usize)
        requires
            old(self).wf(),
            a < old(self).size(),
            b < old(self).size(),
        ensures
            final(self).wf(),
            final(self).size() == old(self).size(),
            final(self).sets() == if old(self).same_set(a as int, b as int) {
                old(self).sets()
            } else {
                (old(self).sets() - 1) as nat
            },
            forall|i: int, j: int|
                0 <= i < old(self).size() && 0 <= j < old(self).size() ==> (#[trigger] final(self).same_set(i, j)
                    <==> old(self).same_set(i, j) || (old(self).same_set(i, a as int) && old(self).same_set(j, b as int))
                    || (old(self).same_set(i, b as int) && old(self).same_set(j, a as int))),
    {
        let ra: usize = self.find(a);
        let rb: usize = self.find(b);
        if ra == rb {
            return ;
        }
        let (child, head): (usize, usize) = if self.rank[ra] < self.rank[rb] {
            (ra, rb)
        } else {
            (rb, ra)
        };
        if self.rank[ra] == self.rank[rb] && self.rank[head] < usize::MAX {
            self.rank[head] = self.rank[head] + 1;
        }
        proof {
            assert(old(self).is_root(child as int));
            assert(old(self).is_root(head as int));
        }
        self.parent[child] = head;
        proof {
            assert(old(self).roots().contains(child as int));
            assert(self.roots() =~= old(self).roots().remove(child as int));
        }
        self.count = self.count - 1;
        proof {
            let raised = if self.level@[head as int] > self.level@[child as int] {
                self.level@[head as int]
            } else {
                self.level@[child as int] + 1
            };
            self.level = Ghost(self.level@.update(head as int, raised));
            if raised > self.top@ {
                self.top = Ghost(raised);
            }
            assert(self.wf());
            assert forall|i: int| 0 <= i < self.size() implies self.root(i) == if old(self).root(i)
                == child {
                head as int
            } else {
                old(self).root(i)
            } by {
                Self::lemma_link(*old(self), *self, child as int, head as int, i);
            }
        }
    }

    /// After the root `child` has been hung below the root `head`, the
    /// elements of its tree have the root `head`, and all others keep
    /// theirs.
    proof fn lemma_link(before: Self, after: Self, child: int, head: int, i: int)
        requires
            before.wf(),
            after.wf(),
            0 <= child < before.size(),
            0 <= head < before.size(),
            child != head,
            before.parent@[child] == child,
            before.parent@[head] == head,
            after.parent@ == before.parent@.update(child, head as usize),
            0 <= i < before.size(),
        ensures
            after.root(i) == if before.root(i) == child {
                head
            } else {
                before.root(i)
            },
        decreases before.climb(i),
    {
        if before.parent@[i] == i {
            if i == child {
                assert(after.root(head) == head);
            }
        } else {
            Self::lemma_link(before, after, child, head, before.parent@[i] as int);
        }
    }
}

} // verus!
