use vstd::prelude::*;
use vstd::multiset::Multiset;
use vstd::seq_lib::{to_multiset_build, to_multiset_remove, to_multiset_update};

verus! {

/// An entry of a queue: a key, and two vertices that go with it.
pub type Entry = (u128, usize, usize);

/// Whether `a` comes no later than `b`: by key first, then by the first
/// vertex, then by the second.
pub open spec fn entry_le(a: Entry, b: Entry) -> bool {
    a.0 < b.0 || (a.0 == b.0 && (a.1 < b.1 || (a.1 == b.1 && a.2 <= b.2)))
}

/// Whether `a` comes no later than `b`.
pub fn comes_first(a: &Entry, b: &Entry) -> (r: bool)
    ensures
        r == entry_le(*a, *b),
{
    a.0 < b.0 || (a.0 == b.0 && (a.1 < b.1 || (a.1 == b.1 && a.2 <= b.2)))
}

/// Whether every entry but the first comes no earlier than the entry at
/// half its place, its parent.
pub open spec fn heap_ordered(s: Seq<Entry>) -> bool {
    forall|i: int| 1 <= i < s.len() ==> entry_le(s[(i - 1) / 2], #[trigger] s[i])
}

/// Whether `s` is ordered as a heap but for the entry at `k`, which may
/// come earlier than its parent.
pub open spec fn ordered_above(s: Seq<Entry>, k: int) -> bool {
    &&& forall|i: int| 1 <= i < s.len() && i != k ==> entry_le(s[(i - 1) / 2], #[trigger] s[i])
    &&& forall|i: int|
        1 <= i < s.len() && (i - 1) / 2 == k && k >= 1 ==> entry_le(
            s[(k - 1) / 2],
            #[trigger] s[i],
        )
}

/// Whether `s` is ordered as a heap but for the entry at `k`, which may
/// come later than its children.
pub open spec fn ordered_below(s: Seq<Entry>, k: int) -> bool {
    &&& forall|i: int|
        1 <= i < s.len() && (i - 1) / 2 != k ==> entry_le(s[(i - 1) / 2], #[trigger] s[i])
    &&& forall|i: int|
        1 <= i < s.len() && (i - 1) / 2 == k && k >= 1 ==> entry_le(
            s[(k - 1) / 2],
            #[trigger] s[i],
        )
}

/// In a heap no entry comes earlier than the first.
pub proof fn lemma_first_is_least(s: Seq<Entry>, k: int)
    requires
        heap_ordered(s),
        0 <= k < s.len(),
    ensures
        entry_le(s[0], s[k]),
    decreases k,
{
    if k > 0 {
        lemma_first_is_least(s, (k - 1) / 2);
    }
}

/// Two entries that change places leave the same entries behind.
pub proof fn lemma_swap_keeps_entries(s: Seq<Entry>, i: int, j: int)
    requires
        0 <= i < s.len(),
        0 <= j < s.len(),
    ensures
        s.update(i, s[j]).update(j, s[i]).to_multiset() == s.to_multiset(),
{
    broadcast use vstd::multiset::group_multiset_axioms;

    let once = s.update(i, s[j]);
    let twice = once.update(j, s[i]);
    to_multiset_update(s, i, s[j]);
    to_multiset_update(once, j, s[i]);
    s.to_multiset_ensures();
    assert(once[j] == s[j]);
    assert(s.contains(s[i]) && s.contains(s[j]));
    assert(twice.to_multiset() =~= s.to_multiset());
}

/// Lets the entry at `start` rise until its parent comes no later.
fn sift_up(items: &mut Vec<Entry>, start: usize)
    requires
        start < old(items).len(),
        ordered_above(old(items)@, start as int),
    ensures
        heap_ordered(final(items)@),
        final(items)@.to_multiset() == old(items)@.to_multiset(),
{
    let mut i: usize = start;
    while i > 0
        invariant
            i < items.len(),
            ordered_above(items@, i as int),
            items@.to_multiset() == old(items)@.to_multiset(),
        ensures
            heap_ordered(items@),
            items@.to_multiset() == old(items)@.to_multiset(),
        decreases i,
    {
        let p: usize = (i - 1) / 2;
        let above: Entry = items[p];
        let here: Entry = items[i];
        if comes_first(&above, &here) {
            break ;
        }
        let ghost before = items@;
        items[p] = here;
        items[i] = above;
        proof {
            lemma_swap_keeps_entries(before, p as int, i as int);
            assert(items@ =~= before.update(p as int, before[i as int]).update(
                i as int,
                before[p as int],
            ));
            let s = items@;
            assert forall|c: int| 1 <= c < s.len() && c != p implies entry_le(
                s[(c - 1) / 2],
                #[trigger] s[c],
            ) by {
                if c != i {
                    assert(entry_le(before[(c - 1) / 2], before[c]));
                }
            }
            assert forall|c: int| 1 <= c < s.len() && (c - 1) / 2 == p && p >= 1 implies entry_le(
                s[(p - 1) / 2],
                #[trigger] s[c],
            ) by {
                assert(entry_le(before[(p - 1) / 2], before[p as int]));
                if c != i {
                    assert(entry_le(before[(c - 1) / 2], before[c]));
                }
            }
        }
        i = p;
    }
}

/// Lets the first entry sink until its children come no earlier.
fn sift_down(items: &mut Vec<Entry>)
    requires
        ordered_below(old(items)@, 0),
    ensures
        heap_ordered(final(items)@),
        final(items)@.to_multiset() == old(items)@.to_multiset(),
{
    let n: usize = items.len();
    let mut i: usize = 0;
    while i < n / 2
        invariant
            n == items.len(),
            ordered_below(items@, i as int),
            items@.to_multiset() == old(items)@.to_multiset(),
        ensures
            heap_ordered(items@),
            items@.to_multiset() == old(items)@.to_multiset(),
        decreases n - i,
    {
        let left: usize = 2 * i + 1;
        let right: usize = left + 1;
        let least: usize = if right < n && !comes_first(&items[left], &items[right]) {
            right
        } else {
            left
        };
        let below: Entry = items[least];
        let here: Entry = items[i];
        if comes_first(&here, &below) {
            proof {
                let s = items@;
                assert forall|c: int| 1 <= c < s.len() implies entry_le(
                    s[(c - 1) / 2],
                    #[trigger] s[c],
                ) by {
                    if (c - 1) / 2 == i {
                        assert(c == left || c == right);
                    }
                }
            }
            break ;
        }
        let ghost before = items@;
        items[i] = below;
        items[least] = here;
        proof {
            lemma_swap_keeps_entries(before, i as int, least as int);
            assert(items@ =~= before.update(i as int, before[least as int]).update(
                least as int,
                before[i as int],
            ));
            let s = items@;
            assert forall|c: int| 1 <= c < s.len() && (c - 1) / 2 != least implies entry_le(
                s[(c - 1) / 2],
                #[trigger] s[c],
            ) by {
                if c == i {
                    assert(entry_le(before[(i - 1) / 2], before[least as int]));
                } else if (c - 1) / 2 == i {
                    assert(c == left || c == right);
                } else {
                    assert(entry_le(before[(c - 1) / 2], before[c]));
                }
            }
            assert forall|c: int|
                1 <= c < s.len() && (c - 1) / 2 == least && least >= 1 implies entry_le(
                s[(least - 1) / 2],
                #[trigger] s[c],
            ) by {
                assert(entry_le(before[(c - 1) / 2], before[c]));
            }
        }
        i = least;
    }
    proof {
        if i >= n / 2 {
            let s = items@;
            assert forall|c: int| 1 <= c < s.len() implies entry_le(
                s[(c - 1) / 2],
                #[trigger] s[c],
            ) by {}
        }
    }
}

/// A queue that hands its entries out in ascending order, kept as a binary
/// heap.
pub struct MinQueue {
    items: Vec<Entry>,
}

impl View for MinQueue {
    type V = Multiset<Entry>;

    closed spec fn view(&self) -> Multiset<Entry> {
        self.items@.to_multiset()
    }
}

impl MinQueue {
    #[verifier::type_invariant]
    spec fn ordered(&self) -> bool {
        heap_ordered(self.items@)
    }

    /// A queue without entries.
    pub fn new() -> (q: Self)
        ensures
            q@ == Multiset::<Entry>::empty(),
    {
        let q = MinQueue { items: Vec::new() };
        assert(q@ =~= Multiset::<Entry>::empty()) by {
            broadcast use vstd::seq_lib::group_to_multiset_ensures;

        }
        q
    }

    /// The number of entries.
    pub fn len(&self) -> (n: usize)
        ensures
            n == self@.len(),
    {
        proof {
            self.items@.to_multiset_ensures();
        }
        self.items.len()
    }

    /// Adds an entry.
    pub fn push(&mut self, e: Entry)
        ensures
            final(self)@ == old(self)@.insert(e),
    {
        proof {
            use_type_invariant(&*self);
        }
        let mut items: Vec<Entry> = Vec::new();
        core::mem::swap(&mut self.items, &mut items);
        let ghost before = items@;
        items.push(e);
        proof {
            to_multiset_build(before, e);
            assert forall|i: int| 1 <= i < items@.len() && i != items@.len() - 1 implies entry_le(
                items@[(i - 1) / 2],
                #[trigger] items@[i],
            ) by {
                assert(entry_le(before[(i - 1) / 2], before[i]));
            }
        }
        let last: usize = items.len() - 1;
        sift_up(&mut items, last);
        core::mem::swap(&mut self.items, &mut items);
    }

    /// Takes out an entry that comes no later than any other, if there is
    /// one.
    pub fn pop(&mut self) -> (r: Option<Entry>)
        ensures
            old(self)@.len() == 0 ==> r is None && final(self)@ == old(self)@,
            old(self)@.len() > 0 ==> r is Some && old(self)@.count(r->Some_0) > 0 && final(self)@
                == old(self)@.remove(r->Some_0) && (forall|x: Entry|
                old(self)@.count(x) > 0 ==> entry_le(r->Some_0, x)),
    {
        proof {
            use_type_invariant(&*self);
            self.items@.to_multiset_ensures();
        }
        if self.items.len() == 0 {
            return None;
        }
        let mut items: Vec<Entry> = Vec::new();
        core::mem::swap(&mut self.items, &mut items);
        let ghost before = items@;
        let first: Entry = items.swap_remove(0);
        proof {
            assert forall|x: Entry| before.to_multiset().count(x) > 0 implies entry_le(first, x) by {
                assert(before.contains(x));
                let k = choose|k: int| 0 <= k < before.len() && before[k] == x;
                lemma_first_is_least(before, k);
            }
            assert(before.contains(first));
            let moved = before.update(0, before.last());
            to_multiset_update(before, 0, before.last());
            to_multiset_remove(moved, moved.len() - 1);
            assert(moved.remove(moved.len() - 1) =~= moved.drop_last());
            assert(items@.to_multiset() =~= before.to_multiset().remove(first));
            assert forall|i: int| 1 <= i < items@.len() && (i - 1) / 2 != 0 implies entry_le(
                items@[(i - 1) / 2],
                #[trigger] items@[i],
            ) by {
                assert(entry_le(before[(i - 1) / 2], before[i]));
            }
        }
        sift_down(&mut items);
        core::mem::swap(&mut self.items, &mut items);
        Some(first)
    }
}

} // verus!
