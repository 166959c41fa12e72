use vstd::prelude::*;

verus! {

/// The number of entries of `marks` that are not set.
pub open spec fn unset_count(marks: Seq<bool>) -> nat
    decreases marks.len(),
{
    if marks.len() == 0 {
        0
    } else {
        unset_count(marks.drop_last()) + if marks.last() {
            0nat
        } else {
            1nat
        }
    }
}

/// Setting an entry that was not set leaves one fewer to set.
pub proof fn lemma_unset_count_update(marks: Seq<bool>, k: int)
    requires
        0 <= k < marks.len(),
        !marks[k],
    ensures
        unset_count(marks.update(k, true)) + 1 == unset_count(marks),
    decreases marks.len(),
{
    let after = marks.update(k, true);
    if k == marks.len() - 1 {
        assert(after.drop_last() =~= marks.drop_last());
    } else {
        assert(after.drop_last() =~= marks.drop_last().update(k, true));
        lemma_unset_count_update(marks.drop_last(), k);
    }
}

/// The number of entries of `marks` that are set.
pub open spec fn set_count(marks: Seq<bool>) -> int {
    marks.len() - unset_count(marks)
}

/// Clearing an entry that was set leaves one more to set.
pub proof fn lemma_unset_count_clear(marks: Seq<bool>, k: int)
    requires
        0 <= k < marks.len(),
        marks[k],
    ensures
        unset_count(marks.update(k, false)) == unset_count(marks) + 1,
    decreases marks.len(),
{
    let after = marks.update(k, false);
    if k == marks.len() - 1 {
        assert(after.drop_last() =~= marks.drop_last());
    } else {
        assert(after.drop_last() =~= marks.drop_last().update(k, false));
        lemma_unset_count_clear(marks.drop_last(), k);
    }
}

/// Where an entry is set, not all entries are left to set; where none is
/// set, all are.
pub proof fn lemma_set_count_positive(marks: Seq<bool>)
    ensures
        0 <= set_count(marks) <= marks.len(),
        set_count(marks) > 0 <==> exists|k: int| 0 <= k < marks.len() && marks[k],
    decreases marks.len(),
{
    if marks.len() > 0 {
        let front = marks.drop_last();
        lemma_set_count_positive(front);
        if set_count(marks) > 0 {
            if marks.last() {
                assert(marks[marks.len() - 1]);
            } else {
                let k = choose|k: int| 0 <= k < front.len() && front[k];
                assert(marks[k]);
            }
        }
        if exists|k: int| 0 <= k < marks.len() && marks[k] {
            let k = choose|k: int| 0 <= k < marks.len() && marks[k];
            if k < marks.len() - 1 {
                assert(front[k]);
            }
        }
    }
}

/// Where every entry is set, none is left to set.
pub proof fn lemma_none_unset(marks: Seq<bool>)
    requires
        forall|k: int| 0 <= k < marks.len() ==> marks[k],
    ensures
        unset_count(marks) == 0,
    decreases marks.len(),
{
    if marks.len() > 0 {
        assert forall|k: int| 0 <= k < marks.len() - 1 implies marks.drop_last()[k] by {
            assert(marks[k]);
        }
        lemma_none_unset(marks.drop_last());
    }
}

/// Where no entry is left to set, every entry is set.
pub proof fn lemma_all_set(marks: Seq<bool>)
    requires
        unset_count(marks) == 0,
    ensures
        forall|k: int| 0 <= k < marks.len() ==> #[trigger] marks[k],
    decreases marks.len(),
{
    if marks.len() > 0 {
        lemma_all_set(marks.drop_last());
        assert forall|k: int| 0 <= k < marks.len() implies #[trigger] marks[k] by {
            if k < marks.len() - 1 {
                assert(marks.drop_last()[k]);
            }
        }
    }
}

/// At most as many entries are left to set as there are entries, and all
/// of them where none is set.
pub proof fn lemma_unset_count_bound(marks: Seq<bool>)
    ensures
        unset_count(marks) <= marks.len(),
        (forall|k: int| 0 <= k < marks.len() ==> !marks[k]) ==> unset_count(marks) == marks.len(),
    decreases marks.len(),
{
    if marks.len() > 0 {
        lemma_unset_count_bound(marks.drop_last());
        if forall|k: int| 0 <= k < marks.len() ==> !marks[k] {
            assert forall|k: int| 0 <= k < marks.len() - 1 implies !marks.drop_last()[k] by {
                assert(!marks[k]);
            }
        }
    }
}

/// A vector of `n` copies of `x`.
pub fn filled<T: Copy>(x: T, n: usize) -> (v: Vec<T>)
    ensures
        v@ == Seq::new(n as nat, |i: int| x),
{
    let mut v: Vec<T> = Vec::new();
    let mut i: usize = 0;
    while i < n
        invariant
            i <= n,
            v@ == Seq::new(i as nat, |k: int| x),
        decreases n - i,
    {
        v.push(x);
        assert(v@ =~= Seq::new((i + 1) as nat, |k: int| x));
        i += 1;
    }
    v
}

} // verus!
