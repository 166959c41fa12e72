use vstd::prelude::*;
use itertools::Itertools;
use itertools::Permutations;
use std::vec::IntoIter;

verus! {

/// Makes the iterator type of `Itertools::permutations` known. Nothing is
/// claimed of what it holds but through `pending`.
#[verifier::external_type_specification]
#[verifier::external_body]
#[verifier::reject_recursive_types(I)]
pub struct ExPermutations<I: Iterator>(Permutations<I>);

/// The arrangements that a `Permutations` iterator has yet to hand out, in
/// the order in which it will do so.
pub uninterp spec fn pending(p: Permutations<IntoIter<usize>>) -> Seq<Seq<usize>>;

/// Whether `e` arranges `k` different members of `items`.
pub open spec fn is_arrangement(items: Seq<usize>, k: nat, e: Seq<usize>) -> bool {
    &&& e.len() == k
    &&& e.no_duplicates()
    &&& forall|i: int| 0 <= i < e.len() ==> items.contains(#[trigger] e[i])
}

/// Calls `Itertools::permutations` on the items of a vector. The claim,
/// taken from the documentation of itertools, is that the iterator hands out
/// all arrangements of `k` of the items, and nothing else. It is made only
/// for items that differ from each other, since itertools tells items apart
/// by position.
#[verifier::external_body]
pub(crate) fn arrangements(items: Vec<usize>, k: usize) -> (p: Permutations<IntoIter<usize>>)
    requires
        items@.no_duplicates(),
    ensures
        forall|i: int|
            0 <= i < pending(p).len() ==> is_arrangement(items@, k as nat, #[trigger] pending(p)[i]),
        forall|e: Seq<usize>|
            is_arrangement(items@, k as nat, e) ==> #[trigger] pending(p).contains(e),
{
    items.into_iter().permutations(k)
}

/// Calls `Iterator::next` on a `Permutations`. The claim is that of any
/// iterator: the first pending arrangement is handed out and leaves the
/// pending ones, and `None` is returned once none is pending.
#[verifier::external_body]
pub(crate) fn next_arrangement(p: &mut Permutations<IntoIter<usize>>) -> (r: Option<Vec<usize>>)
    ensures
        pending(*old(p)).len() == 0 ==> r is None && pending(*final(p)) == pending(*old(p)),
        pending(*old(p)).len() > 0 ==> r is Some && r->Some_0@ == pending(*old(p))[0] && pending(
            *final(p),
        ) == pending(*old(p)).drop_first(),
{
    p.next()
}

} // verus!
