//! Ascending lists of the indices that satisfy a predicate.

use vstd::prelude::*;

verus! {

/// The indices in `0..bound` that satisfy `pred`, in ascending order.
pub open spec fn indices_where(pred: spec_fn(int) -> bool, bound: int) -> Seq<int>
    decreases bound,
{
    if bound <= 0 {
        Seq::empty()
    } else if pred(bound - 1) {
        indices_where(pred, bound - 1).push(bound - 1)
    } else {
        indices_where(pred, bound - 1)
    }
}

/// `list` is strictly ascending.
pub open spec fn strictly_ascending(list: Seq<int>) -> bool {
    forall|i: int, j: int| 0 <= i < j < list.len() ==> list[i] < list[j]
}

/// `list` holds exactly the indices in `0..bound` that satisfy `pred`.
pub open spec fn lists_exactly(list: Seq<int>, pred: spec_fn(int) -> bool, bound: int) -> bool {
    &&& forall|i: int| 0 <= i < list.len() ==> 0 <= #[trigger] list[i] < bound && pred(list[i])
    &&& forall|x: int| 0 <= x < bound && pred(x) ==> #[trigger] list.contains(x)
}

/// `indices_where` is strictly ascending and holds exactly the indices below
/// the bound that satisfy the predicate.
pub proof fn lemma_indices_where(pred: spec_fn(int) -> bool, bound: int)
    ensures
        strictly_ascending(indices_where(pred, bound)),
        lists_exactly(indices_where(pred, bound), pred, bound),
        indices_where(pred, bound).len() <= if bound < 0 { 0 } else { bound },
    decreases bound,
{
    if bound > 0 {
        lemma_indices_where(pred, bound - 1);
        let shorter = indices_where(pred, bound - 1);
        let list = indices_where(pred, bound);
        assert forall|x: int| 0 <= x < bound && pred(x) implies #[trigger] list.contains(x) by {
            if x == bound - 1 {
                assert(list[list.len() - 1] == x);
            } else {
                assert(shorter.contains(x));
                let i = choose|i: int| 0 <= i < shorter.len() && shorter[i] == x;
                assert(list[i] == x);
            }
        }
    }
}

/// A strictly ascending list of exactly the indices below the bound that
/// satisfy the predicate is `indices_where`: there is only one such list.
pub proof fn lemma_indices_where_unique(list: Seq<int>, pred: spec_fn(int) -> bool, bound: int)
    requires
        strictly_ascending(list),
        lists_exactly(list, pred, bound),
    ensures
        list == indices_where(pred, bound),
    decreases bound,
{
    if bound <= 0 {
        if list.len() > 0 {
            assert(0 <= list[0] < bound);
        }
        assert(list =~= Seq::empty());
    } else if pred(bound - 1) {
        assert(list.contains(bound - 1));
        let at = choose|i: int| 0 <= i < list.len() && list[i] == bound - 1;
        if at < list.len() - 1 {
            assert(list[at] < list[list.len() - 1]);
            assert(list[list.len() - 1] < bound);
        }
        let shorter = list.drop_last();
        assert forall|x: int| 0 <= x < bound - 1 && pred(x) implies #[trigger] shorter.contains(
            x,
        ) by {
            assert(list.contains(x));
            let i = choose|i: int| 0 <= i < list.len() && list[i] == x;
            assert(shorter[i] == x);
        }
        assert forall|i: int| 0 <= i < shorter.len() implies 0 <= #[trigger] shorter[i] < bound - 1
            && pred(shorter[i]) by {
            assert(shorter[i] == list[i]);
            assert(list[i] < list[list.len() - 1]);
        }
        lemma_indices_where_unique(shorter, pred, bound - 1);
        assert(list =~= shorter.push(bound - 1));
    } else {
        assert forall|i: int| 0 <= i < list.len() implies 0 <= #[trigger] list[i] < bound - 1
            && pred(list[i]) by {
            assert(0 <= list[i] < bound && pred(list[i]));
        }
        lemma_indices_where_unique(list, pred, bound - 1);
    }
}

/// Two predicates that agree below the bound list the same indices.
pub proof fn lemma_indices_where_agree(
    first: spec_fn(int) -> bool,
    second: spec_fn(int) -> bool,
    bound: int,
)
    requires
        forall|x: int| 0 <= x < bound ==> #[trigger] first(x) == second(x),
    ensures
        indices_where(first, bound) == indices_where(second, bound),
    decreases bound,
{
    if bound > 0 {
        lemma_indices_where_agree(first, second, bound - 1);
    }
}

/// Raising the bound over indices that do not satisfy the predicate adds
/// nothing to the list.
pub proof fn lemma_indices_where_skip(pred: spec_fn(int) -> bool, low: int, high: int)
    requires
        low <= high,
        forall|x: int| low <= x < high ==> !#[trigger] pred(x),
    ensures
        indices_where(pred, high) == indices_where(pred, low),
    decreases high - low,
{
    if low < high {
        lemma_indices_where_skip(pred, low, high - 1);
    }
}

/// The record indices that a sequence of machine integers holds.
pub open spec fn to_indices(list: Seq<usize>) -> Seq<int> {
    Seq::new(list.len(), |k: int| list[k] as int)
}

} // verus!
