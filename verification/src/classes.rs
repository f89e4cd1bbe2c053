//! Groups of duplicates: the classes of equal items in a sequence that have
//! more than one member.

use crate::grouper::belongs;
use crate::grouper::claimed_below;
use crate::grouper::eligible;
use crate::grouper::group_led_by;
use crate::grouper::groups_of;
use crate::grouper::has_match;
use crate::grouper::in_group;
use crate::grouper::leads_group;
use crate::grouper::matched;
use crate::grouper::scan_consistent;
use crate::indices::indices_where;
use crate::indices::lemma_indices_where;
use crate::indices::lemma_indices_where_agree;
use crate::indices::lemma_indices_where_skip;
use crate::indices::lemma_indices_where_unique;
use crate::indices::lists_exactly;
use crate::indices::strictly_ascending;
use vstd::prelude::*;

verus! {

/// No index below `a` holds the item at `a`.
pub open spec fn first_occurrence<A>(items: Seq<A>, a: int) -> bool {
    forall|k: int| 0 <= k < a ==> #[trigger] items[k] != items[a]
}

/// Another index holds the item at `a`.
pub open spec fn has_twin<A>(items: Seq<A>, a: int) -> bool {
    exists|b: int| 0 <= b < items.len() && b != a && #[trigger] items[b] == items[a]
}

/// The indices that lead a group: first occurrences of an item that occurs
/// again.
pub open spec fn leads_class<A>(items: Seq<A>) -> spec_fn(int) -> bool {
    |a: int| first_occurrence(items, a) && has_twin(items, a)
}

/// The indices that hold the item at `a`.
pub open spec fn same_item<A>(items: Seq<A>, a: int) -> spec_fn(int) -> bool {
    |x: int| items[x] == items[a]
}

/// All indices that hold the item at `a`, in ascending order.
pub open spec fn class_of<A>(items: Seq<A>, a: int) -> Seq<int> {
    indices_where(same_item(items, a), items.len() as int)
}

/// The groups of duplicates among `items` whose first member is below
/// `bound`.
pub open spec fn duplicate_groups_below<A>(items: Seq<A>, bound: int) -> Seq<Seq<int>> {
    indices_where(leads_class(items), bound).map_values(|a: int| class_of(items, a))
}

/// The groups of duplicates among `items`: for each item that occurs more
/// than once, the ascending list of the indices that hold it.  The groups
/// stand in the order of their first members.
pub open spec fn duplicate_groups<A>(items: Seq<A>) -> Seq<Seq<int>> {
    duplicate_groups_below(items, items.len() as int)
}

/// Every recorded verdict says whether the two items are equal.
pub open spec fn answers_agree<A>(answers: Map<(int, int), bool>, items: Seq<A>) -> bool {
    forall|a: int, b: int| #[trigger]
        answers.dom().contains((a, b)) ==> answers[(a, b)] == (items[a] == items[b])
}

/// The first index that holds the item at `a`.
proof fn lemma_first_occurrence<A>(items: Seq<A>, a: int) -> (first: int)
    requires
        0 <= a,
    ensures
        0 <= first <= a,
        items[first] == items[a],
        first_occurrence(items, first),
    decreases a,
{
    if first_occurrence(items, a) {
        a
    } else {
        let k = choose|k: int| 0 <= k < a && #[trigger] items[k] == items[a];
        lemma_first_occurrence(items, k)
    }
}

/// In a complete scan whose verdicts agree with the items, a first
/// occurrence is compared with every later index that holds the same item.
proof fn lemma_first_meets_twin<A>(answers: Map<(int, int), bool>, items: Seq<A>, a: int, x: int)
    requires
        scan_consistent(answers, items.len() as int, None),
        answers_agree(answers, items),
        first_occurrence(items, a),
        0 <= a < x < items.len(),
        items[x] == items[a],
    ensures
        matched(answers, a, x),
{
    if claimed_below(answers, a, a) {
        let k = choose|k: int| 0 <= k < a && #[trigger] matched(answers, k, a);
        assert(items[k] == items[a]);
    }
    if claimed_below(answers, a, x) {
        let k = choose|k: int| 0 <= k < a && #[trigger] matched(answers, k, x);
        assert(items[k] == items[a]);
    }
    assert(eligible(answers, items.len() as int, a, x));
}

/// In a complete scan whose verdicts agree with the items, the records that
/// lead a group are the first occurrences of the items that occur again.
proof fn lemma_leaders_are_first<A>(answers: Map<(int, int), bool>, items: Seq<A>, a: int)
    requires
        scan_consistent(answers, items.len() as int, None),
        answers_agree(answers, items),
        0 <= a < items.len(),
    ensures
        has_match(answers, a) <==> first_occurrence(items, a) && has_twin(items, a),
{
    let len = items.len() as int;
    if has_match(answers, a) {
        let b = choose|b: int| #[trigger] matched(answers, a, b);
        assert(answers.dom().contains((a, b)));
        assert(eligible(answers, len, a, b));
        assert(items[b] == items[a]);
        if !first_occurrence(items, a) {
            let first = lemma_first_occurrence(items, a);
            lemma_first_meets_twin(answers, items, first, a);
            assert(claimed_below(answers, a, a));
        }
    }
    if first_occurrence(items, a) && has_twin(items, a) {
        let b = choose|b: int| 0 <= b < items.len() && b != a && #[trigger] items[b] == items[a];
        lemma_first_meets_twin(answers, items, a, b);
    }
}

/// A complete scan whose verdicts agree with the items reports the groups of
/// duplicates among the items: every maximal set of equal items with two or
/// more members, and nothing else.
pub proof fn lemma_complete_scan_finds_duplicates<A>(
    answers: Map<(int, int), bool>,
    items: Seq<A>,
)
    requires
        scan_consistent(answers, items.len() as int, None),
        answers_agree(answers, items),
    ensures
        groups_of(answers, items.len() as int) == duplicate_groups(items),
{
    let len = items.len() as int;
    assert forall|a: int| 0 <= a < len implies #[trigger] leads_group(answers)(a) == leads_class(
        items,
    )(a) by {
        lemma_leaders_are_first(answers, items, a);
    }
    lemma_indices_where_agree(leads_group(answers), leads_class(items), len);
    let leaders = indices_where(leads_class(items), len);
    lemma_indices_where(leads_class(items), len);
    assert forall|g: int| 0 <= g < leaders.len() implies group_led_by(answers, len, leaders[g])
        == class_of(items, leaders[g]) by {
        let a = leaders[g];
        assert(leads_class(items)(a));
        assert forall|x: int| 0 <= x < len implies #[trigger] in_group(answers, a)(x) == same_item(
            items,
            a,
        )(x) by {
            if belongs(answers, a, x) && x != a {
                assert(answers.dom().contains((a, x)));
            }
            if items[x] == items[a] && x != a {
                lemma_first_meets_twin(answers, items, a, x);
            }
        }
        lemma_indices_where_agree(in_group(answers, a), same_item(items, a), len);
    }
    assert(groups_of(answers, len) =~= duplicate_groups(items));
}

/// Raising the bound by one adds the class of the index passed, if that
/// index leads a group, and nothing otherwise.
pub proof fn lemma_groups_below_step<A>(items: Seq<A>, bound: int)
    requires
        0 <= bound,
    ensures
        duplicate_groups_below(items, bound + 1) == if leads_class(items)(bound) {
            duplicate_groups_below(items, bound).push(class_of(items, bound))
        } else {
            duplicate_groups_below(items, bound)
        },
{
    if leads_class(items)(bound) {
        assert(duplicate_groups_below(items, bound + 1) =~= duplicate_groups_below(
            items,
            bound,
        ).push(class_of(items, bound)));
    }
}

/// The class of an index: it is ascending, holds the index itself and only
/// indices of the same item, starts with the index if and only if that is a
/// first occurrence, and has a second member if and only if the item occurs
/// again.
pub proof fn lemma_class_of<A>(items: Seq<A>, a: int)
    requires
        0 <= a < items.len(),
    ensures
        strictly_ascending(class_of(items, a)),
        class_of(items, a).len() >= 1,
        class_of(items, a).contains(a),
        forall|i: int|
            0 <= i < class_of(items, a).len() ==> 0 <= #[trigger] class_of(items, a)[i]
                < items.len() && items[class_of(items, a)[i]] == items[a],
        forall|x: int|
            0 <= x < items.len() && items[x] == items[a] ==> #[trigger] class_of(
                items,
                a,
            ).contains(x),
        class_of(items, a)[0] == a <==> first_occurrence(items, a),
        class_of(items, a).len() >= 2 <==> has_twin(items, a),
{
    let len = items.len() as int;
    let class = class_of(items, a);
    lemma_indices_where(same_item(items, a), len);
    assert(same_item(items, a)(a));
    assert(class.contains(a));
    let at = choose|i: int| 0 <= i < class.len() && class[i] == a;
    assert forall|i: int| 0 <= i < class.len() implies 0 <= #[trigger] class[i] < items.len()
        && items[class[i]] == items[a] by {
        assert(same_item(items, a)(class[i]));
    }
    assert forall|x: int| 0 <= x < items.len() && items[x] == items[a] implies #[trigger] class.contains(
    x) by {
        assert(same_item(items, a)(x));
    }
    if class[0] == a {
        assert forall|k: int| 0 <= k < a implies #[trigger] items[k] != items[a] by {
            if items[k] == items[a] {
                assert(class.contains(k));
                let i = choose|i: int| 0 <= i < class.len() && class[i] == k;
                if i > 0 {
                    assert(class[0] < class[i]);
                }
            }
        }
    }
    if first_occurrence(items, a) {
        if at > 0 {
            assert(class[0] < class[at]);
            assert(items[class[0]] == items[a]);
        }
    }
    if class.len() >= 2 {
        let other = if at == 0 {
            1int
        } else {
            0int
        };
        if at == 0 {
            assert(class[0] < class[1]);
        } else {
            assert(class[0] < class[at]);
        }
        assert(items[class[other]] == items[a]);
        assert(has_twin(items, a));
    }
    if has_twin(items, a) {
        let b = choose|b: int| 0 <= b < items.len() && b != a && #[trigger] items[b] == items[a];
        assert(class.contains(b));
        let i = choose|i: int| 0 <= i < class.len() && class[i] == b;
        assert(i != at);
    }
}

/// Some group holds both `x` and `y`.
pub open spec fn grouped_together(groups: Seq<Seq<int>>, x: int, y: int) -> bool {
    exists|g: int| 0 <= g < groups.len() && (#[trigger] groups[g]).contains(x) && groups[g].contains(y)
}

/// The group numbered `g` is the class of its first member, which is the
/// first occurrence of an item that occurs again.
proof fn lemma_group_is_class<A>(items: Seq<A>, g: int)
    requires
        0 <= g < duplicate_groups(items).len(),
    ensures
        duplicate_groups(items).len() == indices_where(
            leads_class(items),
            items.len() as int,
        ).len(),
        ({
            let first = indices_where(leads_class(items), items.len() as int)[g];
            &&& 0 <= first < items.len()
            &&& first_occurrence(items, first)
            &&& has_twin(items, first)
            &&& duplicate_groups(items)[g] == class_of(items, first)
            &&& duplicate_groups(items)[g][0] == first
        }),
{
    let leaders = indices_where(leads_class(items), items.len() as int);
    lemma_indices_where(leads_class(items), items.len() as int);
    let first = leaders[g];
    assert(0 <= first < items.len() && leads_class(items)(first));
    lemma_class_of(items, first);
}

/// Every group of duplicates has at least two members, lists them in
/// ascending order without repetition, and holds only places of one and the
/// same item.
pub proof fn lemma_groups_are_sound<A>(items: Seq<A>)
    ensures
        forall|g: int|
            0 <= g < duplicate_groups(items).len() ==> {
                let group = #[trigger] duplicate_groups(items)[g];
                &&& group.len() >= 2
                &&& strictly_ascending(group)
                &&& forall|i: int|
                    0 <= i < group.len() ==> 0 <= #[trigger] group[i] < items.len()
                        && items[group[i]] == items[group[0]]
            },
{
    let groups = duplicate_groups(items);
    assert forall|g: int| 0 <= g < groups.len() implies {
        let group = #[trigger] groups[g];
        &&& group.len() >= 2
        &&& strictly_ascending(group)
        &&& forall|i: int|
            0 <= i < group.len() ==> 0 <= #[trigger] group[i] < items.len() && items[group[i]]
                == items[group[0]]
    } by {
        lemma_group_is_class(items, g);
        let first = indices_where(leads_class(items), items.len() as int)[g];
        lemma_class_of(items, first);
    }
}

/// The groups of duplicates stand in the order of their first members, and
/// each first member is the first occurrence of its item.
pub proof fn lemma_groups_are_ordered<A>(items: Seq<A>)
    ensures
        forall|g: int, h: int|
            0 <= g < h < duplicate_groups(items).len() ==> (#[trigger] duplicate_groups(
                items,
            )[g])[0] < (#[trigger] duplicate_groups(items)[h])[0],
        forall|g: int|
            0 <= g < duplicate_groups(items).len() ==> first_occurrence(
                items,
                (#[trigger] duplicate_groups(items)[g])[0],
            ),
{
    let groups = duplicate_groups(items);
    let leaders = indices_where(leads_class(items), items.len() as int);
    lemma_indices_where(leads_class(items), items.len() as int);
    assert forall|g: int, h: int| 0 <= g < h < groups.len() implies (#[trigger] groups[g])[0] < (
    #[trigger] groups[h])[0] by {
        lemma_group_is_class(items, g);
        lemma_group_is_class(items, h);
        assert(leaders[g] < leaders[h]);
    }
    assert forall|g: int| 0 <= g < groups.len() implies first_occurrence(
        items,
        (#[trigger] groups[g])[0],
    ) by {
        lemma_group_is_class(items, g);
    }
}

/// Two different places are in one group if and only if they hold the same
/// item.  So the places of equal items are never parted, and places of
/// different items never share a group.
pub proof fn lemma_grouped_iff_equal<A>(items: Seq<A>, x: int, y: int)
    requires
        0 <= x < items.len(),
        0 <= y < items.len(),
        x != y,
    ensures
        grouped_together(duplicate_groups(items), x, y) <==> items[x] == items[y],
{
    let groups = duplicate_groups(items);
    let len = items.len() as int;
    if grouped_together(groups, x, y) {
        let g = choose|g: int|
            0 <= g < groups.len() && (#[trigger] groups[g]).contains(x) && groups[g].contains(y);
        lemma_groups_are_sound(items);
        let i = choose|i: int| 0 <= i < groups[g].len() && groups[g][i] == x;
        let j = choose|j: int| 0 <= j < groups[g].len() && groups[g][j] == y;
        assert(items[groups[g][i]] == items[groups[g][0]]);
        assert(items[groups[g][j]] == items[groups[g][0]]);
    }
    if items[x] == items[y] {
        let first = lemma_first_occurrence(items, x);
        assert(has_twin(items, first)) by {
            if first == x {
                assert(items[y] == items[first]);
            } else {
                assert(items[x] == items[first]);
            }
        }
        let leaders = indices_where(leads_class(items), len);
        lemma_indices_where(leads_class(items), len);
        assert(leads_class(items)(first));
        assert(leaders.contains(first));
        let g = choose|g: int| 0 <= g < leaders.len() && leaders[g] == first;
        lemma_group_is_class(items, g);
        lemma_class_of(items, first);
        assert(groups[g].contains(x));
        assert(groups[g].contains(y));
    }
}

/// A place is in some group if and only if another place holds the same
/// item: a file without a duplicate is in no group.
pub proof fn lemma_grouped_iff_twin<A>(items: Seq<A>, x: int)
    requires
        0 <= x < items.len(),
    ensures
        grouped_together(duplicate_groups(items), x, x) <==> has_twin(items, x),
{
    let groups = duplicate_groups(items);
    if grouped_together(groups, x, x) {
        let g = choose|g: int|
            0 <= g < groups.len() && (#[trigger] groups[g]).contains(x) && groups[g].contains(x);
        lemma_groups_are_sound(items);
        let group = groups[g];
        let i = choose|i: int| 0 <= i < group.len() && group[i] == x;
        let other = if i == 0 {
            1int
        } else {
            0int
        };
        if i == 0 {
            assert(group[0] < group[1]);
        } else {
            assert(group[0] < group[i]);
        }
        assert(items[group[other]] == items[group[0]]);
        assert(items[group[i]] == items[group[0]]);
        assert(has_twin(items, x));
    }
    if has_twin(items, x) {
        let y = choose|y: int| 0 <= y < items.len() && y != x && #[trigger] items[y] == items[x];
        lemma_grouped_iff_equal(items, x, y);
        let g = choose|g: int|
            0 <= g < groups.len() && (#[trigger] groups[g]).contains(x) && groups[g].contains(y);
        assert(groups[g].contains(x));
    }
}

/// No place is in two groups.
pub proof fn lemma_groups_are_disjoint<A>(items: Seq<A>, g: int, h: int, x: int)
    requires
        0 <= g < duplicate_groups(items).len(),
        0 <= h < duplicate_groups(items).len(),
        duplicate_groups(items)[g].contains(x),
        duplicate_groups(items)[h].contains(x),
    ensures
        g == h,
{
    let groups = duplicate_groups(items);
    lemma_groups_are_sound(items);
    lemma_groups_are_ordered(items);
    let i = choose|i: int| 0 <= i < groups[g].len() && groups[g][i] == x;
    let j = choose|j: int| 0 <= j < groups[h].len() && groups[h][j] == x;
    assert(items[groups[g][i]] == items[groups[g][0]]);
    assert(items[groups[h][j]] == items[groups[h][0]]);
    let first_g = groups[g][0];
    let first_h = groups[h][0];
    assert(first_occurrence(items, first_g));
    assert(first_occurrence(items, first_h));
    if g < h {
        assert(first_g < first_h);
        assert(items[first_g] != items[first_h]);
    } else if h < g {
        assert(first_h < first_g);
        assert(items[first_h] != items[first_g]);
    }
}

/// Items that are all different give no group.
pub proof fn lemma_distinct_items_give_no_group<A>(items: Seq<A>)
    requires
        forall|a: int, b: int|
            0 <= a < items.len() && 0 <= b < items.len() && a != b ==> #[trigger] items[a]
                != #[trigger] items[b],
    ensures
        duplicate_groups(items) == Seq::<Seq<int>>::empty(),
{
    let len = items.len() as int;
    assert forall|x: int| 0 <= x < len implies !#[trigger] leads_class(items)(x) by {
        if has_twin(items, x) {
            let b = choose|b: int| 0 <= b < items.len() && b != x && #[trigger] items[b] == items[x];
            assert(items[x] != items[b]);
        }
    }
    lemma_indices_where_skip(leads_class(items), 0, len);
    assert(duplicate_groups(items) =~= Seq::<Seq<int>>::empty());
}

/// Two or more items that are all equal give one group, which holds every
/// place.
pub proof fn lemma_equal_items_give_one_group<A>(items: Seq<A>)
    requires
        items.len() >= 2,
        forall|a: int, b: int|
            0 <= a < items.len() && 0 <= b < items.len() ==> #[trigger] items[a]
                == #[trigger] items[b],
    ensures
        duplicate_groups(items) == seq![Seq::new(items.len(), |at: int| at)],
{
    let len = items.len() as int;
    let everything = Seq::new(items.len(), |at: int| at);
    assert(leads_class(items)(0)) by {
        assert(items[1] == items[0]);
    }
    assert forall|x: int| 1 <= x < len implies !#[trigger] leads_class(items)(x) by {
        assert(items[0] == items[x]);
    }
    lemma_indices_where_skip(leads_class(items), 1, len);
    assert(indices_where(leads_class(items), 0) =~= Seq::<int>::empty());
    assert(indices_where(leads_class(items), 1) =~= seq![0int]);
    assert(lists_exactly(everything, same_item(items, 0), len)) by {
        assert forall|x: int| 0 <= x < len && same_item(items, 0)(x) implies #[trigger] everything.contains(
        x) by {
            assert(everything[x] == x);
        }
        assert forall|i: int| 0 <= i < everything.len() implies 0 <= #[trigger] everything[i] < len
            && same_item(items, 0)(everything[i]) by {
            assert(items[everything[i]] == items[0]);
        }
    }
    lemma_indices_where_unique(everything, same_item(items, 0), len);
    assert(duplicate_groups(items) =~= seq![everything]);
}

} // verus!
