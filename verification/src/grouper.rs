//! The duplicate grouper: one forward scan over a bucket that asks for the
//! comparisons it needs and merges the records into groups.
//!
//! The grouper never compares anything itself.  It names the next pair of
//! records to compare, is told the verdict, and moves on.  Its state is a
//! function of the verdicts recorded so far, and so are the groups it reports.

use crate::indices::indices_where;
use crate::indices::lemma_indices_where_agree;
use crate::indices::lemma_indices_where_unique;
use crate::indices::lists_exactly;
use crate::indices::strictly_ascending;
use crate::indices::to_indices;
use vstd::prelude::*;

verus! {

/// The pair `(a, b)` was compared and found identical.
pub open spec fn matched(answers: Map<(int, int), bool>, a: int, b: int) -> bool {
    answers.dom().contains((a, b)) && answers[(a, b)]
}

/// A record below `a` was found identical to `x`, so `x` already belongs to
/// that record's group when the scan reaches `a`.
pub open spec fn claimed_below(answers: Map<(int, int), bool>, a: int, x: int) -> bool {
    exists|k: int| 0 <= k < a && #[trigger] matched(answers, k, x)
}

/// The scan compares `a` with `b`: `a` comes first, and neither has been
/// merged into the group of a record below `a`.
pub open spec fn eligible(answers: Map<(int, int), bool>, len: int, a: int, b: int) -> bool {
    &&& 0 <= a < b < len
    &&& !claimed_below(answers, a, a)
    &&& !claimed_below(answers, a, b)
}

/// The scan reaches the pair `(a, b)` before the pair `(c, d)`.
pub open spec fn before(a: int, b: int, c: int, d: int) -> bool {
    a < c || (a == c && b < d)
}

/// `answers` and `cursor` are a state of the scan over `len` records: the
/// pairs answered are exactly the eligible pairs that come before the cursor,
/// and the cursor, if any, is itself eligible.  With no cursor the scan is
/// complete.
pub open spec fn scan_consistent(
    answers: Map<(int, int), bool>,
    len: int,
    cursor: Option<(int, int)>,
) -> bool {
    &&& forall|a: int, b: int| #[trigger]
        answers.dom().contains((a, b)) ==> eligible(answers, len, a, b) && (cursor matches Some(c)
            ==> before(a, b, c.0, c.1))
    &&& forall|a: int, b: int| #[trigger]
        eligible(answers, len, a, b) && (cursor matches Some(c) ==> before(a, b, c.0, c.1))
            ==> answers.dom().contains((a, b))
    &&& cursor matches Some(c) ==> eligible(answers, len, c.0, c.1)
}

/// How far the scan has come: the cursor's leading record, or `len` once the
/// scan is complete.
pub open spec fn lead_of(len: int, cursor: Option<(int, int)>) -> int {
    match cursor {
        Some(pair) => pair.0,
        None => len,
    }
}

/// How far the scan has come within the current leading record's turn: the
/// cursor's partner, or `len` once the scan is complete.
pub open spec fn partner_of(len: int, cursor: Option<(int, int)>) -> int {
    match cursor {
        Some(pair) => pair.1,
        None => len,
    }
}

/// The verdicts recorded fix where the scan stands: no two cursors are
/// consistent with the same answers.
pub proof fn lemma_cursor_is_determined(
    answers: Map<(int, int), bool>,
    len: int,
    first: Option<(int, int)>,
    second: Option<(int, int)>,
)
    requires
        scan_consistent(answers, len, first),
        scan_consistent(answers, len, second),
    ensures
        first == second,
{
    if first is Some {
        let c = first->0;
        assert(eligible(answers, len, c.0, c.1));
        if second is None || before(c.0, c.1, lead_of(len, second), partner_of(len, second)) {
            assert(answers.dom().contains((c.0, c.1)));
            assert(before(c.0, c.1, c.0, c.1));
        }
    }
    if second is Some {
        let d = second->0;
        assert(eligible(answers, len, d.0, d.1));
        if first is None || before(d.0, d.1, lead_of(len, first), partner_of(len, first)) {
            assert(answers.dom().contains((d.0, d.1)));
            assert(before(d.0, d.1, d.0, d.1));
        }
    }
}

/// Record `a` was found identical to some later record.
pub open spec fn has_match(answers: Map<(int, int), bool>, a: int) -> bool {
    exists|b: int| #[trigger] matched(answers, a, b)
}

/// Record `x` is in the group that record `a` leads.
pub open spec fn belongs(answers: Map<(int, int), bool>, a: int, x: int) -> bool {
    x == a || matched(answers, a, x)
}

/// The records that lead a group.
pub open spec fn leads_group(answers: Map<(int, int), bool>) -> spec_fn(int) -> bool {
    |a: int| has_match(answers, a)
}

/// The records in the group that record `a` leads.
pub open spec fn in_group(answers: Map<(int, int), bool>, a: int) -> spec_fn(int) -> bool {
    |x: int| belongs(answers, a, x)
}

/// The group that record `a` leads, in ascending order.
pub open spec fn group_led_by(answers: Map<(int, int), bool>, len: int, a: int) -> Seq<int> {
    indices_where(in_group(answers, a), len)
}

/// The groups that the recorded verdicts give: one for each record that was
/// found identical to a later one, in ascending order of these leading
/// records, each group in ascending order.
pub open spec fn groups_of(answers: Map<(int, int), bool>, len: int) -> Seq<Seq<int>> {
    indices_where(leads_group(answers), len).map_values(
        |a: int| group_led_by(answers, len, a),
    )
}

/// The record indices that a vector holds.
pub open spec fn indices_of(group: Vec<usize>) -> Seq<int> {
    to_indices(group@)
}

/// The groups of record indices that a vector of vectors holds.
pub open spec fn index_groups(groups: Vec<Vec<usize>>) -> Seq<Seq<int>> {
    Seq::new(groups@.len(), |g: int| indices_of(groups@[g]))
}

/// The records that were assigned to group number `g`.
spec fn slot_is(slots: Seq<Option<usize>>, g: int) -> spec_fn(int) -> bool {
    |x: int| 0 <= x < slots.len() && slots[x] == Some(g as usize)
}

/// The leading records of the groups formed so far, the current one included
/// once it has found a match.
spec fn all_leaders(leaders: Seq<int>, lead: int, lead_matched: bool) -> Seq<int> {
    if lead_matched {
        leaders.push(lead)
    } else {
        leaders
    }
}

/// What holds of the grouper's fields wherever the cursor stands, settled on
/// an eligible pair or not.
spec fn mid_scan(
    slots: Seq<Option<usize>>,
    groups: int,
    lead: int,
    partner: int,
    lead_matched: bool,
    answers: Map<(int, int), bool>,
    leaders: Seq<int>,
) -> bool {
    let len = slots.len() as int;
    let all = all_leaders(leaders, lead, lead_matched);
    &&& 0 <= lead <= len && 0 <= partner <= len
    &&& lead < len ==> lead < partner
    &&& lead == len ==> partner == len
    &&& leaders.len() == groups
    &&& forall|g: int, h: int| 0 <= g < h < leaders.len() ==> leaders[g] < leaders[h]
    &&& forall|g: int| 0 <= g < leaders.len() ==> g <= #[trigger] leaders[g] < lead
    &&& forall|a: int|
        #![trigger has_match(answers, a)]
        0 <= a < lead && has_match(answers, a) ==> leaders.contains(a)
    &&& forall|g: int| 0 <= g < leaders.len() ==> has_match(answers, #[trigger] leaders[g])
    &&& lead_matched <==> has_match(answers, lead)
    &&& forall|x: int|
        0 <= x < len ==> (#[trigger] slots[x] matches Some(g) ==> g < all.len() && belongs(
            answers,
            all[g as int],
            x,
        ))
    &&& forall|x: int, g: int|
        0 <= x < len && 0 <= g < all.len() && #[trigger] belongs(answers, all[g], x) ==> slots[x]
            == Some(g as usize)
    &&& forall|a: int, b: int| #[trigger]
        answers.dom().contains((a, b)) ==> eligible(answers, len, a, b) && before(
            a,
            b,
            lead,
            partner,
        )
    &&& forall|a: int, b: int| #[trigger]
        eligible(answers, len, a, b) && before(a, b, lead, partner) ==> answers.dom().contains(
            (a, b),
        )
    &&& lead < len ==> !claimed_below(answers, lead, lead)
}

/// The cursor stands on a pair that is not yet answered, or the scan is over.
spec fn settled(slots: Seq<Option<usize>>, lead: int, partner: int) -> bool {
    lead < slots.len() ==> partner < slots.len() && slots[partner] is None
}

/// Recording a verdict for the pair under the cursor and moving the cursor
/// past it keeps the scan's invariant.
proof fn lemma_answer(
    slots: Seq<Option<usize>>,
    groups: int,
    lead: int,
    partner: int,
    lead_matched: bool,
    answers: Map<(int, int), bool>,
    leaders: Seq<int>,
    identical: bool,
)
    requires
        mid_scan(slots, groups, lead, partner, lead_matched, answers, leaders),
        lead < slots.len(),
        partner < slots.len(),
        slots[partner] is None,
        groups <= usize::MAX,
    ensures
        mid_scan(
            if identical {
                slots.update(lead, Some(groups as usize)).update(partner, Some(groups as usize))
            } else {
                slots
            },
            groups,
            lead,
            partner + 1,
            lead_matched || identical,
            answers.insert((lead, partner), identical),
            leaders,
        ),
{
    let len = slots.len() as int;
    let new_slots = if identical {
        slots.update(lead, Some(groups as usize)).update(partner, Some(groups as usize))
    } else {
        slots
    };
    let new_answers = answers.insert((lead, partner), identical);
    let all = all_leaders(leaders, lead, lead_matched);
    let new_all = all_leaders(leaders, lead, lead_matched || identical);
    assert(!answers.dom().contains((lead, partner)));
    assert forall|a: int, b: int| #[trigger]
        matched(new_answers, a, b) <==> matched(answers, a, b) || (a == lead && b == partner
            && identical) by {}
    assert forall|a: int, x: int| 0 <= a <= lead implies (#[trigger] claimed_below(
        new_answers,
        a,
        x,
    ) <==> claimed_below(answers, a, x)) by {
        if claimed_below(new_answers, a, x) {
            let k = choose|k: int| 0 <= k < a && #[trigger] matched(new_answers, k, x);
            assert(matched(answers, k, x));
        }
        if claimed_below(answers, a, x) {
            let k = choose|k: int| 0 <= k < a && #[trigger] matched(answers, k, x);
            assert(matched(new_answers, k, x));
        }
    }
    assert forall|a: int|
        #![trigger has_match(new_answers, a)]
        0 <= a < lead && has_match(new_answers, a) implies leaders.contains(a) by {
        let b = choose|b: int| #[trigger] matched(new_answers, a, b);
        assert(matched(answers, a, b));
        assert(has_match(answers, a));
    }
    assert forall|g: int| 0 <= g < leaders.len() implies has_match(
        new_answers,
        #[trigger] leaders[g],
    ) by {
        let b = choose|b: int| #[trigger] matched(answers, leaders[g], b);
        assert(matched(new_answers, leaders[g], b));
    }
    assert((lead_matched || identical) <==> has_match(new_answers, lead)) by {
        if identical {
            assert(matched(new_answers, lead, partner));
        }
        if lead_matched {
            let b = choose|b: int| #[trigger] matched(answers, lead, b);
            assert(matched(new_answers, lead, b));
        }
        if has_match(new_answers, lead) {
            let b = choose|b: int| #[trigger] matched(new_answers, lead, b);
            if !identical {
                assert(matched(answers, lead, b));
            }
        }
    }
    assert forall|x: int| 0 <= x < len implies (#[trigger] new_slots[x] matches Some(g) ==> g
        < new_all.len() && belongs(new_answers, new_all[g as int], x)) by {
        if new_slots[x] is Some {
            let g = new_slots[x]->0;
            if identical && (x == lead || x == partner) {
                assert(g == groups);
                assert(new_all[groups] == lead);
                assert(matched(new_answers, lead, partner));
            } else {
                assert(slots[x] == Some(g));
                assert(belongs(answers, all[g as int], x));
                assert(new_all[g as int] == all[g as int]);
            }
        }
    }
    assert forall|x: int, g: int|
        0 <= x < len && 0 <= g < new_all.len() && #[trigger] belongs(
            new_answers,
            new_all[g],
            x,
        ) implies new_slots[x] == Some(g as usize) by {
        if g < leaders.len() {
            assert(new_all[g] == leaders[g]);
            assert(all[g] == leaders[g]);
            assert(leaders[g] < lead);
            assert(belongs(answers, all[g], x));
            assert(slots[x] == Some(g as usize));
            if x == lead {
                assert(matched(answers, leaders[g], lead));
                assert(claimed_below(answers, lead, lead));
            }
        } else {
            assert(new_all[g] == lead);
            if x == lead {
                if !identical {
                    assert(belongs(answers, all[g], x));
                }
            } else if x == partner && identical {
            } else {
                assert(matched(answers, lead, x));
                assert(belongs(answers, all[g], x));
            }
        }
    }
    assert forall|a: int, b: int| #[trigger]
        new_answers.dom().contains((a, b)) implies eligible(new_answers, len, a, b) && before(
        a,
        b,
        lead,
        partner + 1,
    ) by {
        if a == lead && b == partner {
            assert(!claimed_below(answers, lead, partner)) by {
                if claimed_below(answers, lead, partner) {
                    let k = choose|k: int| 0 <= k < lead && #[trigger] matched(answers, k, partner);
                    assert(has_match(answers, k));
                    assert(leaders.contains(k));
                    let g = choose|g: int| 0 <= g < leaders.len() && leaders[g] == k;
                    assert(all[g] == k);
                    assert(belongs(answers, all[g], partner));
                }
            }
            assert(eligible(answers, len, a, b));
        } else {
            assert(answers.dom().contains((a, b)));
            assert(eligible(answers, len, a, b));
        }
    }
    assert forall|a: int, b: int| #[trigger]
        eligible(new_answers, len, a, b) && before(a, b, lead, partner + 1) implies new_answers.dom().contains(
    (a, b)) by {
        if !(a == lead && b == partner) {
            assert(eligible(answers, len, a, b));
        }
    }
}

/// Moving the cursor past a partner that already belongs to a group keeps the
/// scan's invariant: the scan never compares such a record.
proof fn lemma_skip_partner(
    slots: Seq<Option<usize>>,
    groups: int,
    lead: int,
    partner: int,
    lead_matched: bool,
    answers: Map<(int, int), bool>,
    leaders: Seq<int>,
)
    requires
        mid_scan(slots, groups, lead, partner, lead_matched, answers, leaders),
        lead < slots.len(),
        partner < slots.len(),
        slots[partner] is Some,
    ensures
        mid_scan(slots, groups, lead, partner + 1, lead_matched, answers, leaders),
{
    let len = slots.len() as int;
    let all = all_leaders(leaders, lead, lead_matched);
    let g = slots[partner]->0 as int;
    assert(belongs(answers, all[g], partner));
    if g < leaders.len() {
        assert(all[g] == leaders[g]);
        assert(matched(answers, leaders[g], partner));
        assert(claimed_below(answers, lead, partner));
    } else {
        assert(all[g] == lead);
        assert(answers.dom().contains((lead, partner)));
    }
    assert forall|a: int, b: int| #[trigger]
        eligible(answers, len, a, b) && before(a, b, lead, partner + 1) implies answers.dom().contains(
    (a, b)) by {
        if !(a == lead && b == partner) {
            assert(before(a, b, lead, partner));
        }
    }
}

/// Once the current leading record has been compared with every later
/// record, the scan moves on to the next record that belongs to no group.
proof fn lemma_advance_lead(
    slots: Seq<Option<usize>>,
    groups: int,
    lead: int,
    lead_matched: bool,
    answers: Map<(int, int), bool>,
    leaders: Seq<int>,
    next: int,
)
    requires
        mid_scan(slots, groups, lead, slots.len() as int, lead_matched, answers, leaders),
        lead < next <= slots.len(),
        forall|x: int| lead < x < next ==> #[trigger] slots[x] is Some,
        next < slots.len() ==> slots[next] is None,
    ensures
        mid_scan(
            slots,
            if lead_matched {
                groups + 1
            } else {
                groups
            },
            next,
            if next < slots.len() {
                next + 1
            } else {
                next
            },
            false,
            answers,
            all_leaders(leaders, lead, lead_matched),
        ),
{
    let len = slots.len() as int;
    let all = all_leaders(leaders, lead, lead_matched);
    let new_partner = if next < len {
        next + 1
    } else {
        next
    };
    assert(all_leaders(all, next, false) == all);
    assert forall|a: int| #![trigger has_match(answers, a)] lead < a implies !has_match(
        answers,
        a,
    ) by {
        if has_match(answers, a) {
            let b = choose|b: int| #[trigger] matched(answers, a, b);
            assert(answers.dom().contains((a, b)));
            assert(before(a, b, lead, len));
        }
    }
    assert forall|g: int| 0 <= g < all.len() implies g <= #[trigger] all[g] < next by {
        if g < leaders.len() {
            assert(all[g] == leaders[g]);
        } else {
            if leaders.len() > 0 {
                assert(leaders.len() - 1 <= leaders[leaders.len() - 1] < lead);
            }
        }
    }
    assert forall|g: int, h: int| 0 <= g < h < all.len() implies all[g] < all[h] by {
        if h < leaders.len() {
        } else {
            assert(all[g] == leaders[g]);
        }
    }
    assert forall|a: int|
        #![trigger has_match(answers, a)]
        0 <= a < next && has_match(answers, a) implies all.contains(a) by {
        if a < lead {
            assert(leaders.contains(a));
            let g = choose|g: int| 0 <= g < leaders.len() && leaders[g] == a;
            assert(all[g] == a);
        } else {
            assert(a == lead);
            assert(all[leaders.len() as int] == a);
        }
    }
    assert forall|g: int| 0 <= g < all.len() implies has_match(answers, #[trigger] all[g]) by {
        if g < leaders.len() {
            assert(all[g] == leaders[g]);
        }
    }
    assert forall|a: int, b: int| #[trigger]
        answers.dom().contains((a, b)) implies eligible(answers, len, a, b) && before(
        a,
        b,
        next,
        new_partner,
    ) by {
        assert(before(a, b, lead, len));
    }
    assert forall|a: int, b: int| #[trigger]
        eligible(answers, len, a, b) && before(a, b, next, new_partner) implies answers.dom().contains(
    (a, b)) by {
        if a <= lead {
            assert(before(a, b, lead, len));
        } else {
            assert(lead < a < next);
            assert(slots[a] is Some);
            let g = slots[a]->0 as int;
            assert(belongs(answers, all[g], a));
            assert(all[g] < next);
            assert(all[g] <= lead) by {
                if g < leaders.len() {
                    assert(all[g] == leaders[g]);
                }
            }
            assert(matched(answers, all[g], a));
            assert(claimed_below(answers, a, a));
        }
    }
    if next < len {
        if claimed_below(answers, next, next) {
            let k = choose|k: int| 0 <= k < next && #[trigger] matched(answers, k, next);
            assert(has_match(answers, k));
            assert(all.contains(k));
            let g = choose|g: int| 0 <= g < all.len() && all[g] == k;
            assert(belongs(answers, all[g], next));
        }
    }
}

/// A settled state of the grouper is the state of the scan that its answers
/// determine.
proof fn lemma_settled_is_consistent(
    slots: Seq<Option<usize>>,
    groups: int,
    lead: int,
    partner: int,
    lead_matched: bool,
    answers: Map<(int, int), bool>,
    leaders: Seq<int>,
)
    requires
        mid_scan(slots, groups, lead, partner, lead_matched, answers, leaders),
        settled(slots, lead, partner),
    ensures
        scan_consistent(
            answers,
            slots.len() as int,
            if lead < slots.len() {
                Some((lead, partner))
            } else {
                None
            },
        ),
{
    let len = slots.len() as int;
    let all = all_leaders(leaders, lead, lead_matched);
    if lead < len {
        if claimed_below(answers, lead, partner) {
            let k = choose|k: int| 0 <= k < lead && #[trigger] matched(answers, k, partner);
            assert(has_match(answers, k));
            assert(leaders.contains(k));
            let g = choose|g: int| 0 <= g < leaders.len() && leaders[g] == k;
            assert(all[g] == k);
            assert(belongs(answers, all[g], partner));
        }
    } else {
        assert forall|a: int, b: int| #[trigger] eligible(answers, len, a, b) implies answers.dom().contains(
        (a, b)) by {
            assert(before(a, b, lead, partner));
        }
    }
}

/// No record below the leading record of a group was assigned to that group.
proof fn lemma_none_below(slots: Seq<Option<usize>>, g: int, first: int)
    requires
        forall|y: int| 0 <= y < slots.len() && #[trigger] slot_is(slots, g)(y) ==> first <= y,
    ensures
        indices_where(slot_is(slots, g), first) =~= Seq::<int>::empty(),
{
    crate::indices::lemma_indices_where(slot_is(slots, g), first);
    let list = indices_where(slot_is(slots, g), first);
    if list.len() > 0 {
        assert(0 <= list[0] < first && slot_is(slots, g)(list[0]));
    }
}

/// The leading records that the grouper tracks are those that the answers
/// give, and the slots hold each leader's group.
proof fn lemma_leaders(
    slots: Seq<Option<usize>>,
    groups: int,
    lead: int,
    partner: int,
    lead_matched: bool,
    answers: Map<(int, int), bool>,
    leaders: Seq<int>,
)
    requires
        mid_scan(slots, groups, lead, partner, lead_matched, answers, leaders),
    ensures
        all_leaders(leaders, lead, lead_matched) == indices_where(
            leads_group(answers),
            slots.len() as int,
        ),
        strictly_ascending(all_leaders(leaders, lead, lead_matched)),
        forall|g: int|
            0 <= g < all_leaders(leaders, lead, lead_matched).len() ==> {
                let a = #[trigger] all_leaders(leaders, lead, lead_matched)[g];
                0 <= a < slots.len() && slots[a] == Some(g as usize) && g <= usize::MAX
            },
        forall|g: int, x: int|
            0 <= g < all_leaders(leaders, lead, lead_matched).len() && 0 <= x < slots.len() ==> (
            #[trigger] slot_is(slots, g)(x) <==> belongs(
                answers,
                all_leaders(leaders, lead, lead_matched)[g],
                x,
            )),
        forall|g: int, x: int|
            0 <= g < all_leaders(leaders, lead, lead_matched).len() && 0 <= x < slots.len()
                && #[trigger] slot_is(slots, g)(x) ==> all_leaders(leaders, lead, lead_matched)[g]
                <= x,
{
    let len = slots.len() as int;
    let all = all_leaders(leaders, lead, lead_matched);
    assert forall|g: int| 0 <= g < all.len() implies 0 <= #[trigger] all[g] < len && has_match(
        answers,
        all[g],
    ) && g <= all[g] by {
        if g < leaders.len() {
            assert(all[g] == leaders[g]);
        } else {
            assert(all[g] == lead);
            if leaders.len() > 0 {
                assert(leaders.len() - 1 <= leaders[leaders.len() - 1] < lead);
            }
            let b = choose|b: int| #[trigger] matched(answers, lead, b);
            assert(answers.dom().contains((lead, b)));
            assert(eligible(answers, len, lead, b));
        }
    }
    assert(strictly_ascending(all)) by {
        assert forall|g: int, h: int| 0 <= g < h < all.len() implies all[g] < all[h] by {
            assert(all[g] == leaders[g]);
            if h < leaders.len() {
                assert(all[h] == leaders[h]);
            }
        }
    }
    assert forall|a: int| 0 <= a < len && leads_group(answers)(a) implies #[trigger] all.contains(
        a,
    ) by {
        assert(has_match(answers, a));
        if a < lead {
            assert(leaders.contains(a));
            let g = choose|g: int| 0 <= g < leaders.len() && leaders[g] == a;
            assert(all[g] == a);
        } else if a == lead {
            assert(all[leaders.len() as int] == a);
        } else {
            let b = choose|b: int| #[trigger] matched(answers, a, b);
            assert(answers.dom().contains((a, b)));
            assert(before(a, b, lead, partner));
        }
    }
    assert(lists_exactly(all, leads_group(answers), len)) by {
        assert forall|g: int| 0 <= g < all.len() implies 0 <= #[trigger] all[g] < len
            && leads_group(answers)(all[g]) by {}
    }
    lemma_indices_where_unique(all, leads_group(answers), len);
    assert forall|g: int| 0 <= g < all.len() implies {
        let a = #[trigger] all[g];
        0 <= a < slots.len() && slots[a] == Some(g as usize) && g <= usize::MAX
    } by {
        assert(belongs(answers, all[g], all[g]));
    }
    assert forall|g: int, x: int| 0 <= g < all.len() && 0 <= x < len implies (#[trigger] slot_is(
        slots,
        g,
    )(x) <==> belongs(answers, all[g], x)) by {
        if slot_is(slots, g)(x) {
            assert(slots[x] == Some(g as usize));
        }
        if belongs(answers, all[g], x) {
        }
    }
    assert forall|g: int, x: int|
        0 <= g < all.len() && 0 <= x < len && #[trigger] slot_is(slots, g)(x) implies all[g]
        <= x by {
        assert(belongs(answers, all[g], x));
        if x != all[g] {
            assert(answers.dom().contains((all[g], x)));
            assert(eligible(answers, len, all[g], x));
        }
    }
}

/// The state of one scan over a bucket of `len` records, which are known by
/// their index in the bucket.
pub struct Grouper {
    /// The group that each record was assigned to, if any.
    slots: Vec<Option<usize>>,
    /// How many groups are complete.
    groups: usize,
    /// The record whose group is being collected.
    lead: usize,
    /// The record that `lead` is compared with next.
    partner: usize,
    /// Whether `lead` has been found identical to some record.
    lead_matched: bool,
    /// The verdicts recorded so far.
    answers: Ghost<Map<(int, int), bool>>,
    /// The leading records of the complete groups.
    leaders: Ghost<Seq<int>>,
}

impl Grouper {
    /// The number of records in the bucket.
    pub closed spec fn len(&self) -> int {
        self.slots@.len() as int
    }

    /// The verdicts recorded so far, by pair of record indices.
    pub closed spec fn answers(&self) -> Map<(int, int), bool> {
        self.answers@
    }

    /// The pair that the scan wants compared next; `None` once it is complete.
    pub closed spec fn cursor(&self) -> Option<(int, int)> {
        if self.lead < self.slots@.len() {
            Some((self.lead as int, self.partner as int))
        } else {
            None
        }
    }

    spec fn scanning(&self) -> bool {
        mid_scan(
            self.slots@,
            self.groups as int,
            self.lead as int,
            self.partner as int,
            self.lead_matched,
            self.answers@,
            self.leaders@,
        )
    }

    /// The grouper's fields describe a state of the scan.
    pub closed spec fn wf(&self) -> bool {
        &&& self.scanning()
        &&& settled(self.slots@, self.lead as int, self.partner as int)
    }

    /// The cursor is the first eligible pair that has no answer yet, and the
    /// pairs answered are the eligible pairs before it.  So no pair is ever
    /// compared twice.
    pub proof fn lemma_cursor(&self)
        requires
            self.wf(),
        ensures
            scan_consistent(self.answers(), self.len(), self.cursor()),
            self.cursor() matches Some(pair) ==> !self.answers().dom().contains(pair),
    {
        lemma_settled_is_consistent(
            self.slots@,
            self.groups as int,
            self.lead as int,
            self.partner as int,
            self.lead_matched,
            self.answers@,
            self.leaders@,
        );
    }

    /// Starts a scan over a bucket of `len` records with nothing compared yet.
    pub fn new(len: usize) -> (grouper: Grouper)
        ensures
            grouper.wf(),
            grouper.len() == len,
            grouper.answers() == Map::<(int, int), bool>::empty(),
    {
        let mut slots: Vec<Option<usize>> = Vec::new();
        let mut filled: usize = 0;
        while filled < len
            invariant
                filled <= len,
                slots@.len() == filled,
                forall|x: int| 0 <= x < filled ==> #[trigger] slots@[x] is None,
            decreases len - filled,
        {
            slots.push(None);
            filled += 1;
        }
        let grouper = if len < 2 {
            Grouper {
                slots,
                groups: 0,
                lead: len,
                partner: len,
                lead_matched: false,
                answers: Ghost(Map::empty()),
                leaders: Ghost(Seq::empty()),
            }
        } else {
            Grouper {
                slots,
                groups: 0,
                lead: 0,
                partner: 1,
                lead_matched: false,
                answers: Ghost(Map::empty()),
                leaders: Ghost(Seq::empty()),
            }
        };
        proof {
            let answers = Map::<(int, int), bool>::empty();
            assert forall|a: int, b: int| !(#[trigger] matched(answers, a, b)) by {}
            assert forall|a: int| !(#[trigger] has_match(answers, a)) by {}
            assert forall|a: int, x: int| !(#[trigger] claimed_below(answers, a, x)) by {}
        }
        grouper
    }

    /// The pair of records to compare next, lower index first, or `None`
    /// when the scan is complete.
    pub fn pending(&self) -> (pair: Option<(usize, usize)>)
        requires
            self.wf(),
        ensures
            match pair {
                Some((a, b)) => self.cursor() == Some((a as int, b as int)),
                None => self.cursor() is None,
            },
    {
        if self.lead < self.slots.len() {
            Some((self.lead, self.partner))
        } else {
            None
        }
    }

    /// Moves the cursor to the next pair that the scan compares.
    fn settle(&mut self)
        requires
            old(self).scanning(),
        ensures
            final(self).wf(),
            final(self).len() == old(self).len(),
            final(self).answers() == old(self).answers(),
    {
        let len = self.slots.len();
        loop
            invariant
                self.scanning(),
                self.slots@.len() == len,
                self.len() == old(self).len(),
                self.answers@ == old(self).answers@,
            ensures
                settled(self.slots@, self.lead as int, self.partner as int),
            decreases len - self.lead, len - self.partner,
        {
            if self.lead >= len {
                break ;
            }
            if self.partner < len {
                if self.slots[self.partner].is_none() {
                    break ;
                }
                proof {
                    lemma_skip_partner(
                        self.slots@,
                        self.groups as int,
                        self.lead as int,
                        self.partner as int,
                        self.lead_matched,
                        self.answers@,
                        self.leaders@,
                    );
                }
                self.partner = self.partner + 1;
            } else {
                let mut next: usize = self.lead + 1;
                while next < len && self.slots[next].is_some()
                    invariant
                        self.lead < next <= len,
                        self.slots@.len() == len,
                        forall|x: int| self.lead < x < next ==> #[trigger] self.slots@[x] is Some,
                    decreases len - next,
                {
                    next += 1;
                }
                proof {
                    lemma_advance_lead(
                        self.slots@,
                        self.groups as int,
                        self.lead as int,
                        self.lead_matched,
                        self.answers@,
                        self.leaders@,
                        next as int,
                    );
                }
                if self.lead_matched {
                    self.leaders = Ghost(self.leaders@.push(self.lead as int));
                    self.groups = self.groups + 1;
                    self.lead_matched = false;
                }
                self.lead = next;
                self.partner = if next < len {
                    next + 1
                } else {
                    next
                };
            }
        }
    }

    /// Records the verdict on the pending pair and moves on to the next pair.
    /// Once the scan is complete there is no pending pair, and the call
    /// changes nothing.
    pub fn record(&mut self, identical: bool)
        requires
            old(self).wf(),
        ensures
            final(self).wf(),
            final(self).len() == old(self).len(),
            final(self).answers() == match old(self).cursor() {
                Some(pair) => old(self).answers().insert(pair, identical),
                None => old(self).answers(),
            },
    {
        if self.lead >= self.slots.len() {
            return ;
        }
        proof {
            lemma_answer(
                self.slots@,
                self.groups as int,
                self.lead as int,
                self.partner as int,
                self.lead_matched,
                self.answers@,
                self.leaders@,
                identical,
            );
        }
        self.answers = Ghost(self.answers@.insert((self.lead as int, self.partner as int), identical));
        if identical {
            self.slots.set(self.lead, Some(self.groups));
            self.slots.set(self.partner, Some(self.groups));
            self.lead_matched = true;
        }
        self.partner = self.partner + 1;
        self.settle();
    }

    /// The groups that the verdicts recorded so far give, as lists of record
    /// indices: one group for each record that was found identical to a later
    /// one, in the order of these leading records, each group in ascending
    /// order.  A record that matched nothing is in no group.
    pub fn groups(&self) -> (out: Vec<Vec<usize>>)
        requires
            self.wf(),
        ensures
            index_groups(out) == groups_of(self.answers(), self.len()),
    {
        let len = self.slots.len();
        let ghost slots = self.slots@;
        let ghost answers = self.answers@;
        let ghost all = all_leaders(self.leaders@, self.lead as int, self.lead_matched);
        proof {
            lemma_leaders(
                self.slots@,
                self.groups as int,
                self.lead as int,
                self.partner as int,
                self.lead_matched,
                self.answers@,
                self.leaders@,
            );
        }
        let mut out: Vec<Vec<usize>> = Vec::new();
        let mut x: usize = 0;
        while x < len
            invariant
                x <= len,
                len == self.slots@.len(),
                slots == self.slots@,
                strictly_ascending(all),
                forall|g: int|
                    0 <= g < all.len() ==> {
                        let a = #[trigger] all[g];
                        0 <= a < slots.len() && slots[a] == Some(g as usize) && g <= usize::MAX
                    },
                forall|x: int|
                    0 <= x < len ==> (#[trigger] slots[x] matches Some(g) ==> g < all.len()),
                forall|g: int, y: int|
                    0 <= g < all.len() && 0 <= y < slots.len() && #[trigger] slot_is(slots, g)(y)
                        ==> all[g] <= y,
                out@.len() <= all.len(),
                forall|g: int| 0 <= g < all.len() ==> (g < out@.len() <==> #[trigger] all[g] < x),
                forall|g: int|
                    0 <= g < out@.len() ==> indices_of(#[trigger] out@[g]) == indices_where(
                        slot_is(slots, g),
                        x as int,
                    ),
            decreases len - x,
        {
            let ghost before_step = out@;
            match self.slots[x] {
                Some(g) => {
                    assert(slot_is(slots, g as int)(x as int));
                    if out.len() <= g {
                        proof {
                            let at = out@.len() as int;
                            assert(all[g as int] <= x);
                            assert(!(all[g as int] < x));
                            assert(!(all[at] < x));
                            if at < g {
                                assert(all[at] < all[g as int]);
                            }
                            lemma_none_below(slots, g as int, all[g as int]);
                        }
                        out.push(Vec::new());
                        assert(indices_of(out@[g as int]) =~= Seq::<int>::empty());
                    }
                    let ghost with_group = out@;
                    out[g].push(x);
                    proof {
                        assert(out@ == with_group.update(g as int, out@[g as int]));
                        assert(indices_of(out@[g as int]) =~= indices_of(with_group[g as int]).push(
                            x as int,
                        ));
                        assert forall|h: int| 0 <= h < out@.len() implies indices_of(
                            #[trigger] out@[h],
                        ) == indices_where(slot_is(slots, h), x + 1) by {
                            if h != g {
                                assert(out@[h] == with_group[h]);
                                assert(!slot_is(slots, h)(x as int));
                            }
                        }
                        assert forall|h: int| 0 <= h < all.len() implies (h < out@.len()
                            <==> #[trigger] all[h] < x + 1) by {
                            if all[h] == x {
                                assert(h == g);
                            }
                        }
                    }
                },
                None => {
                    proof {
                        assert forall|h: int| 0 <= h < out@.len() implies indices_of(
                            #[trigger] out@[h],
                        ) == indices_where(slot_is(slots, h), x + 1) by {
                            assert(!slot_is(slots, h)(x as int));
                        }
                    }
                },
            }
            x += 1;
        }
        proof {
            let expected = groups_of(answers, len as int);
            assert(all == indices_where(leads_group(answers), len as int));
            assert(expected.len() == all.len());
            if out@.len() < all.len() {
                assert(all[out@.len() as int] < len);
            }
            assert(index_groups(out).len() == expected.len());
            assert forall|g: int| 0 <= g < out@.len() implies index_groups(out)[g] == expected[g] by {
                lemma_indices_where_agree(
                    slot_is(slots, g),
                    in_group(answers, all[g]),
                    len as int,
                );
            }
            assert(index_groups(out) =~= expected);
        }
        out
    }
}

} // verus!
