//! Which rules a replay visits, which it joins, and how its counts add up.
use super::child_index;
use super::data;
use super::data::{ReplayModel, Visit};
use super::joins;
use super::joins::{LeftModel, SlotModel};
use super::candidates::Event;
use super::tally;
use super::tally::TallyModel;
use crate::ids::{StateId, Symbol};
use vstd::prelude::*;

verus! {

/// The lists with a state in a place are listed by their numbers, all of them and no other.
pub proof fn law_lists_with_a_child(all: Seq<Seq<StateId>>, p: usize, q: StateId)
    requires
        all.len() <= usize::MAX,
    ensures
        forall|i: int, j: int|
            0 <= i < j < child_index::with_child(all, p, q).len() ==> (
            #[trigger] child_index::with_child(all, p, q)[i]) < (
            #[trigger] child_index::with_child(all, p, q)[j]),
        forall|k: usize| #[trigger]
            child_index::with_child(all, p, q).contains(k) <==> k < all.len() && p
                < all[k as int].len() && all[k as int][p as int] == q,
    decreases all.len(),
{
    if all.len() > 0 {
        let front = all.drop_last();
        let last = all.len() - 1;
        law_lists_with_a_child(front, p, q);
        let before = child_index::with_child(front, p, q);
        let now = child_index::with_child(all, p, q);
        assert forall|i: int, j: int| 0 <= i < j < now.len() implies (#[trigger] now[i]) < (
        #[trigger] now[j]) by {
            assert(now[i] == before[i]);
            assert(before.contains(before[i]));
            if j < before.len() {
                assert(now[j] == before[j]);
            }
        }
        assert forall|k: usize| #[trigger] now.contains(k) <==> k < all.len() && p
            < all[k as int].len() && all[k as int][p as int] == q by {
            if now.contains(k) {
                let i = choose|i: int| 0 <= i < now.len() && now[i] == k;
                if i < before.len() {
                    assert(before[i] == k);
                    assert(before.contains(k));
                    assert(front[k as int] == all[k as int]);
                }
            }
            if k < all.len() && p < all[k as int].len() && all[k as int][p as int] == q {
                if k < last {
                    assert(front[k as int] == all[k as int]);
                    assert(before.contains(k));
                    let i = choose|i: int| 0 <= i < before.len() && before[i] == k;
                    assert(now[i] == k);
                } else {
                    assert(now[now.len() - 1] == k);
                }
            }
        }
    }
}

proof fn lemma_widest(all: Seq<Seq<StateId>>, i: int)
    requires
        0 <= i < all.len(),
    ensures
        all[i].len() <= child_index::widest(all),
    decreases all.len(),
{
    if i < all.len() - 1 {
        lemma_widest(all.drop_last(), i);
        assert(all.drop_last()[i] == all[i]);
    }
}

proof fn lemma_widest_fits(all: Seq<Seq<StateId>>)
    requires
        forall|i: int| 0 <= i < all.len() ==> (#[trigger] all[i]).len() <= usize::MAX,
    ensures
        child_index::widest(all) <= usize::MAX,
    decreases all.len(),
{
    if all.len() > 0 {
        let front = all.drop_last();
        assert forall|i: int| 0 <= i < front.len() implies (#[trigger] front[i]).len()
            <= usize::MAX by {
            assert(front[i] == all[i]);
        }
        lemma_widest_fits(front);
        assert(all[all.len() - 1].len() <= usize::MAX);
    }
}

/// Whether some list has a state in a place.
pub open spec fn stands_in(all: Seq<Seq<StateId>>, q: StateId, p: usize) -> bool {
    exists|i: int|
        0 <= i < all.len() && p < (#[trigger] all[i]).len() && all[i][p as int] == q
}

proof fn lemma_places(all: Seq<Seq<StateId>>, q: StateId, n: nat)
    requires
        all.len() <= usize::MAX,
        n <= usize::MAX,
    ensures
        forall|p: usize| #[trigger]
            child_index::places_below(all, q, n).contains(p) <==> p < n && stands_in(all, q, p),
    decreases n,
{
    if n > 0 {
        let last = (n - 1) as usize;
        lemma_places(all, q, (n - 1) as nat);
        law_lists_with_a_child(all, last, q);
        let before = child_index::places_below(all, q, (n - 1) as nat);
        let now = child_index::places_below(all, q, n);
        let found = child_index::with_child(all, last, q);
        if found.len() > 0 {
            assert(found.contains(found[0]));
            assert(stands_in(all, q, last)) by {
                assert(all[found[0] as int][last as int] == q);
            }
        }
        if stands_in(all, q, last) {
            let i = choose|i: int|
                0 <= i < all.len() && last < (#[trigger] all[i]).len() && all[i][last as int] == q;
            assert(found.contains(i as usize));
        }
        assert forall|p: usize| #[trigger] now.contains(p) <==> p < n && stands_in(all, q, p) by {
            if now.contains(p) {
                let k = choose|k: int| 0 <= k < now.len() && now[k] == p;
                if k < before.len() {
                    assert(before[k] == p);
                    assert(before.contains(p));
                }
            }
            if p < n && stands_in(all, q, p) {
                if p < last {
                    assert(before.contains(p));
                    let k = choose|k: int| 0 <= k < before.len() && before[k] == p;
                    assert(now[k] == p);
                } else {
                    assert(now[now.len() - 1] == p);
                }
            }
        }
    }
}

/// Whether an event leads to a rule on the right: some rule on the left has the event's left
/// state in a place in which the rule has its right state.
pub open spec fn leads_to(m: ReplayModel, v: Visit) -> bool {
    &&& stands_in(m.left.children, v.event.left, v.position)
    &&& v.rule < m.right.children.len()
    &&& v.position < m.right.children[v.rule as int].len()
    &&& m.right.children[v.rule as int][v.position as int] == v.event.right
}

proof fn lemma_visits_in(m: ReplayModel, e: Event, places: Seq<usize>)
    requires
        m.right.children.len() <= usize::MAX,
    ensures
        forall|v: Visit| #[trigger]
            data::visits_in(m, e, places).contains(v) <==> v.event == e && places.contains(
                v.position,
            ) && v.rule < m.right.children.len() && v.position < m.right.children[v.rule as int].len()
                && m.right.children[v.rule as int][v.position as int] == e.right,
    decreases places.len(),
{
    if places.len() > 0 {
        let front = places.drop_last();
        let p = places.last();
        lemma_visits_in(m, e, front);
        law_lists_with_a_child(m.right.children, p, e.right);
        let ids = child_index::with_child(m.right.children, p, e.right);
        let before = data::visits_in(m, e, front);
        let more = data::visits_at(e, p, ids);
        let now = data::visits_in(m, e, places);
        assert(now == before + more);
        assert forall|v: Visit| #[trigger] now.contains(v) <==> v.event == e && places.contains(
            v.position,
        ) && v.rule < m.right.children.len() && v.position < m.right.children[v.rule as int].len()
            && m.right.children[v.rule as int][v.position as int] == e.right by {
            if now.contains(v) {
                let k = choose|k: int| 0 <= k < now.len() && now[k] == v;
                if k < before.len() {
                    assert(before[k] == v);
                    assert(before.contains(v));
                    let i = choose|i: int| 0 <= i < front.len() && front[i] == v.position;
                    assert(places[i] == v.position);
                } else {
                    assert(more[k - before.len()] == v);
                    assert(ids.contains(v.rule)) by {
                        assert(ids[k - before.len()] == v.rule);
                    }
                    assert(places[places.len() - 1] == v.position);
                }
            }
            if v.event == e && places.contains(v.position) && v.rule < m.right.children.len()
                && v.position < m.right.children[v.rule as int].len()
                && m.right.children[v.rule as int][v.position as int] == e.right {
                let i = choose|i: int| 0 <= i < places.len() && places[i] == v.position;
                if i < front.len() {
                    assert(front[i] == v.position);
                    assert(front.contains(v.position));
                    assert(before.contains(v));
                    let k = choose|k: int| 0 <= k < before.len() && before[k] == v;
                    assert(now[k] == v);
                } else {
                    assert(v.position == p);
                    assert(ids.contains(v.rule));
                    let k = choose|k: int| 0 <= k < ids.len() && ids[k] == v.rule;
                    assert(more[k] == v);
                    assert(now[before.len() + k] == v);
                }
            }
        }
    }
}

/// Events lead to all rules that they can complete, and to no other.
pub proof fn law_visits_are_complete(m: ReplayModel, events: Seq<Event>)
    requires
        m.left.children.len() <= usize::MAX,
        m.right.children.len() <= usize::MAX,
        forall|i: int|
            0 <= i < m.left.children.len() ==> (#[trigger] m.left.children[i]).len() <= usize::MAX,
    ensures
        forall|v: Visit| #[trigger]
            data::visits_of(m, events).contains(v) <==> events.contains(v.event) && leads_to(m, v),
    decreases events.len(),
{
    if events.len() > 0 {
        let front = events.drop_last();
        let e = events.last();
        law_visits_are_complete(m, front);
        let places = child_index::places(m.left.children, e.left);
        lemma_widest_fits(m.left.children);
        lemma_places(m.left.children, e.left, child_index::widest(m.left.children));
        lemma_visits_in(m, e, places);
        let before = data::visits_of(m, front);
        let more = data::visits_in(m, e, places);
        let now = data::visits_of(m, events);
        assert(now == before + more);
        assert forall|p: usize| #[trigger] stands_in(m.left.children, e.left, p) implies p
            < child_index::widest(m.left.children) by {
            let i = choose|i: int|
                0 <= i < m.left.children.len() && p < (#[trigger] m.left.children[i]).len()
                    && m.left.children[i][p as int] == e.left;
            lemma_widest(m.left.children, i);
        }
        assert forall|v: Visit| #[trigger] now.contains(v) <==> events.contains(v.event)
            && leads_to(m, v) by {
            if now.contains(v) {
                let k = choose|k: int| 0 <= k < now.len() && now[k] == v;
                if k < before.len() {
                    assert(before[k] == v);
                    assert(before.contains(v));
                    let i = choose|i: int| 0 <= i < front.len() && front[i] == v.event;
                    assert(events[i] == v.event);
                } else {
                    assert(more[k - before.len()] == v);
                    assert(more.contains(v));
                    assert(events[events.len() - 1] == v.event);
                }
            }
            if events.contains(v.event) && leads_to(m, v) {
                let i = choose|i: int| 0 <= i < events.len() && events[i] == v.event;
                if i < front.len() {
                    assert(front[i] == v.event);
                    assert(front.contains(v.event));
                    assert(before.contains(v));
                    let k = choose|k: int| 0 <= k < before.len() && before[k] == v;
                    assert(now[k] == v);
                } else {
                    assert(places.contains(v.position));
                    assert(more.contains(v));
                    let k = choose|k: int| 0 <= k < more.len() && more[k] == v;
                    assert(now[before.len() + k] == v);
                }
            }
        }
    }
}

/// Whether a state is what is asked of a child.
pub open spec fn is_asked(slot: SlotModel, q: StateId) -> bool {
    match slot {
        SlotModel::Exactly(x) => q == x,
        SlotModel::Within(list) => list.contains(q),
        SlotModel::Free => true,
    }
}

/// Whether a rule on the left has a symbol of the set, as many children as are asked for, and
/// each child as it is asked for.
pub open spec fn joins_with(
    left: LeftModel,
    i: int,
    symbols: Set<Symbol>,
    slots: Seq<SlotModel>,
) -> bool {
    &&& symbols.contains(left.symbols[i])
    &&& left.children[i].len() == slots.len()
    &&& forall|p: int| 0 <= p < slots.len() ==> is_asked(#[trigger] slots[p], left.children[i][p])
}

proof fn lemma_joins(left: LeftModel, symbols: Set<Symbol>, slots: Seq<SlotModel>, n: nat)
    requires
        n <= usize::MAX,
    ensures
        forall|i: int, j: int|
            0 <= i < j < joins::matches_below(left, symbols, slots, n).len() ==> (
            #[trigger] joins::matches_below(left, symbols, slots, n)[i]) < (
            #[trigger] joins::matches_below(left, symbols, slots, n)[j]),
        forall|k: usize| #[trigger]
            joins::matches_below(left, symbols, slots, n).contains(k) <==> k < n && joins_with(
                left,
                k as int,
                symbols,
                slots,
            ),
    decreases n,
{
    if n > 0 {
        let last = n - 1;
        lemma_joins(left, symbols, slots, (n - 1) as nat);
        let before = joins::matches_below(left, symbols, slots, (n - 1) as nat);
        let now = joins::matches_below(left, symbols, slots, n);
        assert(joins::is_match(left, last, symbols, slots) == joins_with(
            left,
            last,
            symbols,
            slots,
        )) by {
            if joins::is_match(left, last, symbols, slots) {
                assert forall|p: int| 0 <= p < slots.len() implies is_asked(
                    #[trigger] slots[p],
                    left.children[last][p],
                ) by {
                    assert(slots[p].admits(left.children[last][p]));
                }
            }
            if joins_with(left, last, symbols, slots) {
                assert forall|p: int| 0 <= p < slots.len() implies (#[trigger] slots[p]).admits(
                    left.children[last][p],
                ) by {
                    assert(is_asked(slots[p], left.children[last][p]));
                }
            }
        }
        assert forall|i: int, j: int| 0 <= i < j < now.len() implies (#[trigger] now[i]) < (
        #[trigger] now[j]) by {
            assert(now[i] == before[i]);
            assert(before.contains(before[i]));
            if j < before.len() {
                assert(now[j] == before[j]);
            }
        }
        assert forall|k: usize| #[trigger] now.contains(k) <==> k < n && joins_with(
            left,
            k as int,
            symbols,
            slots,
        ) by {
            if now.contains(k) {
                let i = choose|i: int| 0 <= i < now.len() && now[i] == k;
                if i < before.len() {
                    assert(before[i] == k);
                    assert(before.contains(k));
                }
            }
            if k < n && joins_with(left, k as int, symbols, slots) {
                if k < last {
                    assert(before.contains(k));
                    let i = choose|i: int| 0 <= i < before.len() && before[i] == k;
                    assert(now[i] == k);
                } else {
                    assert(now[now.len() - 1] == k);
                }
            }
        }
    }
}

/// A rule on the right is joined with the rules on the left that fit it, all of them and no
/// other, by their numbers.
pub proof fn law_joins_are_complete(
    left: LeftModel,
    symbols: Set<Symbol>,
    slots: Seq<SlotModel>,
)
    requires
        left.children.len() <= usize::MAX,
    ensures
        forall|i: int, j: int|
            0 <= i < j < joins::matches(left, symbols, slots).len() ==> (
            #[trigger] joins::matches(left, symbols, slots)[i]) < (
            #[trigger] joins::matches(left, symbols, slots)[j]),
        forall|k: usize| #[trigger]
            joins::matches(left, symbols, slots).contains(k) <==> k < left.children.len()
                && joins_with(left, k as int, symbols, slots),
{
    lemma_joins(left, symbols, slots, left.children.len());
}

/// Counts add up, and the peak of two parts is the higher one.
pub proof fn law_counts_add_up(a: Seq<TallyModel>, b: Seq<TallyModel>)
    ensures
        ({
            let (x, y, t) = (tally::total(a), tally::total(b), tally::total(a + b));
            &&& t.calls == x.calls + y.calls
            &&& t.matches == x.matches + y.matches
            &&& t.lookups == x.lookups + y.lookups
            &&& t.candidates == x.candidates + y.candidates
            &&& t.rejected == x.rejected + y.rejected
            &&& t.peak >= x.peak && t.peak >= y.peak && (t.peak == x.peak || t.peak == y.peak)
        }),
        forall|one: TallyModel| #[trigger] tally::total(seq![one]) == one,
    decreases b.len(),
{
    if b.len() == 0 {
        assert(a + b =~= a);
    } else {
        law_counts_add_up(a, b.drop_last());
        assert((a + b).drop_last() =~= a + b.drop_last());
        assert((a + b).last() == b.last());
    }
    assert forall|one: TallyModel| #[trigger] tally::total(seq![one]) == one by {
        let list = seq![one];
        assert(list.drop_last() =~= Seq::empty());
        assert(list.last() == one);
        assert(tally::total(Seq::empty()) == tally::nothing());
    }
}

} // verus!
