//! Replaying in batches loses no edge.
use super::batched;
use super::candidates;
use super::candidates::Event;
use super::child_index;
use super::data;
use super::data::{ReplayModel, Visit};
use super::joins;
use super::joins::SlotModel;
use super::laws;
use super::partners;
use super::strategies;
use super::strategies::JoinStrategy;
use super::tally;
use crate::ids::StateId;
use vstd::prelude::*;

verus! {

/// Whether no two events are about the same states.
pub open spec fn are_distinct(events: Seq<Event>) -> bool {
    forall|i: int, j: int|
        0 <= i < j < events.len() ==> (#[trigger] events[i]).left != (#[trigger] events[j]).left
            || events[i].right != events[j].right
}

/// One if a rule on the left is as asked and makes an edge with the event it goes back to.
spec fn edge_at(
    m: ReplayModel,
    rule: int,
    p: int,
    slots: Seq<SlotModel>,
    cause: Option<Event>,
    i: int,
) -> nat {
    match cause {
        Some(e) => if joins::is_match(m.left, i, m.right.symbols[rule], slots)
            && candidates::is_candidate(
            m.pairs,
            e,
            p,
            m.left.children[i],
            m.right.children[rule],
        ) {
            1
        } else {
            0
        },
        None => 0,
    }
}

/// The edges among the rules below `n` that are as asked.
spec fn edges_with(
    m: ReplayModel,
    rule: int,
    p: int,
    slots: Seq<SlotModel>,
    cause: spec_fn(StateId) -> Option<Event>,
    n: nat,
) -> nat {
    tally::total(
        strategies::found_tallies(
            m,
            rule,
            p,
            joins::matches_below(m.left, m.right.symbols[rule], slots, n),
            cause,
        ),
    ).candidates
}

proof fn lemma_edges_with_step(
    m: ReplayModel,
    rule: int,
    p: int,
    slots: Seq<SlotModel>,
    cause: spec_fn(StateId) -> Option<Event>,
    n: nat,
)
    requires
        0 < n <= m.left.children.len() <= usize::MAX,
    ensures
        edges_with(m, rule, p, slots, cause, n) == edges_with(
            m,
            rule,
            p,
            slots,
            cause,
            (n - 1) as nat,
        ) + edge_at(m, rule, p, slots, cause(m.left.children[n - 1][p]), n - 1),
{
    let before = joins::matches_below(m.left, m.right.symbols[rule], slots, (n - 1) as nat);
    let now = joins::matches_below(m.left, m.right.symbols[rule], slots, n);
    let a = strategies::found_tallies(m, rule, p, before, cause);
    let b = strategies::found_tallies(m, rule, p, now, cause);
    if joins::is_match(m.left, n - 1, m.right.symbols[rule], slots) {
        assert(now == before.push((n - 1) as usize));
        assert(b.drop_last() =~= a);
    } else {
        assert(now == before);
    }
}

/// What is asked when an event's left state is asked for.
spec fn slots_for(m: ReplayModel, rule: int, p: int, own: SlotModel) -> Seq<SlotModel> {
    strategies::slots_around(m.right.children[rule], p, own, strategies::seen_with(m))
}

/// The edges of one event among the rules below `n`.
spec fn edges_of(m: ReplayModel, rule: int, p: int, e: Event, n: nat) -> nat {
    edges_with(
        m,
        rule,
        p,
        slots_for(m, rule, p, SlotModel::Exactly(e.left)),
        strategies::always(e),
        n,
    )
}

/// The edges of events among the rules below `n`, each for itself.
spec fn edges_each(m: ReplayModel, rule: int, p: int, events: Seq<Event>, n: nat) -> nat
    decreases events.len(),
{
    if events.len() == 0 {
        0
    } else {
        edges_each(m, rule, p, events.drop_last(), n) + edges_of(m, rule, p, events.last(), n)
    }
}

/// How many events make an edge with rule `i`, each for itself.
spec fn edge_each(m: ReplayModel, rule: int, p: int, events: Seq<Event>, i: int) -> nat
    decreases events.len(),
{
    if events.len() == 0 {
        0
    } else {
        edge_each(m, rule, p, events.drop_last(), i) + edge_at(
            m,
            rule,
            p,
            slots_for(m, rule, p, SlotModel::Exactly(events.last().left)),
            Some(events.last()),
            i,
        )
    }
}

proof fn lemma_edges_each_step(m: ReplayModel, rule: int, p: int, events: Seq<Event>, n: nat)
    requires
        0 < n <= m.left.children.len() <= usize::MAX,
    ensures
        edges_each(m, rule, p, events, n) == edges_each(m, rule, p, events, (n - 1) as nat)
            + edge_each(m, rule, p, events, n - 1),
    decreases events.len(),
{
    if events.len() > 0 {
        lemma_edges_each_step(m, rule, p, events.drop_last(), n);
        let e = events.last();
        lemma_edges_with_step(
            m,
            rule,
            p,
            slots_for(m, rule, p, SlotModel::Exactly(e.left)),
            strategies::always(e),
            n,
        );
    }
}

proof fn lemma_edges_none(
    m: ReplayModel,
    rule: int,
    p: int,
    slots: Seq<SlotModel>,
    cause: spec_fn(StateId) -> Option<Event>,
)
    ensures
        edges_with(m, rule, p, slots, cause, 0) == 0,
{
    assert(strategies::found_tallies(m, rule, p, Seq::empty(), cause) =~= Seq::empty());
}

proof fn lemma_edges_each_none(m: ReplayModel, rule: int, p: int, events: Seq<Event>)
    ensures
        edges_each(m, rule, p, events, 0) == 0,
    decreases events.len(),
{
    if events.len() > 0 {
        lemma_edges_each_none(m, rule, p, events.drop_last());
        let e = events.last();
        lemma_edges_none(
            m,
            rule,
            p,
            slots_for(m, rule, p, SlotModel::Exactly(e.left)),
            strategies::always(e),
        );
    }
}

/// No event makes an edge with a rule whose child is none of the events' states.
proof fn lemma_edge_each_zero(m: ReplayModel, rule: int, p: int, events: Seq<Event>, i: int)
    requires
        0 <= p < m.right.children[rule].len(),
        !batched::lefts(events).contains(m.left.children[i][p]),
    ensures
        edge_each(m, rule, p, events, i) == 0,
    decreases events.len(),
{
    if events.len() > 0 {
        let short = events.drop_last();
        let q = m.left.children[i][p];
        let e = events.last();
        if batched::lefts(short).contains(q) {
            let k = choose|k: int| 0 <= k < short.len() && batched::lefts(short)[k] == q;
            assert(batched::lefts(events)[k] == q);
        }
        lemma_edge_each_zero(m, rule, p, short, i);
        assert(batched::lefts(events)[events.len() - 1] == e.left);
        let slots = slots_for(m, rule, p, SlotModel::Exactly(e.left));
        if joins::is_match(m.left, i, m.right.symbols[rule], slots) {
            assert(slots[p].admits(m.left.children[i][p]));
        }
    }
}

/// Events with different left states make an edge with a rule each for itself, as often as
/// together.
proof fn lemma_edge_each(m: ReplayModel, rule: int, p: int, events: Seq<Event>, i: int)
    requires
        0 <= p < m.right.children[rule].len(),
        batched::lefts(events).no_duplicates(),
    ensures
        edge_each(m, rule, p, events, i) == edge_at(
            m,
            rule,
            p,
            slots_for(m, rule, p, SlotModel::Within(partners::firsts(batched::lefts(events)))),
            batched::last_with(events, m.left.children[i][p]),
            i,
        ),
    decreases events.len(),
{
    let q = m.left.children[i][p];
    let all = batched::lefts(events);
    partners::lemma_firsts(all);
    let within = slots_for(m, rule, p, SlotModel::Within(partners::firsts(all)));
    if events.len() > 0 {
        let short = events.drop_last();
        let e = events.last();
        let before = batched::lefts(short);
        partners::lemma_firsts(before);
        assert(before =~= all.drop_last());
        assert forall|a: int, b: int| 0 <= a < b < before.len() implies before[a] != before[b] by {
            assert(all[a] == before[a] && all[b] == before[b]);
        }
        assert(all[events.len() - 1] == e.left);
        let exact = slots_for(m, rule, p, SlotModel::Exactly(e.left));
        let within_before = slots_for(m, rule, p, SlotModel::Within(partners::firsts(before)));
        if q == e.left {
            if before.contains(q) {
                let k = choose|k: int| 0 <= k < before.len() && before[k] == q;
                assert(all[k] == all[events.len() - 1]);
            }
            lemma_edge_each_zero(m, rule, p, short, i);
            assert(all.contains(q));
            lemma_same_match(m, rule, p, exact, within, i);
        } else {
            lemma_edge_each(m, rule, p, short, i);
            assert(all.contains(q) == before.contains(q)) by {
                if all.contains(q) {
                    let k = choose|k: int| 0 <= k < all.len() && all[k] == q;
                    assert(before[k] == q);
                }
                if before.contains(q) {
                    let k = choose|k: int| 0 <= k < before.len() && before[k] == q;
                    assert(all[k] == q);
                }
            }
            lemma_same_match(m, rule, p, within_before, within, i);
            if joins::is_match(m.left, i, m.right.symbols[rule], exact) {
                assert(exact[p].admits(m.left.children[i][p]));
            }
        }
    }
}

/// Two demands that agree on a rule's child match the rule alike.
proof fn lemma_same_match(
    m: ReplayModel,
    rule: int,
    p: int,
    a: Seq<SlotModel>,
    b: Seq<SlotModel>,
    i: int,
)
    requires
        0 <= p < a.len(),
        a.len() == b.len(),
        a[p].admits(m.left.children[i][p]) == b[p].admits(m.left.children[i][p]),
        forall|x: int| 0 <= x < a.len() && x != p ==> #[trigger] a[x] == b[x],
    ensures
        joins::is_match(m.left, i, m.right.symbols[rule], a) == joins::is_match(
            m.left,
            i,
            m.right.symbols[rule],
            b,
        ),
{
    let l = m.left.children[i];
    if joins::is_match(m.left, i, m.right.symbols[rule], a) {
        assert forall|x: int| 0 <= x < b.len() implies (#[trigger] b[x]).admits(l[x]) by {
            assert(a[x].admits(l[x]));
        }
    }
    if joins::is_match(m.left, i, m.right.symbols[rule], b) {
        assert forall|x: int| 0 <= x < a.len() implies (#[trigger] a[x]).admits(l[x]) by {
            assert(b[x].admits(l[x]));
        }
    }
}

/// Events with different left states make as many edges each for itself as together.
proof fn lemma_edges_each(m: ReplayModel, rule: int, p: int, events: Seq<Event>, n: nat)
    requires
        0 <= p < m.right.children[rule].len(),
        batched::lefts(events).no_duplicates(),
        n <= m.left.children.len() <= usize::MAX,
    ensures
        edges_each(m, rule, p, events, n) == edges_with(
            m,
            rule,
            p,
            slots_for(m, rule, p, SlotModel::Within(partners::firsts(batched::lefts(events)))),
            batched::cause_in(events),
            n,
        ),
    decreases n,
{
    let slots = slots_for(m, rule, p, SlotModel::Within(partners::firsts(batched::lefts(events))));
    if n == 0 {
        lemma_edges_each_none(m, rule, p, events);
        lemma_edges_none(m, rule, p, slots, batched::cause_in(events));
    } else {
        lemma_edges_each(m, rule, p, events, (n - 1) as nat);
        lemma_edges_each_step(m, rule, p, events, n);
        lemma_edges_with_step(m, rule, p, slots, batched::cause_in(events), n);
        lemma_edge_each(m, rule, p, events, n - 1);
    }
}

/// The edges of one visit.
spec fn visit_edges(m: ReplayModel, v: Visit) -> nat {
    strategies::singleton_tally(m, v, true).candidates
}

/// The edges of events that visit a rule in a place, each for itself.
spec fn group_edges(m: ReplayModel, key: (usize, usize), events: Seq<Event>) -> nat
    decreases events.len(),
{
    if events.len() == 0 {
        0
    } else {
        group_edges(m, key, events.drop_last()) + visit_edges(
            m,
            Visit { event: events.last(), position: key.0, rule: key.1 },
        )
    }
}

proof fn lemma_group_edges(m: ReplayModel, key: (usize, usize), events: Seq<Event>)
    ensures
        group_edges(m, key, events) == (if strategies::siblings_known(
            m,
            key.1 as int,
            key.0 as int,
        ) {
            edges_each(m, key.1 as int, key.0 as int, events, m.left.children.len())
        } else {
            0
        }),
    decreases events.len(),
{
    if events.len() > 0 {
        lemma_group_edges(m, key, events.drop_last());
    }
}

/// A group makes as many edges as its visits.
proof fn lemma_group(m: ReplayModel, key: (usize, usize), events: Seq<Event>)
    requires
        key.0 < m.right.children[key.1 as int].len(),
        batched::lefts(events).no_duplicates(),
        m.left.children.len() <= usize::MAX,
    ensures
        batched::group_tally(m, key, events).candidates == group_edges(m, key, events),
{
    lemma_group_edges(m, key, events);
    lemma_edges_each(m, key.1 as int, key.0 as int, events, m.left.children.len());
}

/// The edges of the groups with some keys, visit by visit.
spec fn keyed_edges(m: ReplayModel, visits: Seq<Visit>, keys: Seq<(usize, usize)>) -> nat
    decreases keys.len(),
{
    if keys.len() == 0 {
        0
    } else {
        keyed_edges(m, visits, keys.drop_last()) + group_edges(
            m,
            keys.last(),
            batched::group_events(visits, keys.last()),
        )
    }
}

/// One more visit is one more event in its group.
proof fn lemma_group_step(visits: Seq<Visit>, key: (usize, usize))
    requires
        0 < visits.len() <= usize::MAX,
    ensures
        batched::group_events(visits, key) == (if batched::key_of(visits.last()) == key {
            batched::group_events(visits.drop_last(), key).push(visits.last().event)
        } else {
            batched::group_events(visits.drop_last(), key)
        }),
{
    let short = visits.drop_last();
    batched::lemma_members(short, key);
    let before = batched::group_events(short, key);
    let now = batched::group_events(visits, key);
    let list = batched::members(short, key);
    assert forall|j: int| 0 <= j < list.len() implies #[trigger] now[j] == before[j] by {
        assert(batched::members(visits, key)[j] == list[j]);
        assert(visits[list[j] as int] == short[list[j] as int]);
    }
    if batched::key_of(visits.last()) == key {
        assert(now =~= before.push(visits.last().event));
    } else {
        assert(now =~= before);
    }
}

/// One more visit is counted once, in its own group.
proof fn lemma_keyed_step(m: ReplayModel, visits: Seq<Visit>, keys: Seq<(usize, usize)>)
    requires
        0 < visits.len() <= usize::MAX,
        keys.no_duplicates(),
    ensures
        keyed_edges(m, visits, keys) == keyed_edges(m, visits.drop_last(), keys) + (
        if keys.contains(batched::key_of(visits.last())) {
            visit_edges(m, visits.last())
        } else {
            0
        }),
    decreases keys.len(),
{
    if keys.len() > 0 {
        let short = keys.drop_last();
        let key = batched::key_of(visits.last());
        assert forall|a: int, b: int| 0 <= a < b < short.len() implies short[a] != short[b] by {
            assert(keys[a] == short[a] && keys[b] == short[b]);
        }
        lemma_keyed_step(m, visits, short);
        lemma_group_step(visits, keys.last());
        let before = batched::group_events(visits.drop_last(), keys.last());
        if keys.last() == key {
            if short.contains(key) {
                let k = choose|k: int| 0 <= k < short.len() && short[k] == key;
                assert(keys[k] == keys[keys.len() - 1]);
            }
            assert(before.push(visits.last().event).drop_last() =~= before);
            assert(keys[keys.len() - 1] == key);
        } else {
            if short.contains(key) {
                let k = choose|k: int| 0 <= k < short.len() && short[k] == key;
                assert(keys[k] == key);
            }
            if keys.contains(key) {
                let k = choose|k: int| 0 <= k < keys.len() && keys[k] == key;
                assert(short[k] == key);
            }
        }
    }
}

/// Keys occur once, and each visit's key occurs.
proof fn lemma_keys_once(visits: Seq<Visit>)
    ensures
        batched::keys_of(visits).no_duplicates(),
        forall|key: (usize, usize)|
            #[trigger] batched::members(visits, key).len() > 0 ==> batched::keys_of(
                visits,
            ).contains(key),
    decreases visits.len(),
{
    if visits.len() > 0 {
        let short = visits.drop_last();
        lemma_keys_once(short);
        batched::lemma_keys(short);
        let rest = batched::keys_of(short);
        let all = batched::keys_of(visits);
        let own = batched::key_of(visits.last());
        if batched::members(short, own).len() == 0 {
            assert forall|a: int, b: int| 0 <= a < b < all.len() implies all[a] != all[b] by {
                assert(all[a] == rest[a]);
                assert(batched::members(short, rest[a]).len() > 0);
            }
        }
        assert forall|key: (usize, usize)|
            #[trigger] batched::members(visits, key).len() > 0 implies all.contains(key) by {
            if batched::members(short, key).len() > 0 {
                let k = choose|k: int| 0 <= k < rest.len() && rest[k] == key;
                assert(all[k] == key);
            } else {
                assert(key == own);
                assert(all[rest.len() as int] == own);
            }
        }
    }
}

/// All groups together make the edges of all visits.
proof fn lemma_keyed_total(m: ReplayModel, visits: Seq<Visit>)
    requires
        visits.len() <= usize::MAX,
    ensures
        keyed_edges(m, visits, batched::keys_of(visits)) == tally::total(
            strategies::visit_tallies(m, JoinStrategy::Singleton, visits),
        ).candidates,
    decreases visits.len(),
{
    if visits.len() > 0 {
        let short = visits.drop_last();
        lemma_keyed_total(m, short);
        lemma_keys_once(short);
        lemma_keys_once(visits);
        let own = batched::key_of(visits.last());
        let before = batched::keys_of(short);
        let now = batched::keys_of(visits);
        let all = strategies::visit_tallies(m, JoinStrategy::Singleton, visits);
        assert(all.drop_last() =~= strategies::visit_tallies(m, JoinStrategy::Singleton, short));
        lemma_keyed_step(m, visits, now);
        assert(batched::members(visits, own).len() > 0);
        assert(now.contains(own));
        if batched::members(short, own).len() == 0 {
            assert(now.drop_last() =~= before);
            assert(now.last() == own);
            assert(batched::group_events(short, own) =~= Seq::empty());
        } else {
            assert(now == before);
        }
    }
}

/// Whether no two visits to a rule in a place are by events with the same left state.
spec fn visits_apart(visits: Seq<Visit>) -> bool {
    forall|a: int, b: int|
        0 <= a < b < visits.len() && batched::key_of(#[trigger] visits[a]) == batched::key_of(
            #[trigger] visits[b],
        ) ==> visits[a].event.left != visits[b].event.left
}

proof fn lemma_group_lefts(visits: Seq<Visit>, key: (usize, usize))
    requires
        visits.len() <= usize::MAX,
        visits_apart(visits),
    ensures
        batched::lefts(batched::group_events(visits, key)).no_duplicates(),
    decreases visits.len(),
{
    if visits.len() > 0 {
        let short = visits.drop_last();
        assert(visits_apart(short)) by {
            assert forall|a: int, b: int|
                0 <= a < b < short.len() && batched::key_of(#[trigger] short[a])
                    == batched::key_of(#[trigger] short[b]) implies short[a].event.left
                != short[b].event.left by {
                assert(visits[a] == short[a] && visits[b] == short[b]);
            }
        }
        lemma_group_lefts(short, key);
        lemma_group_step(visits, key);
        let before = batched::group_events(short, key);
        let now = batched::group_events(visits, key);
        if batched::key_of(visits.last()) == key {
            batched::lemma_members(short, key);
            let list = batched::members(short, key);
            assert forall|a: int, b: int| 0 <= a < b < now.len() implies batched::lefts(now)[a]
                != batched::lefts(now)[b] by {
                assert(now[a] == before[a]);
                if b < before.len() {
                    assert(now[b] == before[b]);
                    assert(batched::lefts(before)[a] != batched::lefts(before)[b]);
                } else {
                    let x = list[a] as int;
                    assert(batched::members(short, key)[a] == list[a]);
                    assert(visits[x] == short[x]);
                    assert(visits[visits.len() - 1] == visits.last());
                }
            }
        }
    }
}

/// The lists with a state in a place are listed in increasing order.
proof fn lemma_with_child_below(all: Seq<Seq<StateId>>, p: usize, q: StateId)
    requires
        all.len() <= usize::MAX,
    ensures
        forall|k: int|
            0 <= k < child_index::with_child(all, p, q).len() ==> (
            #[trigger] child_index::with_child(all, p, q)[k]) < all.len(),
        child_index::with_child(all, p, q).no_duplicates(),
    decreases all.len(),
{
    if all.len() > 0 {
        lemma_with_child_below(all.drop_last(), p, q);
        let rest = child_index::with_child(all.drop_last(), p, q);
        let now = child_index::with_child(all, p, q);
        assert forall|k: int| 0 <= k < now.len() implies (#[trigger] now[k]) < all.len() by {
            if k < rest.len() {
                assert(now[k] == rest[k]);
            }
        }
        assert forall|a: int, b: int| 0 <= a < b < now.len() implies now[a] != now[b] by {
            assert(now[a] == rest[a]);
            if b < rest.len() {
                assert(now[b] == rest[b]);
            }
        }
    }
}

proof fn lemma_places_below(all: Seq<Seq<StateId>>, q: StateId, n: nat)
    requires
        n <= usize::MAX,
    ensures
        forall|k: int|
            0 <= k < child_index::places_below(all, q, n).len() ==> (
            #[trigger] child_index::places_below(all, q, n)[k]) < n,
        child_index::places_below(all, q, n).no_duplicates(),
    decreases n,
{
    if n > 0 {
        lemma_places_below(all, q, (n - 1) as nat);
        let rest = child_index::places_below(all, q, (n - 1) as nat);
        let now = child_index::places_below(all, q, n);
        assert forall|k: int| 0 <= k < now.len() implies (#[trigger] now[k]) < n by {
            if k < rest.len() {
                assert(now[k] == rest[k]);
            }
        }
        assert forall|a: int, b: int| 0 <= a < b < now.len() implies now[a] != now[b] by {
            assert(now[a] == rest[a]);
            if b < rest.len() {
                assert(now[b] == rest[b]);
            }
        }
    }
}

/// One event visits a rule in a place once.
proof fn lemma_visits_in_apart(m: ReplayModel, e: Event, places: Seq<usize>)
    requires
        m.right.children.len() <= usize::MAX,
        places.no_duplicates(),
    ensures
        forall|a: int, b: int|
            0 <= a < b < data::visits_in(m, e, places).len() ==> batched::key_of(
                #[trigger] data::visits_in(m, e, places)[a],
            ) != batched::key_of(#[trigger] data::visits_in(m, e, places)[b]),
        forall|a: int|
            0 <= a < data::visits_in(m, e, places).len() ==> places.contains(
                (#[trigger] data::visits_in(m, e, places)[a]).position,
            ),
    decreases places.len(),
{
    if places.len() > 0 {
        let short = places.drop_last();
        assert forall|a: int, b: int| 0 <= a < b < short.len() implies short[a] != short[b] by {
            assert(places[a] == short[a] && places[b] == short[b]);
        }
        lemma_visits_in_apart(m, e, short);
        let p = places.last();
        let ids = child_index::with_child(m.right.children, p, e.right);
        lemma_with_child_below(m.right.children, p, e.right);
        let rest = data::visits_in(m, e, short);
        let own = data::visits_at(e, p, ids);
        let all = data::visits_in(m, e, places);
        assert forall|a: int| 0 <= a < all.len() implies places.contains(
            (#[trigger] all[a]).position,
        ) by {
            if a < rest.len() {
                assert(all[a] == rest[a]);
                let k = choose|k: int| 0 <= k < short.len() && short[k] == rest[a].position;
                assert(places[k] == rest[a].position);
            } else {
                assert(all[a] == own[a - rest.len()]);
                assert(places[places.len() - 1] == p);
            }
        }
        assert forall|a: int, b: int| 0 <= a < b < all.len() implies batched::key_of(
            #[trigger] all[a],
        ) != batched::key_of(#[trigger] all[b]) by {
            if b < rest.len() {
                assert(all[a] == rest[a] && all[b] == rest[b]);
            } else {
                assert(all[b] == own[b - rest.len()]);
                if a < rest.len() {
                    assert(all[a] == rest[a]);
                    let k = choose|k: int| 0 <= k < short.len() && short[k] == rest[a].position;
                    assert(places[k] != places[places.len() - 1]);
                } else {
                    assert(all[a] == own[a - rest.len()]);
                    assert(ids[a - rest.len()] != ids[b - rest.len()]);
                }
            }
        }
    }
}

/// Events about different states visit a rule in a place with different left states.
proof fn lemma_visits_apart(m: ReplayModel, events: Seq<Event>)
    requires
        laws::partners_known(m),
        child_index::widest(m.left.children) <= usize::MAX,
        are_distinct(events),
    ensures
        visits_apart(data::visits_of(m, events)),
    decreases events.len(),
{
    if events.len() > 0 {
        let short = events.drop_last();
        assert(are_distinct(short)) by {
            assert forall|i: int, j: int| 0 <= i < j < short.len() implies (
            #[trigger] short[i]).left != (#[trigger] short[j]).left || short[i].right
                != short[j].right by {
                assert(events[i] == short[i] && events[j] == short[j]);
            }
        }
        lemma_visits_apart(m, short);
        laws::lemma_are_visits(m, events);
        batched::lemma_visit_events(m, short);
        let e = events.last();
        let places = child_index::places(m.left.children, e.left);
        lemma_places_below(m.left.children, e.left, child_index::widest(m.left.children));
        lemma_visits_in_apart(m, e, places);
        batched::lemma_visits_in(m, e, places);
        let rest = data::visits_of(m, short);
        let own = data::visits_in(m, e, places);
        let all = data::visits_of(m, events);
        assert forall|a: int, b: int|
            0 <= a < b < all.len() && batched::key_of(#[trigger] all[a]) == batched::key_of(
                #[trigger] all[b],
            ) implies all[a].event.left != all[b].event.left by {
            if b < rest.len() {
                assert(all[a] == rest[a] && all[b] == rest[b]);
            } else {
                assert(all[b] == own[b - rest.len()]);
                if a < rest.len() {
                    assert(all[a] == rest[a]);
                    let k = choose|k: int| 0 <= k < short.len() && short[k] == rest[a].event;
                    assert(events[k] == rest[a].event);
                    assert(events[events.len() - 1] == e);
                    assert(data::is_visit(m, all[a]));
                    assert(data::is_visit(m, all[b]));
                } else {
                    assert(all[a] == own[a - rest.len()]);
                }
            }
        }
    }
}

proof fn lemma_groups_total(m: ReplayModel, visits: Seq<Visit>, keys: Seq<(usize, usize)>)
    requires
        m.left.children.len() <= usize::MAX,
        visits.len() <= usize::MAX,
        visits_apart(visits),
        forall|k: int|
            0 <= k < keys.len() ==> (#[trigger] keys[k]).0 < m.right.children[keys[k].1 as int].len(),
    ensures
        tally::total(
            Seq::new(
                keys.len(),
                |k: int|
                    batched::group_tally(m, keys[k], batched::group_events(visits, keys[k])),
            ),
        ).candidates == keyed_edges(m, visits, keys),
    decreases keys.len(),
{
    let list = Seq::new(
        keys.len(),
        |k: int| batched::group_tally(m, keys[k], batched::group_events(visits, keys[k])),
    );
    if keys.len() > 0 {
        let short = keys.drop_last();
        assert forall|k: int| 0 <= k < short.len() implies (#[trigger] short[k]).0
            < m.right.children[short[k].1 as int].len() by {
            assert(keys[k] == short[k]);
        }
        lemma_groups_total(m, visits, short);
        assert(list.drop_last() =~= Seq::new(
            short.len(),
            |k: int| batched::group_tally(m, short[k], batched::group_events(visits, short[k])),
        ));
        let key = keys[keys.len() - 1];
        lemma_group_lefts(visits, key);
        lemma_group(m, key, batched::group_events(visits, key));
    }
}

/// Taking all events of a rule and place at once loses no edge, and adds none, if no two
/// events are about the same states: as many are considered as when events are taken one at
/// a time.
pub proof fn law_batching_loses_no_edge(m: ReplayModel, events: Seq<Event>)
    requires
        laws::partners_known(m),
        child_index::widest(m.left.children) <= usize::MAX,
        data::visits_of(m, events).len() <= usize::MAX,
        are_distinct(events),
    ensures
        batched::replay_tally(m, JoinStrategy::Batched, events).candidates
            == batched::replay_tally(m, JoinStrategy::Singleton, events).candidates,
{
    let visits = data::visits_of(m, events);
    let keys = batched::keys_of(visits);
    lemma_visits_apart(m, events);
    laws::lemma_are_visits(m, events);
    batched::lemma_keys(visits);
    assert forall|k: int| 0 <= k < keys.len() implies (#[trigger] keys[k]).0
        < m.right.children[keys[k].1 as int].len() by {
        batched::lemma_members(visits, keys[k]);
        let i = batched::members(visits, keys[k])[0];
        assert(batched::members(visits, keys[k]).len() > 0);
        assert(batched::key_of(visits[i as int]) == keys[k]);
        assert(data::is_visit(m, visits[i as int]));
    }
    lemma_groups_total(m, visits, keys);
    lemma_keyed_total(m, visits);
}

} // verus!
