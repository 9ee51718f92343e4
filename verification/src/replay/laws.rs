//! Laws of the replay: what the strategies agree on.
use super::batched;
use super::candidates;
use super::candidates::Event;
use super::child_index;
use super::collect;
use super::data;
use super::data::{ReplayModel, Visit};
use super::joins;
use super::joins::SlotModel;
use super::products;
use super::strategies;
use super::strategies::JoinStrategy;
use super::tally;
use super::tally::TallyModel;
use crate::ids::StateId;
use vstd::prelude::*;

verus! {

/// Whether a strategy joins siblings with the states they were seen with, and counts edges.
pub open spec fn is_plain_singleton(strategy: JoinStrategy) -> bool {
    match strategy {
        JoinStrategy::Singleton
        | JoinStrategy::SingletonLocalProduct
        | JoinStrategy::SingletonNoAlloc
        | JoinStrategy::SingletonSymbols => true,
        _ => false,
    }
}

/// How products are looked up, and whether symbols or children come first, changes no count.
pub proof fn law_singleton_variants_agree(
    m: ReplayModel,
    a: JoinStrategy,
    b: JoinStrategy,
    events: Seq<Event>,
)
    requires
        is_plain_singleton(a),
        is_plain_singleton(b),
    ensures
        batched::replay_tally(m, a, events) == batched::replay_tally(m, b, events),
{
    let visits = data::visits_of(m, events);
    assert(strategies::visit_tallies(m, a, visits) =~= strategies::visit_tallies(m, b, visits));
}

/// Joining alone asks the index as often, and finds as much, as counting edges too.
pub proof fn law_join_only_counts_the_same_joins(m: ReplayModel, events: Seq<Event>)
    ensures
        ({
            let all = batched::replay_tally(m, JoinStrategy::Singleton, events);
            batched::replay_tally(m, JoinStrategy::SingletonJoinOnly, events) == TallyModel {
                calls: all.calls,
                matches: all.matches,
                peak: all.peak,
                ..tally::nothing()
            }
        }),
{
    lemma_joins_of_visits(m, data::visits_of(m, events));
}

proof fn lemma_joins_of_visits(m: ReplayModel, visits: Seq<Visit>)
    ensures
        ({
            let all = tally::total(
                strategies::visit_tallies(m, JoinStrategy::Singleton, visits),
            );
            tally::total(strategies::visit_tallies(m, JoinStrategy::SingletonJoinOnly, visits))
                == TallyModel {
                calls: all.calls,
                matches: all.matches,
                peak: all.peak,
                ..tally::nothing()
            }
        }),
    decreases visits.len(),
{
    if visits.len() > 0 {
        let short = visits.drop_last();
        lemma_joins_of_visits(m, short);
        let all = strategies::visit_tallies(m, JoinStrategy::Singleton, visits);
        let only = strategies::visit_tallies(m, JoinStrategy::SingletonJoinOnly, visits);
        assert(all.drop_last() =~= strategies::visit_tallies(m, JoinStrategy::Singleton, short));
        assert(only.drop_last() =~= strategies::visit_tallies(
            m,
            JoinStrategy::SingletonJoinOnly,
            short,
        ));
        let v = visits.last();
        let children = m.right.children[v.rule as int];
        let slots = strategies::slots_around(
            children,
            v.position as int,
            SlotModel::Exactly(v.event.left),
            strategies::seen_with(m),
        );
        let found = joins::matches(m.left, m.right.symbols[v.rule as int], slots);
        lemma_found_count_no_joins(
            strategies::found_tallies(
                m,
                v.rule as int,
                v.position as int,
                found,
                strategies::always(v.event),
            ),
        );
    }
}

/// Edges count no joins.
proof fn lemma_found_count_no_joins(list: Seq<TallyModel>)
    requires
        forall|k: int|
            0 <= k < list.len() ==> (#[trigger] list[k]).calls == 0 && list[k].matches == 0
                && list[k].peak == 0,
    ensures
        tally::total(list).calls == 0,
        tally::total(list).matches == 0,
        tally::total(list).peak == 0,
    decreases list.len(),
{
    if list.len() > 0 {
        assert forall|k: int| 0 <= k < list.drop_last().len() implies (
        #[trigger] list.drop_last()[k]).calls == 0 && list.drop_last()[k].matches == 0
            && list.drop_last()[k].peak == 0 by {
            assert(list.drop_last()[k] == list[k]);
        }
        lemma_found_count_no_joins(list.drop_last());
        assert(list[list.len() - 1].calls == 0);
    }
}

/// The edges among the rules below `n` that are as asked.
spec fn edges_below(
    m: ReplayModel,
    rule: int,
    p: int,
    slots: Seq<SlotModel>,
    e: Event,
    n: nat,
) -> nat {
    tally::total(
        strategies::found_tallies(
            m,
            rule,
            p,
            joins::matches_below(m.left, m.right.symbols[rule], slots, n),
            strategies::always(e),
        ),
    ).candidates
}

/// What is asked of siblings loses no edge, if it drops only rules that make none.
proof fn lemma_same_edges(
    m: ReplayModel,
    rule: int,
    p: int,
    few: Seq<SlotModel>,
    many: Seq<SlotModel>,
    e: Event,
    n: nat,
)
    requires
        n <= m.left.children.len() <= usize::MAX,
        forall|i: int|
            0 <= i < n && #[trigger] joins::is_match(m.left, i, m.right.symbols[rule], few)
                ==> joins::is_match(m.left, i, m.right.symbols[rule], many),
        forall|i: int|
            0 <= i < n && #[trigger] joins::is_match(m.left, i, m.right.symbols[rule], many)
                && !joins::is_match(m.left, i, m.right.symbols[rule], few)
                ==> !candidates::is_candidate(
                m.pairs,
                e,
                p,
                m.left.children[i],
                m.right.children[rule],
            ),
    ensures
        edges_below(m, rule, p, few, e, n) == edges_below(m, rule, p, many, e, n),
    decreases n,
{
    if n > 0 {
        let k = (n - 1) as nat;
        lemma_same_edges(m, rule, p, few, many, e, k);
        lemma_edges_step(m, rule, p, few, e, n);
        lemma_edges_step(m, rule, p, many, e, n);
    }
}

proof fn lemma_edges_step(
    m: ReplayModel,
    rule: int,
    p: int,
    slots: Seq<SlotModel>,
    e: Event,
    n: nat,
)
    requires
        0 < n <= m.left.children.len() <= usize::MAX,
    ensures
        edges_below(m, rule, p, slots, e, n) == edges_below(m, rule, p, slots, e, (n - 1) as nat)
            + (if joins::is_match(m.left, n - 1, m.right.symbols[rule], slots)
            && candidates::is_candidate(
            m.pairs,
            e,
            p,
            m.left.children[n - 1],
            m.right.children[rule],
        ) {
            1nat
        } else {
            0
        }),
{
    let before = joins::matches_below(m.left, m.right.symbols[rule], slots, (n - 1) as nat);
    let now = joins::matches_below(m.left, m.right.symbols[rule], slots, n);
    let a = strategies::found_tallies(m, rule, p, before, strategies::always(e));
    let b = strategies::found_tallies(m, rule, p, now, strategies::always(e));
    if joins::is_match(m.left, n - 1, m.right.symbols[rule], slots) {
        assert(now == before.push((n - 1) as usize));
        assert(b.drop_last() =~= a);
        assert(b.last() == candidates::candidate_tally(
            m.pairs,
            e,
            p,
            m.left.children[n - 1],
            m.right.children[rule],
        ));
    } else {
        assert(now == before);
    }
}

/// Whether the partners of every right state are known.
pub open spec fn partners_known(m: ReplayModel) -> bool {
    &&& collect::are_partners(m.partners, m.pairs)
    &&& collect::rules_below(m.right, m.partners.len())
    &&& m.right.is_table()
    &&& m.left.is_table()
    &&& m.left.children.len() <= usize::MAX
    &&& m.right.children.len() <= usize::MAX
}

/// A visit makes the same edges whether or not siblings are joined with their partners.
proof fn lemma_visit_edges(m: ReplayModel, v: Visit)
    requires
        partners_known(m),
        data::is_visit(m, v),
    ensures
        strategies::singleton_tally(m, v, true).candidates == strategies::narrow_tally(
            m,
            v,
        ).candidates,
{
    let rule = v.rule as int;
    let p = v.position as int;
    let children = m.right.children[rule];
    let n = m.left.children.len();
    let few = strategies::slots_around(
        children,
        p,
        SlotModel::Exactly(v.event.left),
        strategies::seen_with(m),
    );
    let many = strategies::slots_around(
        children,
        p,
        SlotModel::Exactly(v.event.left),
        |q: StateId| SlotModel::Free,
    );
    let symbols = m.right.symbols[rule];
    assert forall|i: int| 0 <= i < n && #[trigger] joins::is_match(
        m.left,
        i,
        symbols,
        few,
    ) implies joins::is_match(m.left, i, symbols, many) by {
        assert forall|x: int| 0 <= x < many.len() implies (#[trigger] many[x]).admits(
            m.left.children[i][x],
        ) by {
            assert(few[x].admits(m.left.children[i][x]));
        }
    }
    assert forall|i: int| 0 <= i < n && #[trigger] joins::is_match(
        m.left,
        i,
        symbols,
        many,
    ) && !joins::is_match(m.left, i, symbols, few) implies !candidates::is_candidate(
        m.pairs,
        v.event,
        p,
        m.left.children[i],
        children,
    ) by {
        let l = m.left.children[i];
        let x = choose|x: int| 0 <= x < few.len() && !(#[trigger] few[x]).admits(l[x]);
        assert(many[x].admits(l[x]));
        assert(x != p);
        lemma_no_partner_no_product(m, rule, x, l[x]);
        assert(candidates::child_product(m.pairs, v.event, p, l, children, x) is None);
    }
    lemma_same_edges(m, rule, p, few, many, v.event, n);
    if !strategies::siblings_known(m, rule, p) {
        let x = choose|x: int|
            0 <= x < children.len() && x != p && {
                let q = #[trigger] children[x];
                !(q.0 < m.partners.len() && m.partners[q.0 as int].len() > 0)
            };
        assert(m.right.children[rule][x].0 < m.partners.len());
        assert forall|i: int| 0 <= i < n implies !#[trigger] joins::is_match(
            m.left,
            i,
            symbols,
            few,
        ) by {
            if joins::is_match(m.left, i, symbols, few) {
                assert(few[x].admits(m.left.children[i][x]));
            }
        }
        lemma_no_edges(m, rule, p, few, v.event, n);
    }
}

proof fn lemma_no_edges(
    m: ReplayModel,
    rule: int,
    p: int,
    slots: Seq<SlotModel>,
    e: Event,
    n: nat,
)
    requires
        n <= m.left.children.len() <= usize::MAX,
        forall|i: int|
            0 <= i < n ==> !#[trigger] joins::is_match(m.left, i, m.right.symbols[rule], slots),
    ensures
        edges_below(m, rule, p, slots, e, n) == 0,
    decreases n,
{
    if n > 0 {
        lemma_no_edges(m, rule, p, slots, e, (n - 1) as nat);
        lemma_edges_step(m, rule, p, slots, e, n);
    }
}

/// States that were not seen together have no product.
proof fn lemma_no_partner_no_product(m: ReplayModel, rule: int, x: int, l: StateId)
    requires
        partners_known(m),
        0 <= rule < m.right.children.len(),
        0 <= x < m.right.children[rule].len(),
        !m.partners[m.right.children[rule][x].0 as int].contains(l),
    ensures
        products::number_of(m.pairs, l, m.right.children[rule][x]) is None,
{
    let r = m.right.children[rule][x];
    assert(r.0 < m.partners.len());
    assert(!m.pairs.contains((l, r)));
}

proof fn lemma_visits_in_places(m: ReplayModel, e: Event, places: Seq<usize>)
    requires
        partners_known(m),
    ensures
        forall|k: int|
            0 <= k < data::visits_in(m, e, places).len() ==> data::is_visit(
                m,
                #[trigger] data::visits_in(m, e, places)[k],
            ),
    decreases places.len(),
{
    if places.len() > 0 {
        let rest = data::visits_in(m, e, places.drop_last());
        lemma_visits_in_places(m, e, places.drop_last());
        let p = places.last();
        let ids = child_index::with_child(m.right.children, p, e.right);
        let all = data::visits_in(m, e, places);
        assert forall|k: int| 0 <= k < all.len() implies data::is_visit(m, #[trigger] all[k]) by {
            if k < rest.len() {
                assert(all[k] == rest[k]);
            } else {
                let id = ids[k - rest.len()];
                assert(all[k] == data::visits_at(e, p, ids)[k - rest.len()]);
                assert(ids.contains(id));
                child_index::lemma_with_child(m.right.children, p, e.right, id);
            }
        }
    }
}

/// What events visit has the event's state in its place.
pub(super) proof fn lemma_are_visits(m: ReplayModel, events: Seq<Event>)
    requires
        partners_known(m),
    ensures
        forall|k: int|
            0 <= k < data::visits_of(m, events).len() ==> data::is_visit(
                m,
                #[trigger] data::visits_of(m, events)[k],
            ),
    decreases events.len(),
{
    if events.len() > 0 {
        let rest = data::visits_of(m, events.drop_last());
        lemma_are_visits(m, events.drop_last());
        let places = child_index::places(m.left.children, events.last().left);
        lemma_visits_in_places(m, events.last(), places);
        let own = data::visits_in(m, events.last(), places);
        let all = data::visits_of(m, events);
        assert forall|k: int| 0 <= k < all.len() implies data::is_visit(m, #[trigger] all[k]) by {
            if k < rest.len() {
                assert(all[k] == rest[k]);
            } else {
                assert(all[k] == own[k - rest.len()]);
            }
        }
    }
}

proof fn lemma_visits_edges(m: ReplayModel, visits: Seq<Visit>)
    requires
        partners_known(m),
        forall|k: int| 0 <= k < visits.len() ==> data::is_visit(m, #[trigger] visits[k]),
    ensures
        tally::total(strategies::visit_tallies(m, JoinStrategy::Singleton, visits)).candidates
            == tally::total(
            strategies::visit_tallies(m, JoinStrategy::ChildNarrow, visits),
        ).candidates,
    decreases visits.len(),
{
    if visits.len() > 0 {
        let short = visits.drop_last();
        assert forall|k: int| 0 <= k < short.len() implies data::is_visit(m, #[trigger] short[k]) by {
            assert(short[k] == visits[k]);
        }
        lemma_visits_edges(m, short);
        let a = strategies::visit_tallies(m, JoinStrategy::Singleton, visits);
        let b = strategies::visit_tallies(m, JoinStrategy::ChildNarrow, visits);
        assert(a.drop_last() =~= strategies::visit_tallies(m, JoinStrategy::Singleton, short));
        assert(b.drop_last() =~= strategies::visit_tallies(m, JoinStrategy::ChildNarrow, short));
        assert(data::is_visit(m, visits[visits.len() - 1]));
        lemma_visit_edges(m, visits.last());
    }
}

/// Joining siblings with the states they were seen with loses no edge: as many are
/// considered as when nothing is asked of siblings.
pub proof fn law_joining_siblings_loses_no_edge(m: ReplayModel, events: Seq<Event>)
    requires
        partners_known(m),
    ensures
        batched::replay_tally(m, JoinStrategy::Singleton, events).candidates
            == batched::replay_tally(m, JoinStrategy::ChildNarrow, events).candidates,
{
    lemma_are_visits(m, events);
    lemma_visits_edges(m, data::visits_of(m, events));
}

} // verus!
