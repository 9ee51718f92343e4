//! Replaying all events of one rule and place at once, and choosing a strategy.
use super::candidates::{count_one_candidate, CountMode, Event};
use super::data;
use super::data::{ReplayData, ReplayModel, Visit};
use super::joins;
use super::joins::{Slot, SlotModel};
use super::partners;
use super::partners::PartnerSet;
use super::strategies;
use super::strategies::JoinStrategy;
use super::tally;
use super::tally::{Tally, TallyModel};
use crate::ids::StateId;
use crate::key_index::KeyIndex;
use vstd::prelude::*;

verus! {

/// The place and the rule of a visit.
pub open spec fn key_of(v: Visit) -> (usize, usize) {
    (v.position, v.rule)
}

/// The numbers of the visits with a place and a rule, in increasing order.
pub open spec fn members(visits: Seq<Visit>, key: (usize, usize)) -> Seq<usize>
    decreases visits.len(),
{
    if visits.len() == 0 {
        Seq::empty()
    } else {
        let rest = members(visits.drop_last(), key);
        if key_of(visits.last()) == key {
            rest.push((visits.len() - 1) as usize)
        } else {
            rest
        }
    }
}

/// The different places and rules of visits, each where it occurs first.
pub open spec fn keys_of(visits: Seq<Visit>) -> Seq<(usize, usize)>
    decreases visits.len(),
{
    if visits.len() == 0 {
        Seq::empty()
    } else {
        let rest = keys_of(visits.drop_last());
        if members(visits.drop_last(), key_of(visits.last())).len() > 0 {
            rest
        } else {
            rest.push(key_of(visits.last()))
        }
    }
}

/// The events that visit a rule in a place.
pub open spec fn group_events(visits: Seq<Visit>, key: (usize, usize)) -> Seq<Event> {
    let list = members(visits, key);
    Seq::new(list.len(), |j: int| visits[list[j] as int].event)
}

/// The left states of events.
pub open spec fn lefts(events: Seq<Event>) -> Seq<StateId> {
    Seq::new(events.len(), |j: int| events[j].left)
}

/// The last event with a left state.
pub open spec fn last_with(events: Seq<Event>, q: StateId) -> Option<Event>
    decreases events.len(),
{
    if events.len() == 0 {
        None
    } else if events.last().left == q {
        Some(events.last())
    } else {
        last_with(events.drop_last(), q)
    }
}

/// The last event with a left state.
pub open spec fn cause_in(events: Seq<Event>) -> spec_fn(StateId) -> Option<Event> {
    |q: StateId| last_with(events, q)
}

/// What the events of one place and rule count together.
pub open spec fn group_tally(
    m: ReplayModel,
    key: (usize, usize),
    events: Seq<Event>,
) -> TallyModel {
    let (position, rule) = (key.0 as int, key.1 as int);
    if strategies::siblings_known(m, rule, position) {
        strategies::join_tally(
            m,
            rule,
            position,
            strategies::slots_around(
                m.right.children[rule],
                position,
                SlotModel::Within(partners::firsts(lefts(events))),
                strategies::seen_with(m),
            ),
            cause_in(events),
            true,
        )
    } else {
        tally::nothing()
    }
}

/// What visits count together, place by place and rule by rule.
pub open spec fn group_tallies(m: ReplayModel, visits: Seq<Visit>) -> Seq<TallyModel> {
    let keys = keys_of(visits);
    Seq::new(keys.len(), |k: int| group_tally(m, keys[k], group_events(visits, keys[k])))
}

/// What a replay of events counts.
pub open spec fn replay_tally(
    m: ReplayModel,
    strategy: JoinStrategy,
    events: Seq<Event>,
) -> TallyModel {
    let visits = data::visits_of(m, events);
    tally::total(
        if strategy == JoinStrategy::Batched {
            group_tallies(m, visits)
        } else {
            strategies::visit_tallies(m, strategy, visits)
        },
    )
}

/// The word that stands for a place and a rule.
pub open spec fn key_word(key: (usize, usize)) -> Seq<u32> {
    seq![
        (key.0 as u64 / 0x1_0000_0000) as u32,
        (key.0 as u64 % 0x1_0000_0000) as u32,
        (key.1 as u64 / 0x1_0000_0000) as u32,
        (key.1 as u64 % 0x1_0000_0000) as u32,
    ]
}

fn make_key_word(key: (usize, usize)) -> (k: Vec<u32>)
    ensures
        k@ == key_word(key),
{
    let a: u32 = (key.0 as u64 / 0x1_0000_0000) as u32;
    let b: u32 = (key.0 as u64 % 0x1_0000_0000) as u32;
    let c: u32 = (key.1 as u64 / 0x1_0000_0000) as u32;
    let d: u32 = (key.1 as u64 % 0x1_0000_0000) as u32;
    let k: Vec<u32> = vec![a, b, c, d];
    assert(k@ =~= key_word(key));
    k
}

proof fn lemma_key_word(a: (usize, usize), b: (usize, usize))
    requires
        key_word(a) == key_word(b),
    ensures
        a == b,
{
    assert(key_word(a)[0] == key_word(b)[0]);
    assert(key_word(a)[1] == key_word(b)[1]);
    assert(key_word(a)[2] == key_word(b)[2]);
    assert(key_word(a)[3] == key_word(b)[3]);
}

/// The members of a group visit its rule in its place.
pub(super) proof fn lemma_members(visits: Seq<Visit>, key: (usize, usize))
    requires
        visits.len() <= usize::MAX,
    ensures
        forall|j: int|
            0 <= j < members(visits, key).len() ==> {
                let i = #[trigger] members(visits, key)[j];
                i < visits.len() && key_of(visits[i as int]) == key
            },
    decreases visits.len(),
{
    if visits.len() > 0 {
        let rest = members(visits.drop_last(), key);
        lemma_members(visits.drop_last(), key);
        assert forall|j: int| 0 <= j < members(visits, key).len() implies {
            let i = #[trigger] members(visits, key)[j];
            i < visits.len() && key_of(visits[i as int]) == key
        } by {
            if j < rest.len() {
                assert(members(visits, key)[j] == rest[j]);
                assert(visits.drop_last()[rest[j] as int] == visits[rest[j] as int]);
            }
        }
    }
}

/// Every group has members.
pub(super) proof fn lemma_keys(visits: Seq<Visit>)
    ensures
        forall|k: int|
            0 <= k < keys_of(visits).len() ==> members(visits, #[trigger] keys_of(visits)[k]).len()
                > 0,
    decreases visits.len(),
{
    if visits.len() > 0 {
        let short = visits.drop_last();
        lemma_keys(short);
        let rest = keys_of(short);
        assert forall|k: int| 0 <= k < keys_of(visits).len() implies members(
            visits,
            #[trigger] keys_of(visits)[k],
        ).len() > 0 by {
            if k < rest.len() {
                assert(keys_of(visits)[k] == rest[k]);
                assert(members(short, rest[k]).len() > 0);
            }
        }
    }
}

/// The last event with a left state.
fn find_last(events: &Vec<Event>, q: StateId) -> (r: Option<Event>)
    ensures
        r == last_with(events@, q),
        r matches Some(e) ==> e.left == q && events@.contains(e),
{
    let mut i: usize = events.len();
    assert(events@.take(i as int) =~= events@);
    while i > 0
        invariant
            i <= events@.len(),
            last_with(events@, q) == last_with(events@.take(i as int), q),
        decreases i,
    {
        proof {
            assert(events@.take(i as int).last() == events@[i - 1]);
            assert(events@.take(i as int).drop_last() =~= events@.take(i - 1));
        }
        if events[i - 1].left == q {
            assert(events@.contains(events@[i - 1]));
            return Some(events[i - 1]);
        }
        i -= 1;
    }
    None
}

/// Visits by place and rule.
struct Groups {
    keys: Vec<(usize, usize)>,
    index: KeyIndex,
}

/// Whether groups are those of visits.
spec fn are_groups(g: Groups, visits: Seq<Visit>) -> bool {
    &&& g.index.wf()
    &&& g.keys@ == keys_of(visits)
    &&& forall|key: (usize, usize)|
        g.index.at(#[trigger] key_word(key)) == members(visits, key)
}

/// Groups visits by place and rule.
fn group(visits: &Vec<Visit>) -> (g: Groups)
    ensures
        are_groups(g, visits@),
{
    let mut g = Groups { keys: Vec::new(), index: KeyIndex::new() };
    let mut i: usize = 0;
    assert(visits@.take(0) =~= Seq::empty());
    assert(g.keys@ =~= Seq::empty());
    while i < visits.len()
        invariant
            i <= visits@.len(),
            are_groups(g, visits@.take(i as int)),
        decreases visits@.len() - i,
    {
        let key = (visits[i].position, visits[i].rule);
        let ghost before = visits@.take(i as int);
        let ghost now = visits@.take(i + 1);
        let ghost earlier = g;
        proof {
            assert(now.drop_last() =~= before);
            assert(now.last() == visits@[i as int]);
        }
        let word = make_key_word(key);
        assert(g.index.at(key_word(key)) == members(before, key));
        if g.index.get(word.as_slice()).len() == 0 {
            g.keys.push(key);
        }
        g.index.push(word, i);
        proof {
            assert forall|k: (usize, usize)| g.index.at(#[trigger] key_word(k)) == members(
                now,
                k,
            ) by {
                assert(earlier.index.at(key_word(k)) == members(before, k));
                if key_word(k) == key_word(key) {
                    lemma_key_word(k, key);
                }
            }
        }
        i += 1;
    }
    assert(visits@.take(i as int) =~= visits@);
    g
}

impl ReplayData {
    /// Joins one rule on the right with all left states that visit it, and counts.
    fn add_group(
        &self,
        key: (usize, usize),
        events: &Vec<Event>,
        t: &mut Tally,
    ) -> (done: bool)
        requires
            self.wf(),
            forall|j: int|
                0 <= j < events@.len() ==> data::is_visit(
                    self@,
                    Visit { event: #[trigger] events@[j], position: key.0, rule: key.1 },
                ),
            key.1 < self@.right.children.len(),
            key.0 < self@.right.children[key.1 as int].len(),
            forall|j: int|
                0 <= j < events@.len() ==> (#[trigger] events@[j]).left.0 < StateId::STUCK,
        ensures
            strategies::is_added(
                old(t)@,
                group_tally(self@, key, events@),
                final(t)@,
                done,
            ),
    {
        let ghost m = self@;
        let ghost start = t@;
        let (position, rule) = key;
        proof {
            self.lemma_fields();
            tally::lemma_plus_nothing(start);
        }
        let mut states = PartnerSet::new();
        let mut i: usize = 0;
        assert(lefts(events@.take(0)) =~= Seq::empty());
        while i < events.len()
            invariant
                i <= events@.len(),
                states@ == partners::firsts(lefts(events@.take(i as int))),
                forall|j: int|
                    0 <= j < events@.len() ==> (#[trigger] events@[j]).left.0 < StateId::STUCK,
            decreases events@.len() - i,
        {
            proof {
                let now = lefts(events@.take(i + 1));
                assert(now.drop_last() =~= lefts(events@.take(i as int)));
                assert(now.last() == events@[i as int].left);
            }
            let _ = states.insert(events[i].left);
            i += 1;
        }
        assert(events@.take(i as int) =~= events@);
        let left_count: usize = self.left.children.len();
        assert(m.left.children.len() == left_count);
        let slots = match self.sibling_slots(rule, position, Slot::Within(&states)) {
            Some(slots) => slots,
            None => {
                return true;
            },
        };
        let ghost models = joins::slot_models(slots@);
        let found = self.left.join(&self.left_index, &self.right.symbols[rule], &slots);
        let ghost list = strategies::found_tallies(
            m,
            rule as int,
            position as int,
            found@,
            cause_in(events@),
        );
        proof {
            assert(m.right.symbols[rule as int] == self.right.symbols@[rule as int]@);
            joins::lemma_matches(
                m.left,
                m.right.symbols[rule as int],
                models,
                m.left.children.len(),
            );
        }
        let size: usize = found.len();
        let call = Tally {
            calls: 1,
            matches: size,
            lookups: 0,
            candidates: 0,
            rejected: 0,
            peak: size,
        };
        assert(call@ == strategies::call_tally(found@.len()));
        if !t.absorb(&call) {
            proof {
                tally::lemma_plus_associative(start, call@, tally::total(list));
                if tally::fits(tally::plus(start, tally::plus(call@, tally::total(list)))) {
                    tally::lemma_fits(tally::plus(start, call@), tally::total(list));
                }
            }
            return false;
        }
        let ghost called = t@;
        let mut k: usize = 0;
        proof {
            assert(list.take(0) =~= Seq::empty());
            tally::lemma_plus_nothing(called);
        }
        while k < found.len()
            invariant
                k <= found@.len(),
                self.wf(),
                m == self@,
                rule == key.1,
                position == key.0,
                rule < m.right.children.len(),
                position < m.right.children[rule as int].len(),
                strategies::siblings_known(m, rule as int, position as int),
                models == strategies::slots_around(
                    m.right.children[rule as int],
                    position as int,
                    SlotModel::Within(partners::firsts(lefts(events@))),
                    strategies::seen_with(m),
                ),
                forall|j: int|
                    0 <= j < events@.len() ==> data::is_visit(
                        m,
                        Visit { event: #[trigger] events@[j], position: key.0, rule: key.1 },
                    ),
                start == old(t)@,
                found@ == joins::matches(m.left, m.right.symbols[rule as int], models),
                called == tally::plus(start, strategies::call_tally(found@.len())),
                forall|j: int|
                    0 <= j < found@.len() ==> (#[trigger] found@[j]) < m.left.children.len()
                        && joins::is_match(
                        m.left,
                        found@[j] as int,
                        m.right.symbols[rule as int],
                        models,
                    ),
                list == strategies::found_tallies(
                    m,
                    rule as int,
                    position as int,
                    found@,
                    cause_in(events@),
                ),
                t@ == tally::plus(called, tally::total(list.take(k as int))),
            decreases found@.len() - k,
        {
            let i: usize = found[k];
            proof {
                self.lemma_fields();
                assert(joins::is_match(m.left, i as int, m.right.symbols[rule as int], models));
                assert(m.left.children[i as int] == self.left.children@[i as int]@);
                assert(m.right.children[rule as int] == self.right.children@[rule as int]@);
                assert(list.take(k + 1) =~= list.take(k as int).push(list[k as int]));
                tally::lemma_total_push(list.take(k as int), list[k as int]);
                tally::lemma_plus_associative(
                    called,
                    tally::total(list.take(k as int)),
                    list[k as int],
                );
            }
            let child = self.left.children[i][position];
            let one = match find_last(events, child) {
                Some(event) => {
                    proof {
                        let j = choose|j: int| 0 <= j < events@.len() && events@[j] == event;
                        assert(data::is_visit(
                            m,
                            Visit { event: events@[j], position: key.0, rule: key.1 },
                        ));
                    }
                    count_one_candidate(
                        &self.products,
                        event,
                        position,
                        &self.left.children[i],
                        &self.right.children[rule],
                        CountMode::Standard,
                    )
                },
                None => Tally::zero(),
            };
            assert(one@ == list[k as int]);
            if !t.absorb(&one) {
                proof {
                    tally::lemma_overflow(called, list, k + 1);
                    tally::lemma_plus_associative(
                        start,
                        strategies::call_tally(found@.len()),
                        tally::total(list),
                    );
                }
                return false;
            }
            k += 1;
        }
        proof {
            assert(list.take(k as int) =~= list);
            tally::lemma_plus_associative(
                start,
                strategies::call_tally(found@.len()),
                tally::total(list),
            );
        }
        true
    }

    /// Counts visits, those of one place and rule together.
    fn add_groups(&self, visits: &Vec<Visit>, t: &mut Tally) -> (done: bool)
        requires
            self.wf(),
            forall|k: int| 0 <= k < visits@.len() ==> data::is_visit(self@, #[trigger] visits@[k]),
            forall|k: int|
                0 <= k < visits@.len() ==> (#[trigger] visits@[k]).event.left.0 < StateId::STUCK,
        ensures
            strategies::is_added(
                old(t)@,
                tally::total(group_tallies(self@, visits@)),
                final(t)@,
                done,
            ),
    {
        let ghost m = self@;
        let ghost start = t@;
        let ghost list = group_tallies(m, visits@);
        let groups = group(visits);
        let visit_count: usize = visits.len();
        proof {
            assert(list.take(0) =~= Seq::empty());
            tally::lemma_plus_nothing(start);
            lemma_keys(visits@);
        }
        let mut k: usize = 0;
        while k < groups.keys.len()
            invariant
                k <= groups.keys@.len(),
                m == self@,
                self.wf(),
                visit_count == visits@.len(),
                are_groups(groups, visits@),
                forall|k: int| 0 <= k < visits@.len() ==> data::is_visit(m, #[trigger] visits@[k]),
                forall|k: int|
                    0 <= k < visits@.len() ==> (#[trigger] visits@[k]).event.left.0
                        < StateId::STUCK,
                forall|j: int|
                    0 <= j < keys_of(visits@).len() ==> members(
                        visits@,
                        #[trigger] keys_of(visits@)[j],
                    ).len() > 0,
                start == old(t)@,
                list == group_tallies(m, visits@),
                t@ == tally::plus(start, tally::total(list.take(k as int))),
            decreases groups.keys@.len() - k,
        {
            let key = groups.keys[k];
            let word = make_key_word(key);
            let numbers = groups.index.get(word.as_slice());
            proof {
                assert(groups.index.at(key_word(key)) == members(visits@, key));
                lemma_members(visits@, key);
                assert(keys_of(visits@)[k as int] == key);
            }
            let mut events: Vec<Event> = Vec::new();
            let ghost wanted = group_events(visits@, key);
            let mut j: usize = 0;
            assert(wanted.take(0) =~= Seq::empty());
            while j < numbers.len()
                invariant
                    j <= numbers@.len(),
                    numbers@ == members(visits@, key),
                    wanted == group_events(visits@, key),
                    forall|j: int|
                        0 <= j < members(visits@, key).len() ==> {
                            let i = #[trigger] members(visits@, key)[j];
                            i < visits@.len() && key_of(visits@[i as int]) == key
                        },
                    events@ == wanted.take(j as int),
                decreases numbers@.len() - j,
            {
                assert(members(visits@, key)[j as int] == numbers@[j as int]);
                events.push(visits[numbers[j]].event);
                assert(wanted.take(j + 1) =~= wanted.take(j as int).push(wanted[j as int]));
                j += 1;
            }
            proof {
                assert(wanted.take(j as int) =~= wanted);
                assert forall|i: int| 0 <= i < events@.len() implies data::is_visit(
                    m,
                    Visit { event: #[trigger] events@[i], position: key.0, rule: key.1 },
                ) && events@[i].left.0 < StateId::STUCK by {
                    let n = members(visits@, key)[i];
                    assert(key_of(visits@[n as int]) == key);
                    assert(data::is_visit(m, visits@[n as int]));
                }
                assert(events@.len() > 0);
                assert(data::is_visit(
                    m,
                    Visit { event: events@[0], position: key.0, rule: key.1 },
                ));
                assert(list[k as int] == group_tally(m, key, events@));
                assert(list.take(k + 1) =~= list.take(k as int).push(list[k as int]));
                tally::lemma_total_push(list.take(k as int), list[k as int]);
                tally::lemma_plus_associative(
                    start,
                    tally::total(list.take(k as int)),
                    list[k as int],
                );
            }
            if !self.add_group(key, &events, t) {
                proof {
                    tally::lemma_overflow(start, list, k + 1);
                }
                return false;
            }
            k += 1;
        }
        assert(list.take(k as int) =~= list);
        true
    }

    /// Replays events with a strategy. There is no result where the counters cannot hold
    /// the counts.
    pub fn replay(&self, strategy: JoinStrategy, events: &Vec<Event>) -> (r: Option<ReplayStats>)
        requires
            forall|k: int|
                0 <= k < events@.len() ==> (#[trigger] events@[k]).left.0 < StateId::STUCK,
        ensures
            match r {
                Some(stats) => {
                    &&& stats.events == events@.len()
                    &&& stats.right_rules_scanned == data::visits_of(self@, events@).len()
                    &&& stats.tally@ == replay_tally(self@, strategy, events@)
                },
                None => !tally::fits(replay_tally(self@, strategy, events@)),
            },
    {
        proof {
            use_type_invariant(self);
        }
        let visits = self.visits(events);
        let mut t = Tally::zero();
        proof {
            lemma_visit_events(self@, events@);
            tally::lemma_plus_nothing(replay_tally(self@, strategy, events@));
        }
        let done = if strategy == JoinStrategy::Batched {
            self.add_groups(&visits, &mut t)
        } else {
            self.add_visits(strategy, &visits, &mut t)
        };
        if done {
            Some(
                ReplayStats {
                    events: events.len(),
                    right_rules_scanned: visits.len(),
                    tally: t,
                },
            )
        } else {
            None
        }
    }
}

/// What a replay counted.
#[derive(Clone, Copy, PartialEq, Eq, Structural, Debug)]
pub struct ReplayStats {
    pub events: usize,
    pub right_rules_scanned: usize,
    pub tally: Tally,
}

pub(super) proof fn lemma_visits_in(m: ReplayModel, e: Event, places: Seq<usize>)
    ensures
        forall|k: int|
            0 <= k < data::visits_in(m, e, places).len() ==> (#[trigger] data::visits_in(
                m,
                e,
                places,
            )[k]).event == e,
    decreases places.len(),
{
    if places.len() > 0 {
        lemma_visits_in(m, e, places.drop_last());
        let rest = data::visits_in(m, e, places.drop_last());
        assert forall|k: int| 0 <= k < data::visits_in(m, e, places).len() implies (
        #[trigger] data::visits_in(m, e, places)[k]).event == e by {
            if k < rest.len() {
                assert(data::visits_in(m, e, places)[k] == rest[k]);
            }
        }
    }
}

/// The events of visits are among the events.
pub(super) proof fn lemma_visit_events(m: ReplayModel, events: Seq<Event>)
    ensures
        forall|k: int|
            0 <= k < data::visits_of(m, events).len() ==> events.contains(
                (#[trigger] data::visits_of(m, events)[k]).event,
            ),
    decreases events.len(),
{
    if events.len() > 0 {
        let short = events.drop_last();
        lemma_visit_events(m, short);
        let places = super::child_index::places(m.left.children, events.last().left);
        lemma_visits_in(m, events.last(), places);
        let rest = data::visits_of(m, short);
        let own = data::visits_in(m, events.last(), places);
        assert forall|k: int| 0 <= k < data::visits_of(m, events).len() implies events.contains(
            (#[trigger] data::visits_of(m, events)[k]).event,
        ) by {
            if k < rest.len() {
                assert(data::visits_of(m, events)[k] == rest[k]);
                let j = choose|j: int| 0 <= j < short.len() && short[j] == rest[k].event;
                assert(events[j] == rest[k].event);
            } else {
                assert(data::visits_of(m, events)[k] == own[k - rest.len()]);
                assert(events[events.len() - 1] == events.last());
            }
        }
    }
}

} // verus!
