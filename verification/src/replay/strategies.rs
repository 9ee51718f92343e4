//! The join strategies, and what each counts.
use super::candidates;
use super::candidates::{count_one_candidate, CountMode, Event};
use super::data;
use super::data::{ReplayData, ReplayModel, Visit};
use super::joins;
use super::joins::{Slot, SlotModel};
use super::tally;
use super::tally::{Tally, TallyModel};
use crate::ids::StateId;
use crate::text::is_text;
use vstd::prelude::*;

verus! {

/// How joins are made.
#[derive(Clone, Copy, PartialEq, Eq, Structural, Debug)]
pub enum JoinStrategy {
    /// One event at a time, with the states seen with its siblings.
    Singleton,
    /// The same, without looking at products.
    SingletonJoinOnly,
    /// The same, with products looked up by their right state.
    SingletonLocalProduct,
    /// The same, without lists of children.
    SingletonNoAlloc,
    /// All events of one rule and place at once.
    Batched,
    /// One sibling state at a time, for rules with two children.
    ExactBinary,
    /// One event at a time, whatever its siblings.
    ChildNarrow,
    /// One event at a time, symbols first.
    SingletonSymbols,
}

impl JoinStrategy {
    /// The name of a strategy.
    pub open spec fn called(self) -> Seq<char> {
        match self {
            JoinStrategy::Singleton => "singleton"@,
            JoinStrategy::SingletonJoinOnly => "singleton-join-only"@,
            JoinStrategy::SingletonLocalProduct => "singleton-local-product"@,
            JoinStrategy::SingletonNoAlloc => "singleton-no-alloc"@,
            JoinStrategy::Batched => "batched"@,
            JoinStrategy::ExactBinary => "exact-binary"@,
            JoinStrategy::ChildNarrow => "child-narrow"@,
            JoinStrategy::SingletonSymbols => "singleton-symbols"@,
        }
    }

    /// The name of a strategy.
    pub fn name(self) -> (s: &'static str)
        ensures
            s@ == self.called(),
    {
        match self {
            JoinStrategy::Singleton => "singleton",
            JoinStrategy::SingletonJoinOnly => "singleton-join-only",
            JoinStrategy::SingletonLocalProduct => "singleton-local-product",
            JoinStrategy::SingletonNoAlloc => "singleton-no-alloc",
            JoinStrategy::Batched => "batched",
            JoinStrategy::ExactBinary => "exact-binary",
            JoinStrategy::ChildNarrow => "child-narrow",
            JoinStrategy::SingletonSymbols => "singleton-symbols",
        }
    }

    /// The strategy with a name.
    pub fn parse(s: &String) -> (r: Option<Self>)
        ensures
            match r {
                Some(strategy) => strategy.called() == s@,
                None => forall|strategy: JoinStrategy| #[trigger] strategy.called() != s@,
            },
    {
        if is_text(s, "singleton") {
            Some(JoinStrategy::Singleton)
        } else if is_text(s, "singleton-join-only") {
            Some(JoinStrategy::SingletonJoinOnly)
        } else if is_text(s, "singleton-local-product") {
            Some(JoinStrategy::SingletonLocalProduct)
        } else if is_text(s, "singleton-no-alloc") {
            Some(JoinStrategy::SingletonNoAlloc)
        } else if is_text(s, "batched") {
            Some(JoinStrategy::Batched)
        } else if is_text(s, "exact-binary") {
            Some(JoinStrategy::ExactBinary)
        } else if is_text(s, "child-narrow") {
            Some(JoinStrategy::ChildNarrow)
        } else if is_text(s, "singleton-symbols") {
            Some(JoinStrategy::SingletonSymbols)
        } else {
            None
        }
    }
}

/// What is asked of the children of a rule on the left: `own` in one place, and in each
/// other place what `others` says of the child there on the right.
pub open spec fn slots_around(
    children: Seq<StateId>,
    position: int,
    own: SlotModel,
    others: spec_fn(StateId) -> SlotModel,
) -> Seq<SlotModel> {
    Seq::new(
        children.len(),
        |i: int|
            if i == position {
                own
            } else {
                others(children[i])
            },
    )
}

/// A child on the left that was seen with the child on the right.
pub open spec fn seen_with(m: ReplayModel) -> spec_fn(StateId) -> SlotModel {
    |q: StateId| SlotModel::Within(m.partners[q.0 as int])
}

/// Whether every child but one on the right was seen with some state.
pub open spec fn siblings_known(m: ReplayModel, rule: int, position: int) -> bool {
    forall|i: int|
        0 <= i < m.right.children[rule].len() && i != position ==> {
            let q = #[trigger] m.right.children[rule][i];
            q.0 < m.partners.len() && m.partners[q.0 as int].len() > 0
        }
}

/// What asking the index once counts.
pub open spec fn call_tally(found: nat) -> TallyModel {
    TallyModel { calls: 1, matches: found, peak: found, ..tally::nothing() }
}

/// What the rules that were found count, each with the event that it goes back to.
pub open spec fn found_tallies(
    m: ReplayModel,
    rule: int,
    position: int,
    found: Seq<usize>,
    cause: spec_fn(StateId) -> Option<Event>,
) -> Seq<TallyModel> {
    Seq::new(
        found.len(),
        |k: int|
            match cause(m.left.children[found[k] as int][position]) {
                Some(e) => candidates::candidate_tally(
                    m.pairs,
                    e,
                    position,
                    m.left.children[found[k] as int],
                    m.right.children[rule],
                ),
                None => tally::nothing(),
            },
    )
}

/// What one join counts, with or without the edges that it makes.
pub open spec fn join_tally(
    m: ReplayModel,
    rule: int,
    position: int,
    slots: Seq<SlotModel>,
    cause: spec_fn(StateId) -> Option<Event>,
    counted: bool,
) -> TallyModel {
    let found = joins::matches(m.left, m.right.symbols[rule], slots);
    if counted {
        tally::plus(
            call_tally(found.len()),
            tally::total(found_tallies(m, rule, position, found, cause)),
        )
    } else {
        call_tally(found.len())
    }
}

/// The one event of a visit.
pub open spec fn always(e: Event) -> spec_fn(StateId) -> Option<Event> {
    |q: StateId| Some(e)
}

/// What a visit counts when the siblings are joined with the states they were seen with.
pub open spec fn singleton_tally(m: ReplayModel, v: Visit, counted: bool) -> TallyModel {
    let children = m.right.children[v.rule as int];
    if siblings_known(m, v.rule as int, v.position as int) {
        join_tally(
            m,
            v.rule as int,
            v.position as int,
            slots_around(
                children,
                v.position as int,
                SlotModel::Exactly(v.event.left),
                seen_with(m),
            ),
            always(v.event),
            counted,
        )
    } else {
        tally::nothing()
    }
}

/// What a visit counts when nothing is asked of the siblings.
pub open spec fn narrow_tally(m: ReplayModel, v: Visit) -> TallyModel {
    join_tally(
        m,
        v.rule as int,
        v.position as int,
        slots_around(
            m.right.children[v.rule as int],
            v.position as int,
            SlotModel::Exactly(v.event.left),
            |q: StateId| SlotModel::Free,
        ),
        always(v.event),
        true,
    )
}

/// The other of two places.
pub open spec fn other_place(p: int) -> int {
    1 - p
}

/// What a visit counts when each state that the one sibling was seen with is asked for
/// alone.
pub open spec fn binary_tally(m: ReplayModel, v: Visit) -> TallyModel {
    let children = m.right.children[v.rule as int];
    if children.len() == 2 && children[other_place(v.position as int)].0 < m.partners.len() {
        let states = m.partners[children[other_place(v.position as int)].0 as int];
        tally::total(
            Seq::new(states.len(), |k: int| exact_tally(m, v, states[k])),
        )
    } else {
        tally::nothing()
    }
}

/// What a visit counts when one sibling state is asked for.
pub open spec fn exact_tally(m: ReplayModel, v: Visit, s: StateId) -> TallyModel {
    join_tally(
        m,
        v.rule as int,
        v.position as int,
        slots_around(
            m.right.children[v.rule as int],
            v.position as int,
            SlotModel::Exactly(v.event.left),
            |q: StateId| SlotModel::Exactly(s),
        ),
        always(v.event),
        true,
    )
}

/// What a visit counts under a strategy that takes events one at a time.
pub open spec fn visit_tally(m: ReplayModel, strategy: JoinStrategy, v: Visit) -> TallyModel {
    match strategy {
        JoinStrategy::SingletonJoinOnly => singleton_tally(m, v, false),
        JoinStrategy::ExactBinary => binary_tally(m, v),
        JoinStrategy::ChildNarrow => narrow_tally(m, v),
        _ => singleton_tally(m, v, true),
    }
}

/// What visits count, each for itself.
pub open spec fn visit_tallies(
    m: ReplayModel,
    strategy: JoinStrategy,
    visits: Seq<Visit>,
) -> Seq<TallyModel> {
    Seq::new(visits.len(), |k: int| visit_tally(m, strategy, visits[k]))
}

/// Whether a count was added to a start, or did not fit.
pub open spec fn is_added(before: TallyModel, t: TallyModel, after: TallyModel, done: bool) -> bool {
    if done {
        after == tally::plus(before, t)
    } else {
        !tally::fits(tally::plus(before, t))
    }
}

impl ReplayData {
    /// Joins the rules on the left with one rule on the right, and counts.
    fn add_join(
        &self,
        rule: usize,
        position: usize,
        slots: &Vec<Slot<'_>>,
        event: Event,
        mode: Option<CountMode>,
        t: &mut Tally,
    ) -> (done: bool)
        requires
            self.wf(),
            rule < self@.right.children.len(),
            position < self@.right.children[rule as int].len(),
            self@.right.children[rule as int][position as int] == event.right,
            slots@.len() == self@.right.children[rule as int].len(),
            slots@[position as int]@ == SlotModel::Exactly(event.left),
        ensures
            is_added(
                old(t)@,
                join_tally(
                    self@,
                    rule as int,
                    position as int,
                    joins::slot_models(slots@),
                    always(event),
                    mode is Some,
                ),
                final(t)@,
                done,
            ),
    {
        let ghost m = self@;
        let ghost start = t@;
        let ghost models = joins::slot_models(slots@);
        let left_count: usize = self.left.children.len();
        proof {
            self.lemma_fields();
            assert(m.left.children.len() == left_count);
        }
        let found = self.left.join(&self.left_index, &self.right.symbols[rule], slots);
        let ghost list = found_tallies(m, rule as int, position as int, found@, always(event));
        proof {
            assert(m.right.symbols[rule as int] == self.right.symbols@[rule as int]@);
            joins::lemma_matches(
                m.left,
                m.right.symbols[rule as int],
                models,
                m.left.children.len(),
            );
        }
        let size: usize = found.len();
        let call = Tally {
            calls: 1,
            matches: size,
            lookups: 0,
            candidates: 0,
            rejected: 0,
            peak: size,
        };
        assert(call@ == call_tally(found@.len()));
        if !t.absorb(&call) {
            proof {
                tally::lemma_plus_associative(start, call@, tally::total(list));
                if tally::fits(tally::plus(start, tally::plus(call@, tally::total(list)))) {
                    tally::lemma_fits(tally::plus(start, call@), tally::total(list));
                }
            }
            return false;
        }
        let ghost called = t@;
        match mode {
            None => {},
            Some(how) => {
                let mut k: usize = 0;
                proof {
                    assert(list.take(0) =~= Seq::empty());
                    tally::lemma_plus_nothing(called);
                }
                while k < found.len()
                    invariant
                        k <= found@.len(),
                        self.wf(),
                        m == self@,
                        models == joins::slot_models(slots@),
                        rule < m.right.children.len(),
                        position < m.right.children[rule as int].len(),
                        m.right.children[rule as int][position as int] == event.right,
                        slots@.len() == m.right.children[rule as int].len(),
                        slots@[position as int]@ == SlotModel::Exactly(event.left),
                        start == old(t)@,
                        mode is Some,
                        found@ == joins::matches(m.left, m.right.symbols[rule as int], models),
                        called == tally::plus(start, call_tally(found@.len())),
                        forall|j: int|
                            0 <= j < found@.len() ==> (#[trigger] found@[j])
                                < m.left.children.len() && joins::is_match(
                                m.left,
                                found@[j] as int,
                                m.right.symbols[rule as int],
                                models,
                            ),
                        list == found_tallies(
                            m,
                            rule as int,
                            position as int,
                            found@,
                            always(event),
                        ),
                        t@ == tally::plus(called, tally::total(list.take(k as int))),
                    decreases found@.len() - k,
                {
                    let i: usize = found[k];
                    proof {
                        self.lemma_fields();
                        assert(joins::is_match(
                            m.left,
                            i as int,
                            m.right.symbols[rule as int],
                            models,
                        ));
                        assert(m.left.children[i as int] == self.left.children@[i as int]@);
                        assert(m.right.children[rule as int]
                            == self.right.children@[rule as int]@);
                        assert(models[position as int] == SlotModel::Exactly(event.left));
                        assert(models[position as int].admits(
                            m.left.children[i as int][position as int],
                        ));
                    }
                    let one = count_one_candidate(
                        &self.products,
                        event,
                        position,
                        &self.left.children[i],
                        &self.right.children[rule],
                        how,
                    );
                    proof {
                        assert(one@ == list[k as int]);
                        assert(list.take(k + 1) =~= list.take(k as int).push(list[k as int]));
                        tally::lemma_total_push(list.take(k as int), list[k as int]);
                        tally::lemma_plus_associative(
                            called,
                            tally::total(list.take(k as int)),
                            list[k as int],
                        );
                    }
                    if !t.absorb(&one) {
                        proof {
                            tally::lemma_overflow(called, list, k + 1);
                            tally::lemma_plus_associative(
                                start,
                                call_tally(found@.len()),
                                tally::total(list),
                            );
                        }
                        return false;
                    }
                    k += 1;
                }
                proof {
                    assert(list.take(k as int) =~= list);
                    tally::lemma_plus_associative(
                        start,
                        call_tally(found@.len()),
                        tally::total(list),
                    );
                }
            },
        }
        true
    }

    /// The slots of a join with what the siblings were seen with, or nothing where one was
    /// seen with no state.
    pub(super) fn sibling_slots<'d>(&'d self, rule: usize, position: usize, own: Slot<'d>) -> (r: Option<
        Vec<Slot<'d>>,
    >)
        requires
            self.wf(),
            rule < self@.right.children.len(),
        ensures
            match r {
                Some(slots) => siblings_known(self@, rule as int, position as int)
                    && joins::slot_models(slots@) == slots_around(
                    self@.right.children[rule as int],
                    position as int,
                    own@,
                    seen_with(self@),
                ),
                None => !siblings_known(self@, rule as int, position as int),
            },
    {
        let ghost m = self@;
        let ghost wanted = slots_around(
            m.right.children[rule as int],
            position as int,
            own@,
            seen_with(m),
        );
        proof {
            self.lemma_fields();
        }
        let children = &self.right.children[rule];
        assert(m.right.children[rule as int] == children@);
        let mut own_slot = Some(own);
        let mut slots: Vec<Slot<'d>> = Vec::new();
        let mut i: usize = 0;
        while i < children.len()
            invariant
                i <= children@.len(),
                m == self@,
                self.wf(),
                rule < m.right.children.len(),
                children@ == m.right.children[rule as int],
                wanted == slots_around(children@, position as int, own@, seen_with(m)),
                i <= position ==> own_slot == Some(own),
                slots@.len() == i,
                forall|k: int| 0 <= k < i ==> (#[trigger] slots@[k])@ == wanted[k],
                forall|k: int|
                    0 <= k < i && k != position ==> {
                        let q = #[trigger] m.right.children[rule as int][k];
                        q.0 < m.partners.len() && m.partners[q.0 as int].len() > 0
                    },
            decreases children@.len() - i,
        {
            if i == position {
                let mut taken: Option<Slot<'d>> = None;
                std::mem::swap(&mut taken, &mut own_slot);
                match taken {
                    Some(slot) => {
                        slots.push(slot);
                    },
                    None => {
                        slots.push(Slot::Free);
                    },
                }
            } else {
                proof {
                    self.lemma_fields();
                }
                let q: usize = children[i].index();
                if q >= self.partners.len() {
                    assert(m.right.children[rule as int][i as int].0 >= m.partners.len());
                    return None;
                }
                assert(m.partners[q as int] == self.partners@[q as int]@);
                if self.partners[q].is_empty() {
                    assert(m.partners[m.right.children[rule as int][i as int].0 as int].len() == 0);
                    return None;
                }
                slots.push(Slot::Within(&self.partners[q]));
            }
            i += 1;
        }
        assert(joins::slot_models(slots@) =~= wanted);
        Some(slots)
    }
}

/// The slots of a join in which one thing is asked of all siblings.
fn even_slots(count: usize, position: usize, own: StateId, sibling: Option<StateId>) -> (r: Vec<
    Slot<'static>,
>)
    ensures
        r@.len() == count,
        forall|i: int|
            0 <= i < count ==> (#[trigger] r@[i])@ == (if i == position {
                SlotModel::Exactly(own)
            } else {
                match sibling {
                    Some(s) => SlotModel::Exactly(s),
                    None => SlotModel::Free,
                }
            }),
{
    let mut r: Vec<Slot<'static>> = Vec::new();
    let mut i: usize = 0;
    while i < count
        invariant
            i <= count,
            r@.len() == i,
            forall|k: int|
                0 <= k < i ==> (#[trigger] r@[k])@ == (if k == position {
                    SlotModel::Exactly(own)
                } else {
                    match sibling {
                        Some(s) => SlotModel::Exactly(s),
                        None => SlotModel::Free,
                    }
                }),
        decreases count - i,
    {
        if i == position {
            r.push(Slot::Exactly(own));
        } else {
            match sibling {
                Some(s) => {
                    r.push(Slot::Exactly(s));
                },
                None => {
                    r.push(Slot::Free);
                },
            }
        }
        i += 1;
    }
    r
}

impl ReplayData {
    /// Counts a visit for itself.
    fn add_visit(&self, strategy: JoinStrategy, v: Visit, t: &mut Tally) -> (done: bool)
        requires
            self.wf(),
            data::is_visit(self@, v),
        ensures
            is_added(old(t)@, visit_tally(self@, strategy, v), final(t)@, done),
    {
        let ghost m = self@;
        proof {
            self.lemma_fields();
            tally::lemma_plus_nothing(t@);
        }
        match strategy {
            JoinStrategy::ExactBinary => self.add_binary(v, t),
            JoinStrategy::ChildNarrow => {
                let count: usize = self.right.children[v.rule].len();
                let slots = even_slots(count, v.position, v.event.left, None);
                proof {
                    assert(joins::slot_models(slots@) =~= slots_around(
                        m.right.children[v.rule as int],
                        v.position as int,
                        SlotModel::Exactly(v.event.left),
                        |q: StateId| SlotModel::Free,
                    ));
                }
                self.add_join(v.rule, v.position, &slots, v.event, Some(CountMode::Standard), t)
            },
            _ => {
                let mode = match strategy {
                    JoinStrategy::SingletonJoinOnly => None,
                    JoinStrategy::SingletonLocalProduct => Some(CountMode::RightLocal),
                    JoinStrategy::SingletonNoAlloc => Some(CountMode::NoAlloc),
                    _ => Some(CountMode::Standard),
                };
                match self.sibling_slots(v.rule, v.position, Slot::Exactly(v.event.left)) {
                    Some(slots) => {
                        proof {
                            let models = joins::slot_models(slots@);
                            assert(models.len() == slots@.len());
                            assert(models[v.position as int] == slots@[v.position as int]@);
                        }
                        self.add_join(v.rule, v.position, &slots, v.event, mode, t)
                    },
                    None => true,
                }
            },
        }
    }

    /// Counts a visit, asking for each state that the one sibling was seen with.
    fn add_binary(&self, v: Visit, t: &mut Tally) -> (done: bool)
        requires
            self.wf(),
            data::is_visit(self@, v),
        ensures
            is_added(old(t)@, binary_tally(self@, v), final(t)@, done),
    {
        let ghost m = self@;
        let ghost start = t@;
        proof {
            self.lemma_fields();
            tally::lemma_plus_nothing(t@);
        }
        let children = &self.right.children[v.rule];
        assert(m.right.children[v.rule as int] == children@);
        if children.len() != 2 {
            return true;
        }
        let other: usize = 1 - v.position;
        let sibling: usize = children[other].index();
        if sibling >= self.partners.len() {
            return true;
        }
        let states = self.partners[sibling].states();
        let ghost list = Seq::new(states@.len(), |k: int| exact_tally(m, v, states@[k]));
        proof {
            assert(m.partners[sibling as int] == states@);
            assert(binary_tally(m, v) == tally::total(list));
            assert(list.take(0) =~= Seq::empty());
        }
        let mut k: usize = 0;
        while k < states.len()
            invariant
                k <= states@.len(),
                m == self@,
                self.wf(),
                data::is_visit(m, v),
                children@ == m.right.children[v.rule as int],
                children@.len() == 2,
                start == old(t)@,
                list == Seq::new(states@.len(), |k: int| exact_tally(m, v, states@[k])),
                binary_tally(m, v) == tally::total(list),
                t@ == tally::plus(start, tally::total(list.take(k as int))),
            decreases states@.len() - k,
        {
            let slots = even_slots(2, v.position, v.event.left, Some(states[k]));
            let ghost s = states@[k as int];
            proof {
                assert(joins::slot_models(slots@) =~= slots_around(
                    m.right.children[v.rule as int],
                    v.position as int,
                    SlotModel::Exactly(v.event.left),
                    |q: StateId| SlotModel::Exactly(s),
                ));
                assert(list[k as int] == exact_tally(m, v, s));
                assert(list.take(k + 1) =~= list.take(k as int).push(list[k as int]));
                tally::lemma_total_push(list.take(k as int), list[k as int]);
                tally::lemma_plus_associative(
                    start,
                    tally::total(list.take(k as int)),
                    list[k as int],
                );
            }
            if !self.add_join(
                v.rule,
                v.position,
                &slots,
                v.event,
                Some(CountMode::Standard),
                t,
            ) {
                proof {
                    tally::lemma_overflow(start, list, k + 1);
                }
                return false;
            }
            k += 1;
        }
        assert(list.take(k as int) =~= list);
        true
    }

    /// Counts visits, each for itself.
    pub(super) fn add_visits(&self, strategy: JoinStrategy, visits: &Vec<Visit>, t: &mut Tally) -> (done: bool)
        requires
            self.wf(),
            forall|k: int| 0 <= k < visits@.len() ==> data::is_visit(self@, #[trigger] visits@[k]),
        ensures
            is_added(
                old(t)@,
                tally::total(visit_tallies(self@, strategy, visits@)),
                final(t)@,
                done,
            ),
    {
        let ghost m = self@;
        let ghost start = t@;
        let ghost list = visit_tallies(m, strategy, visits@);
        proof {
            assert(list.take(0) =~= Seq::empty());
            tally::lemma_plus_nothing(start);
        }
        let mut k: usize = 0;
        while k < visits.len()
            invariant
                k <= visits@.len(),
                m == self@,
                self.wf(),
                forall|k: int| 0 <= k < visits@.len() ==> data::is_visit(m, #[trigger] visits@[k]),
                start == old(t)@,
                list == visit_tallies(m, strategy, visits@),
                t@ == tally::plus(start, tally::total(list.take(k as int))),
            decreases visits@.len() - k,
        {
            proof {
                assert(list[k as int] == visit_tally(m, strategy, visits@[k as int]));
                assert(list.take(k + 1) =~= list.take(k as int).push(list[k as int]));
                tally::lemma_total_push(list.take(k as int), list[k as int]);
                tally::lemma_plus_associative(
                    start,
                    tally::total(list.take(k as int)),
                    list[k as int],
                );
            }
            if !self.add_visit(strategy, visits[k], t) {
                proof {
                    tally::lemma_overflow(start, list, k + 1);
                }
                return false;
            }
            k += 1;
        }
        assert(list.take(k as int) =~= list);
        true
    }
}

} // verus!
