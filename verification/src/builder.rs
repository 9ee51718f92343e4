//! Building explicit automata, with or without trimming.
use crate::automaton;
use crate::automaton::{Automaton, RuleModel};
use crate::explicit;
use crate::explicit::{Explicit, StoredRule};
use crate::ids::{StateId, Symbol};
use crate::key_index;
use crate::key_index::copy_states;
use crate::language_analysis;
use crate::language_analysis::{
    analyze_for_trimming, analyze_productive_for_trimming, RuleInput, TrimmingAnalysis,
};
use crate::tables;
use crate::tables::{KeyTable, StateTuple};
use crate::weight::Weight;
use fixedbitset::FixedBitSet;
use vstd::prelude::*;

verus! {

/// Why an explicit automaton cannot be built.
#[derive(Debug)]
pub enum ExplicitBuildError {
    /// The same transition was added more than once.
    DuplicateTransition {
        /// Symbol on the duplicated transition.
        symbol: Symbol,
        /// Child states of the duplicated transition.
        children: Vec<StateId>,
        /// Result of the duplicated transition.
        result: StateId,
    },
}

/// Whether an error names the transition of `rule`.
pub open spec fn names_rule(e: ExplicitBuildError, rule: RuleModel) -> bool {
    match e {
        ExplicitBuildError::DuplicateTransition { symbol, children, result } => symbol
            == rule.symbol && children@ == rule.children && result == rule.result,
    }
}

/// Whether an error names the first rule that repeats an earlier transition.
pub open spec fn names_first_repeat(e: ExplicitBuildError, rules: Seq<RuleModel>) -> bool {
    exists|i: int| #[trigger] automaton::first_repeat(rules, i) && names_rule(e, rules[i])
}

/// Builder for explicit automata: allocate states, add rules, mark accepting
/// states, then build.
#[derive(Debug)]
pub struct ExplicitBuilder {
    next_state: u32,
    accepting: Vec<StateId>,
    rules: Vec<StoredRule>,
}

impl View for ExplicitBuilder {
    type V = Automaton;

    closed spec fn view(&self) -> Automaton {
        Automaton {
            states: self.next_state as nat,
            accepting: language_analysis::listed(self.accepting@),
            rules: explicit::rule_models(self.rules@),
        }
    }
}

/// Whether the states increase strictly.
pub open spec fn states_increase(s: Seq<StateId>) -> bool {
    forall|i: int, j: int| 0 <= i < j < s.len() ==> (#[trigger] s[i]).0 < (#[trigger] s[j]).0
}

/// Bidirectional state mapping of a trimmed automaton. New states are numbered in
/// increasing order of the old ones.
#[derive(Debug)]
pub struct StateMapping {
    old_to_new: Vec<Option<StateId>>,
    new_to_old: Vec<StateId>,
}

impl View for StateMapping {
    type V = Seq<StateId>;

    /// The retained old states, in the order of their new numbers.
    closed spec fn view(&self) -> Seq<StateId> {
        self.new_to_old@
    }
}

impl StateMapping {
    #[verifier::type_invariant]
    spec fn inv(&self) -> bool {
        mapping_ok(self.old_to_new@, self.new_to_old@, self.old_to_new@.len() as int)
            && states_increase(self.new_to_old@)
    }

    /// The new number of an old state, or `None` if the state was removed.
    pub fn new_state(&self, old: StateId) -> (r: Option<StateId>)
        ensures
            r matches Some(new) ==> new.0 < self@.len() && self@[new.0 as int] == old,
            r is None ==> !self@.contains(old),
    {
        proof {
            use_type_invariant(self);
        }
        if old.index() < self.old_to_new.len() {
            self.old_to_new[old.index()]
        } else {
            None
        }
    }

    /// The old state with the given new number.
    pub fn old_state(&self, new: StateId) -> (old: StateId)
        requires
            new.0 < self@.len(),
        ensures
            old == self@[new.0 as int],
    {
        self.new_to_old[new.index()]
    }

    /// The number of retained states.
    pub fn len(&self) -> (n: usize)
        ensures
            n == self@.len(),
    {
        self.new_to_old.len()
    }

    /// Whether no state was retained.
    pub fn is_empty(&self) -> (b: bool)
        ensures
            b == (self@.len() == 0),
    {
        self.new_to_old.len() == 0
    }
}

/// Whether the two tables are inverse to each other on the first `n` old states.
pub open spec fn mapping_ok(
    old_to_new: Seq<Option<StateId>>,
    new_to_old: Seq<StateId>,
    n: int,
) -> bool {
    &&& forall|k: int|
        0 <= k < new_to_old.len() ==> (#[trigger] new_to_old[k]).0 < n && old_to_new[new_to_old[k].0 as int]
            == Some(StateId(k as u32))
    &&& forall|o: int|
        0 <= o < n ==> match #[trigger] old_to_new[o] {
            Some(new) => new.0 < new_to_old.len() && new_to_old[new.0 as int].0 == o,
            None => true,
        }
    &&& new_to_old.len() <= n <= u32::MAX
}

/// An explicit automaton produced by trimming, with its state mapping.
#[derive(Debug)]
pub struct TrimmedExplicit {
    /// The automaton with only the states and rules that occur in accepting
    /// derivations.
    pub automaton: Explicit,
    /// Mapping between builder states and states of the automaton.
    pub state_mapping: StateMapping,
}

/// The new number of a retained state.
pub open spec fn compact(kept: Seq<StateId>, q: StateId) -> StateId {
    StateId(kept.index_of(q) as u32)
}

/// A rule with its states renumbered.
pub open spec fn compact_rule(kept: Seq<StateId>, rule: RuleModel) -> RuleModel {
    RuleModel {
        symbol: rule.symbol,
        children: Seq::new(rule.children.len(), |p: int| compact(kept, rule.children[p])),
        result: compact(kept, rule.result),
        weight: rule.weight,
    }
}

/// The marked rules, in order, with their states renumbered.
pub open spec fn compact_rules(
    kept: Seq<StateId>,
    rules: Seq<RuleModel>,
    marked: Seq<bool>,
) -> Seq<RuleModel>
    decreases rules.len(),
{
    if rules.len() == 0 {
        Seq::empty()
    } else {
        let earlier = compact_rules(kept, rules.drop_last(), marked);
        if marked[rules.len() - 1] {
            earlier.push(compact_rule(kept, rules.last()))
        } else {
            earlier
        }
    }
}

/// The automaton that keeps the listed states and the marked rules.
pub open spec fn compacted(a: Automaton, kept: Seq<StateId>, marked: Seq<bool>) -> Automaton {
    Automaton {
        states: kept.len(),
        accepting: Set::new(
            |q: StateId| q.0 < kept.len() && a.accepting.contains(kept[q.0 as int]),
        ),
        rules: compact_rules(kept, a.rules, marked),
    }
}

/// The rules that trimming may use: all of them when every state is taken to be
/// productive.
pub open spec fn usable_rules(a: Automaton, assume_productive: bool) -> Seq<bool> {
    let shapes = automaton::rule_shapes(a.rules);
    if assume_productive {
        language_analysis::every_rule(shapes)
    } else {
        language_analysis::productive_mask(shapes)
    }
}

/// Whether trimming keeps state `q`.
pub open spec fn is_kept(a: Automaton, assume_productive: bool, q: StateId) -> bool {
    let shapes = automaton::rule_shapes(a.rules);
    if assume_productive {
        language_analysis::is_below(
            shapes,
            a.accepting,
            language_analysis::every_rule(shapes),
            q,
        )
    } else {
        a.relevant(q)
    }
}

/// For every rule, whether trimming keeps it.
pub open spec fn kept_rules(a: Automaton, assume_productive: bool) -> Seq<bool> {
    Seq::new(
        a.rules.len(),
        |i: int|
            usable_rules(a, assume_productive)[i] && is_kept(
                a,
                assume_productive,
                a.rules[i].result,
            ),
    )
}

/// Whether `kept` lists the states that trimming keeps, in increasing order.
pub open spec fn lists_kept(a: Automaton, assume_productive: bool, kept: Seq<StateId>) -> bool {
    &&& states_increase(kept)
    &&& forall|q: StateId| #[trigger] kept.contains(q) <==> is_kept(a, assume_productive, q)
}

/// The trimmed automaton.
pub open spec fn trimmed(a: Automaton, assume_productive: bool, kept: Seq<StateId>) -> Automaton {
    compacted(a, kept, kept_rules(a, assume_productive))
}

/// Whether the rules that survive trimming can be numbered. Where two of them are the same
/// transition no automaton is built, so that they need not be.
pub open spec fn survivors_fit(a: Automaton, assume_productive: bool) -> bool {
    forall|kept: Seq<StateId>| #[trigger]
        lists_kept(a, assume_productive, kept) ==> trimmed(a, assume_productive, kept).rules.len()
            <= u32::MAX || !automaton::unique_transitions(
            trimmed(a, assume_productive, kept).rules,
        )
}

/// What trimming owes: the trimmed automaton and its mapping, or an error for the
/// first surviving rule that repeats a surviving transition.
pub open spec fn trim_result(
    a: Automaton,
    assume_productive: bool,
    r: Result<TrimmedExplicit, ExplicitBuildError>,
) -> bool {
    match r {
        Ok(t) => {
            &&& lists_kept(a, assume_productive, t.state_mapping@)
            &&& t.automaton@ == trimmed(a, assume_productive, t.state_mapping@)
            &&& automaton::unique_transitions(t.automaton@.rules)
        },
        Err(e) => exists|kept: Seq<StateId>|
            {
                &&& #[trigger] lists_kept(a, assume_productive, kept)
                &&& names_first_repeat(e, trimmed(a, assume_productive, kept).rules)
            },
    }
}

/// The first rule that repeats an earlier transition.
fn find_repeat(rules: &Vec<StoredRule>) -> (r: Option<usize>)
    ensures
        match r {
            Some(i) => automaton::first_repeat(explicit::rule_models(rules@), i as int),
            None => automaton::unique_transitions(explicit::rule_models(rules@)),
        },
{
    let ghost all = explicit::rule_models(rules@);
    let mut seen = KeyTable::new();
    let mut i: usize = 0;
    while i < rules.len()
        invariant
            i <= rules@.len(),
            all == explicit::rule_models(rules@),
            forall|k: Seq<u32>| #[trigger]
                seen@.dom().contains(k) ==> exists|j: int|
                    0 <= j < i && k == #[trigger] rule_key(all[j]),
            forall|j: int| 0 <= j < i ==> seen@.dom().contains(#[trigger] rule_key(all[j])),
            forall|j: int| 0 <= j < i ==> !#[trigger] automaton::repeats(all, j),
        decreases rules@.len() - i,
    {
        let rule = &rules[i];
        let key = key_index::make_transition_key(
            rule.symbol,
            rule.children.as_slice(),
            rule.result,
        );
        let ghost word = key@;
        assert(word == rule_key(all[i as int]));
        if seen.get(key.as_slice()).is_some() {
            proof {
                assert(seen@.dom().contains(word));
                let j = choose|j: int| 0 <= j < i && word == #[trigger] rule_key(all[j]);
                key_index::lemma_transition_key_injective(
                    all[j].symbol,
                    all[j].children,
                    all[j].result,
                    all[i as int].symbol,
                    all[i as int].children,
                    all[i as int].result,
                );
                assert(automaton::same_transition(all[j], all[i as int]));
            }
            return Some(i);
        }
        proof {
            if automaton::repeats(all, i as int) {
                let j = choose|j: int|
                    0 <= j < i && automaton::same_transition(#[trigger] all[j], all[i as int]);
                assert(rule_key(all[j]) == word);
            }
        }
        let ghost before = seen@;
        seen.insert(key, i);
        proof {
            assert forall|k: Seq<u32>| #[trigger] seen@.dom().contains(k) implies exists|j: int|
                0 <= j < i + 1 && k == #[trigger] rule_key(all[j]) by {
                if k == word {
                    assert(k == rule_key(all[i as int]));
                } else {
                    assert(before.dom().contains(k));
                    let j = choose|j: int| 0 <= j < i && k == #[trigger] rule_key(all[j]);
                    assert(k == rule_key(all[j]));
                }
            }
        }
        i += 1;
    }
    None
}

/// The key of a rule's transition.
spec fn rule_key(rule: RuleModel) -> Seq<u32> {
    key_index::transition_key(rule.symbol, rule.children, rule.result)
}

/// The error for a rule.
fn duplicate_error(rule: &StoredRule) -> (e: ExplicitBuildError)
    ensures
        names_rule(e, rule@),
{
    ExplicitBuildError::DuplicateTransition {
        symbol: rule.symbol,
        children: copy_states(rule.children.as_slice()),
        result: rule.result,
    }
}

impl ExplicitBuilder {
    #[verifier::type_invariant]
    spec fn inv(&self) -> bool {
        self@.well_formed()
    }

    /// A builder without states and rules.
    pub fn new() -> (b: Self)
        ensures
            b@.states == 0,
            b@.accepting == Set::<StateId>::empty(),
            b@.rules == Seq::<RuleModel>::empty(),
    {
        let b = ExplicitBuilder { next_state: 0, accepting: Vec::new(), rules: Vec::new() };
        assert(b@.accepting =~= Set::<StateId>::empty());
        assert(b@.rules =~= Seq::<RuleModel>::empty());
        b
    }

    /// The number of states allocated so far.
    pub fn num_states(&self) -> (n: u32)
        ensures
            n == self@.states,
    {
        self.next_state
    }

    /// The number of rules added so far.
    pub fn num_rules(&self) -> (n: usize)
        ensures
            n == self@.rules.len(),
    {
        self.rules.len()
    }

    /// Allocates a fresh state. States are numbered from zero on; the stuck state is
    /// never allocated.
    pub fn new_state(&mut self) -> (q: StateId)
        requires
            old(self)@.states < StateId::STUCK,
        ensures
            q.0 == old(self)@.states,
            final(self)@ == (Automaton { states: old(self)@.states + 1, ..old(self)@ }),
    {
        proof {
            use_type_invariant(&*self);
        }
        let q = StateId(self.next_state);
        assert(forall|i: int|
            0 <= i < self@.rules.len() ==> language_analysis::shape_below(
                #[trigger] automaton::rule_shapes(self@.rules)[i],
                self@.states,
            ));
        self.next_state = self.next_state + 1;
        q
    }

    /// Marks a state as accepting.
    pub fn add_accepting(&mut self, q: StateId)
        requires
            q.0 < old(self)@.states,
        ensures
            final(self)@ == (Automaton {
                accepting: old(self)@.accepting.insert(q),
                ..old(self)@
            }),
    {
        proof {
            use_type_invariant(&*self);
        }
        let ghost before = self.accepting@;
        let mut accepting: Vec<StateId> = Vec::new();
        std::mem::swap(&mut accepting, &mut self.accepting);
        accepting.push(q);
        proof {
            assert forall|p: StateId| language_analysis::listed(accepting@).contains(p)
                <==> language_analysis::listed(before).insert(q).contains(p) by {
                crate::symbol_set::lemma_push_contains(before, q, p);
            }
            assert(language_analysis::listed(accepting@) =~= language_analysis::listed(
                before,
            ).insert(q));
        }
        self.accepting = accepting;
    }

    /// Adds a transition rule of weight one.
    pub fn add_rule(&mut self, f: Symbol, children: Vec<StateId>, q: StateId)
        requires
            q.0 < old(self)@.states,
            forall|i: int|
                0 <= i < children@.len() ==> (#[trigger] children@[i]).0 < old(self)@.states,
        ensures
            final(self)@ == (Automaton {
                rules: old(self)@.rules.push(
                    RuleModel {
                        symbol: f,
                        children: children@,
                        result: q,
                        weight: (Weight { bits: crate::weight::ONE_BITS }),
                    },
                ),
                ..old(self)@
            }),
    {
        self.add_weighted_rule(f, children, q, Weight::one());
    }

    /// Adds a transition rule of weight one from a slice of child states.
    pub fn add_rule_from_iter(&mut self, f: Symbol, children: &[StateId], q: StateId)
        requires
            q.0 < old(self)@.states,
            forall|i: int|
                0 <= i < children@.len() ==> (#[trigger] children@[i]).0 < old(self)@.states,
        ensures
            final(self)@ == (Automaton {
                rules: old(self)@.rules.push(
                    RuleModel {
                        symbol: f,
                        children: children@,
                        result: q,
                        weight: (Weight { bits: crate::weight::ONE_BITS }),
                    },
                ),
                ..old(self)@
            }),
    {
        self.add_weighted_rule(f, copy_states(children), q, Weight::one());
    }

    /// Adds a weighted transition rule.
    pub fn add_weighted_rule(
        &mut self,
        f: Symbol,
        children: Vec<StateId>,
        q: StateId,
        weight: Weight,
    )
        requires
            q.0 < old(self)@.states,
            forall|i: int|
                0 <= i < children@.len() ==> (#[trigger] children@[i]).0 < old(self)@.states,
        ensures
            final(self)@ == (Automaton {
                rules: old(self)@.rules.push(
                    RuleModel { symbol: f, children: children@, result: q, weight },
                ),
                ..old(self)@
            }),
    {
        self.add_weighted_rule_inline(f, StateTuple::from_vec(children), q, weight);
    }

    /// Adds a weighted transition rule from an inline tuple.
    pub fn add_weighted_rule_inline(
        &mut self,
        f: Symbol,
        children: StateTuple,
        q: StateId,
        weight: Weight,
    )
        requires
            q.0 < old(self)@.states,
            forall|i: int|
                0 <= i < children@.len() ==> (#[trigger] children@[i]).0 < old(self)@.states,
        ensures
            final(self)@ == (Automaton {
                rules: old(self)@.rules.push(
                    RuleModel { symbol: f, children: children@, result: q, weight },
                ),
                ..old(self)@
            }),
    {
        proof {
            use_type_invariant(&*self);
        }
        let ghost before = self.rules@;
        let ghost states = self@.states;
        let mut rules: Vec<StoredRule> = Vec::new();
        std::mem::swap(&mut rules, &mut self.rules);
        let rule = StoredRule { symbol: f, children, result: q, weight };
        let ghost model = rule@;
        rules.push(rule);
        proof {
            let all = explicit::rule_models(rules@);
            assert(all =~= explicit::rule_models(before).push(model));
            assert forall|i: int|
                0 <= i < automaton::rule_shapes(all).len() implies language_analysis::shape_below(
                #[trigger] automaton::rule_shapes(all)[i],
                states,
            ) by {
                if i < before.len() {
                    assert(language_analysis::shape_below(
                        automaton::rule_shapes(explicit::rule_models(before))[i],
                        states,
                    ));
                }
            }
        }
        self.rules = rules;
    }

    /// Builds the automaton. The transitions must differ from each other.
    pub fn build(self) -> (a: Explicit)
        requires
            self@.rules.len() <= u32::MAX,
            automaton::unique_transitions(self@.rules),
        ensures
            a@ == self@,
    {
        self.build_trusted()
    }

    /// Builds the automaton, or reports the first rule that repeats an earlier
    /// transition, whatever its weight.
    pub fn try_build(self) -> (r: Result<Explicit, ExplicitBuildError>)
        requires
            self@.rules.len() <= u32::MAX,
        ensures
            match r {
                Ok(a) => automaton::unique_transitions(self@.rules) && a@ == self@,
                Err(e) => names_first_repeat(e, self@.rules),
            },
    {
        match find_repeat(&self.rules) {
            Some(i) => Err(duplicate_error(&self.rules[i])),
            None => Ok(self.build_trusted()),
        }
    }

    /// Builds the automaton without looking for repeated transitions.
    pub fn build_trusted(self) -> (a: Explicit)
        requires
            self@.rules.len() <= u32::MAX,
        ensures
            a@ == self@,
    {
        proof {
            use_type_invariant(&self);
        }
        let ghost model = self@;
        let n: usize = self.next_state as usize;
        let mut bits = FixedBitSet::with_capacity(n);
        let mut i: usize = 0;
        while i < self.accepting.len()
            invariant
                i <= self.accepting@.len(),
                n == self.next_state,
                self@.well_formed(),
                self@.states == n,
                self@.accepting == language_analysis::listed(self.accepting@),
                tables::bit_len(bits) == n,
                forall|k: usize| #[trigger]
                    tables::bit_ones(bits).contains(k) <==> (k <= u32::MAX && self.accepting@.take(
                        i as int,
                    ).contains(StateId(k as u32))),
            decreases self.accepting@.len() - i,
        {
            let q = self.accepting[i];
            let ghost before = tables::bit_ones(bits);
            proof {
                assert(self.accepting@.contains(q));
                assert(self@.accepting.contains(q));
            }
            bits.insert(q.index());
            proof {
                let seen = self.accepting@.take(i as int);
                let now = self.accepting@.take(i + 1);
                assert(now =~= seen.push(q));
                assert forall|k: usize| #[trigger] tables::bit_ones(bits).contains(k) <==> (k
                    <= u32::MAX && now.contains(StateId(k as u32))) by {
                    assert(before.contains(k) <==> (k <= u32::MAX && seen.contains(
                        StateId(k as u32),
                    )));
                    crate::symbol_set::lemma_push_contains(seen, q, StateId(k as u32));
                }
            }
            i += 1;
        }
        proof {
            assert(self.accepting@.take(i as int) =~= self.accepting@);
            assert forall|k: usize| #[trigger] tables::bit_ones(bits).contains(k) implies k < n by {
                assert(self@.accepting.contains(StateId(k as u32)));
            }
            assert forall|q: StateId| explicit::bit_states(bits).contains(q)
                <==> self@.accepting.contains(q) by {
                assert(tables::bit_ones(bits).contains(q.0 as usize) <==> self.accepting@.contains(
                    StateId(q.0 as usize as u32),
                ));
            }
            assert(explicit::bit_states(bits) =~= self@.accepting);
        }
        Explicit::from_parts(self.next_state, bits, self.rules)
    }
}

/// Numbers the marked states in increasing order.
fn compact_states(n: usize, marks: &Vec<bool>) -> (mapping: StateMapping)
    requires
        marks@.len() == n,
        n <= u32::MAX,
    ensures
        states_increase(mapping@),
        forall|q: StateId| #[trigger]
            mapping@.contains(q) <==> (q.0 < n && marks@[q.0 as int]),
{
    let mut old_to_new: Vec<Option<StateId>> = Vec::new();
    let mut new_to_old: Vec<StateId> = Vec::new();
    let mut old: usize = 0;
    while old < n
        invariant
            old <= n,
            n <= u32::MAX,
            marks@.len() == n,
            old_to_new@.len() == old,
            mapping_ok(old_to_new@, new_to_old@, old as int),
            states_increase(new_to_old@),
            forall|q: StateId| #[trigger]
                new_to_old@.contains(q) <==> (q.0 < old && marks@[q.0 as int]),
        decreases n - old,
    {
        let ghost before = new_to_old@;
        let ghost table = old_to_new@;
        if marks[old] {
            let new = StateId(new_to_old.len() as u32);
            old_to_new.push(Some(new));
            new_to_old.push(StateId(old as u32));
            proof {
                assert forall|k: int| 0 <= k < new_to_old@.len() implies (
                #[trigger] new_to_old@[k]).0 < old + 1 && old_to_new@[new_to_old@[k].0 as int]
                    == Some(StateId(k as u32)) by {
                    if k < before.len() {
                        assert(before[k] == new_to_old@[k]);
                        assert(table[before[k].0 as int] == Some(StateId(k as u32)));
                    }
                }
                assert forall|o: int| 0 <= o < old + 1 implies match #[trigger] old_to_new@[o] {
                    Some(new) => new.0 < new_to_old@.len() && new_to_old@[new.0 as int].0 == o,
                    None => true,
                } by {
                    if o < old {
                        assert(old_to_new@[o] == table[o]);
                    }
                }
            }
        } else {
            old_to_new.push(None);
            proof {
                assert forall|k: int| 0 <= k < new_to_old@.len() implies (
                #[trigger] new_to_old@[k]).0 < old + 1 && old_to_new@[new_to_old@[k].0 as int]
                    == Some(StateId(k as u32)) by {
                    assert(table[before[k].0 as int] == Some(StateId(k as u32)));
                }
                assert forall|o: int| 0 <= o < old + 1 implies match #[trigger] old_to_new@[o] {
                    Some(new) => new.0 < new_to_old@.len() && new_to_old@[new.0 as int].0 == o,
                    None => true,
                } by {
                    if o < old {
                        assert(old_to_new@[o] == table[o]);
                    }
                }
            }
        }
        proof {
            assert forall|q: StateId| #[trigger] new_to_old@.contains(q) <==> (q.0 < old + 1
                && marks@[q.0 as int]) by {
                assert(before.contains(q) <==> (q.0 < old && marks@[q.0 as int]));
                crate::symbol_set::lemma_push_contains(before, StateId(old as u32), q);
            }
        }
        old += 1;
    }
    StateMapping { old_to_new, new_to_old }
}

/// A retained state is found at its new number.
pub proof fn lemma_compact(kept: Seq<StateId>, q: StateId, k: int)
    requires
        states_increase(kept),
        0 <= k < kept.len(),
        kept[k] == q,
        kept.len() <= u32::MAX,
    ensures
        compact(kept, q) == StateId(k as u32),
{
    let i = kept.index_of(q);
    assert(kept.contains(q));
    assert(0 <= i < kept.len() && kept[i] == q);
    if i < k {
        assert(kept[i].0 < kept[k].0);
    } else if k < i {
        assert(kept[k].0 < kept[i].0);
    }
}

/// Increasing states below `n` are at most `n`.
proof fn lemma_increasing_len(kept: Seq<StateId>, k: int)
    requires
        states_increase(kept),
        0 <= k < kept.len(),
    ensures
        k <= kept[k].0,
    decreases k,
{
    if k > 0 {
        lemma_increasing_len(kept, k - 1);
        assert(kept[k - 1].0 < kept[k].0);
    }
}

/// The retained states are states of the automaton, so there are not more of them.
pub proof fn lemma_kept_fits(a: Automaton, assume_productive: bool, kept: Seq<StateId>)
    requires
        a.well_formed(),
        lists_kept(a, assume_productive, kept),
    ensures
        kept.len() <= a.states,
        kept.len() <= u32::MAX,
        forall|i: int| 0 <= i < kept.len() ==> (#[trigger] kept[i]).0 < a.states,
{
    let shapes = automaton::rule_shapes(a.rules);
    let roots = if assume_productive {
        a.accepting
    } else {
        language_analysis::productive_roots(shapes, a.accepting)
    };
    assert forall|i: int| 0 <= i < kept.len() implies (#[trigger] kept[i]).0 < a.states by {
        assert(kept.contains(kept[i]));
        language_analysis::lemma_below_bounded(
            shapes,
            roots,
            usable_rules(a, assume_productive),
            a.states,
            kept[i],
        );
    }
    if kept.len() > 0 {
        lemma_increasing_len(kept, kept.len() - 1);
    }
}

/// Trimming keeps the children of the rules it keeps.
pub proof fn lemma_kept_children(a: Automaton, assume_productive: bool, i: int)
    requires
        0 <= i < a.rules.len(),
        kept_rules(a, assume_productive)[i],
    ensures
        is_kept(a, assume_productive, a.rules[i].result),
        forall|p: int|
            0 <= p < a.rules[i].children.len() ==> is_kept(
                a,
                assume_productive,
                #[trigger] a.rules[i].children[p],
            ),
{
    let shapes = automaton::rule_shapes(a.rules);
    let roots = if assume_productive {
        a.accepting
    } else {
        language_analysis::productive_roots(shapes, a.accepting)
    };
    assert(shapes[i].result == a.rules[i].result);
    language_analysis::lemma_children_below(
        shapes,
        roots,
        usable_rules(a, assume_productive),
        i,
    );
    assert forall|p: int| 0 <= p < a.rules[i].children.len() implies is_kept(
        a,
        assume_productive,
        #[trigger] a.rules[i].children[p],
    ) by {
        assert(shapes[i].children[p] == a.rules[i].children[p]);
    }
}

/// The states of the renumbered rules are numbers of retained states.
proof fn lemma_compact_below(a: Automaton, assume_productive: bool, kept: Seq<StateId>, n: int)
    requires
        lists_kept(a, assume_productive, kept),
        kept.len() <= u32::MAX,
        0 <= n <= a.rules.len(),
    ensures
        language_analysis::shapes_below(
            automaton::rule_shapes(
                compact_rules(kept, a.rules.take(n), kept_rules(a, assume_productive)),
            ),
            kept.len(),
        ),
        compact_rules(kept, a.rules.take(n), kept_rules(a, assume_productive)).len() <= n,
    decreases n,
{
    let marked = kept_rules(a, assume_productive);
    let now = compact_rules(kept, a.rules.take(n), marked);
    if n > 0 {
        lemma_compact_below(a, assume_productive, kept, n - 1);
        assert(a.rules.take(n).drop_last() =~= a.rules.take(n - 1));
        let earlier = compact_rules(kept, a.rules.take(n - 1), marked);
        assert forall|j: int|
            0 <= j < automaton::rule_shapes(now).len() implies language_analysis::shape_below(
            #[trigger] automaton::rule_shapes(now)[j],
            kept.len(),
        ) by {
            if j < earlier.len() {
                assert(language_analysis::shape_below(
                    automaton::rule_shapes(earlier)[j],
                    kept.len(),
                ));
            } else {
                lemma_kept_children(a, assume_productive, n - 1);
                let rule = a.rules[n - 1];
                assert forall|p: int| 0 <= p < rule.children.len() implies (
                #[trigger] automaton::rule_shapes(now)[j].children[p]).0 < kept.len() by {
                    assert(is_kept(a, assume_productive, a.rules[n - 1].children[p]));
                    assert(kept.contains(rule.children[p]));
                    let k = choose|k: int| 0 <= k < kept.len() && kept[k] == rule.children[p];
                    lemma_compact(kept, rule.children[p], k);
                }
                assert(kept.contains(rule.result));
                let k = choose|k: int| 0 <= k < kept.len() && kept[k] == rule.result;
                lemma_compact(kept, rule.result, k);
            }
        }
    }
}

impl ExplicitBuilder {
    /// Builds the automaton with only the states and rules that occur in accepting
    /// derivations. The surviving transitions must differ from each other.
    pub fn build_trimmed(self) -> (t: TrimmedExplicit)
        requires
            survivors_fit(self@, false),
            forall|kept: Seq<StateId>| #[trigger]
                lists_kept(self@, false, kept) ==> automaton::unique_transitions(
                    trimmed(self@, false, kept).rules,
                ),
        ensures
            trim_result(self@, false, Ok(t)),
    {
        let (mapping, rules, bits) = self.trim_parts(false);
        TrimmedExplicit {
            automaton: Explicit::from_parts(mapping.len() as u32, bits, rules),
            state_mapping: mapping,
        }
    }

    /// As `build_trimmed`, when every state is known to be productive: only states
    /// that do not lie below an accepting state are removed.
    pub fn build_trimmed_assuming_productive(self) -> (t: TrimmedExplicit)
        requires
            survivors_fit(self@, true),
            forall|kept: Seq<StateId>| #[trigger]
                lists_kept(self@, true, kept) ==> automaton::unique_transitions(
                    trimmed(self@, true, kept).rules,
                ),
        ensures
            trim_result(self@, true, Ok(t)),
    {
        let (mapping, rules, bits) = self.trim_parts(true);
        TrimmedExplicit {
            automaton: Explicit::from_parts(mapping.len() as u32, bits, rules),
            state_mapping: mapping,
        }
    }

    /// Tries to build a trimmed automaton and its state mapping.
    ///
    /// A state is retained exactly when it is productive and lies below an
    /// accepting state through productive rules. Repeated transitions matter only
    /// when they survive.
    pub fn try_build_trimmed(self) -> (r: Result<TrimmedExplicit, ExplicitBuildError>)
        requires
            survivors_fit(self@, false),
        ensures
            trim_result(self@, false, r),
    {
        self.try_build_trimmed_inner(false)
    }

    /// Tries to build a trimmed automaton when every state is known to be
    /// productive.
    pub fn try_build_trimmed_assuming_productive(self) -> (r: Result<
        TrimmedExplicit,
        ExplicitBuildError,
    >)
        requires
            survivors_fit(self@, true),
        ensures
            trim_result(self@, true, r),
    {
        self.try_build_trimmed_inner(true)
    }

    fn try_build_trimmed_inner(self, assume_productive: bool) -> (r: Result<
        TrimmedExplicit,
        ExplicitBuildError,
    >)
        requires
            survivors_fit(self@, assume_productive),
        ensures
            trim_result(self@, assume_productive, r),
    {
        let ghost a = self@;
        let (mapping, rules, bits) = self.trim_parts(assume_productive);
        match find_repeat(&rules) {
            Some(i) => {
                assert(lists_kept(a, assume_productive, mapping@));
                Err(duplicate_error(&rules[i]))
            },
            None => Ok(
                TrimmedExplicit {
                    automaton: Explicit::from_parts(mapping.len() as u32, bits, rules),
                    state_mapping: mapping,
                },
            ),
        }
    }

    /// The mapping, rules and accepting states of the trimmed automaton.
    fn trim_parts(self, assume_productive: bool) -> (r: (
        StateMapping,
        Vec<StoredRule>,
        FixedBitSet,
    ))
        ensures
            lists_kept(self@, assume_productive, r.0@),
            explicit::rule_models(r.1@) == trimmed(self@, assume_productive, r.0@).rules,
            explicit::bit_states(r.2) == trimmed(self@, assume_productive, r.0@).accepting,
            r.0@.len() <= u32::MAX,
            tables::bit_len(r.2) == r.0@.len(),
            forall|k: usize| #[trigger] tables::bit_ones(r.2).contains(k) ==> k < r.0@.len(),
            language_analysis::shapes_below(
                automaton::rule_shapes(explicit::rule_models(r.1@)),
                r.0@.len(),
            ),
    {
        proof {
            use_type_invariant(&self);
        }
        let ghost a = self@;
        let ghost shapes = automaton::rule_shapes(a.rules);
        let n: usize = self.next_state as usize;
        let mut inputs: Vec<RuleInput<'_>> = Vec::new();
        let mut i: usize = 0;
        while i < self.rules.len()
            invariant
                i <= self.rules@.len(),
                a.rules == explicit::rule_models(self.rules@),
                inputs@.len() == i,
                forall|j: int|
                    0 <= j < i ==> (#[trigger] inputs@[j])@ == automaton::shape_of(a.rules[j]),
            decreases self.rules@.len() - i,
        {
            let rule = &self.rules[i];
            inputs.push(RuleInput { children: rule.children.as_slice(), result: rule.result });
            i += 1;
        }
        proof {
            assert(language_analysis::shapes(inputs@) =~= shapes);
            assert forall|k: int| 0 <= k < self.accepting@.len() implies (
            #[trigger] self.accepting@[k]).0 < n by {
                assert(self.accepting@.contains(self.accepting@[k]));
                assert(a.accepting.contains(self.accepting@[k]));
            }
        }
        let analysis: TrimmingAnalysis = if assume_productive {
            analyze_productive_for_trimming(n, &inputs, &self.accepting)
        } else {
            analyze_for_trimming(n, &inputs, &self.accepting)
        };
        let mapping = compact_states(n, &analysis.relevant);
        let ghost kept = mapping@;
        let ghost marked = kept_rules(a, assume_productive);
        proof {
            let roots = if assume_productive {
                a.accepting
            } else {
                language_analysis::productive_roots(shapes, a.accepting)
            };
            assert forall|q: StateId| #[trigger] kept.contains(q) <==> is_kept(
                a,
                assume_productive,
                q,
            ) by {
                if is_kept(a, assume_productive, q) {
                    language_analysis::lemma_below_bounded(
                        shapes,
                        roots,
                        usable_rules(a, assume_productive),
                        n as nat,
                        q,
                    );
                }
                if q.0 < n {
                    assert(analysis.relevant@[q.0 as int] == is_kept(
                        a,
                        assume_productive,
                        StateId(q.0 as int as u32),
                    ));
                }
            }
            assert(lists_kept(a, assume_productive, kept));
            if kept.len() > 0 {
                lemma_increasing_len(kept, kept.len() - 1);
                assert(kept.contains(kept[kept.len() - 1]));
            }
            assert(kept.len() <= n);
        }
        let bits = self.trim_accepting(&mapping);
        let mut rules: Vec<StoredRule> = Vec::new();
        let mut j: usize = 0;
        assert(a.rules.take(0) =~= Seq::empty());
        while j < self.rules.len()
            invariant
                j <= self.rules@.len(),
                a == self@,
                a.rules == explicit::rule_models(self.rules@),
                a.well_formed(),
                n == a.states,
                n <= u32::MAX,
                kept == mapping@,
                kept.len() <= n,
                shapes == automaton::rule_shapes(a.rules),
                lists_kept(a, assume_productive, kept),
                marked == kept_rules(a, assume_productive),
                analysis.productive_rules@ == usable_rules(a, assume_productive),
                analysis.relevant@.len() == n,
                forall|s: int|
                    0 <= s < n ==> #[trigger] analysis.relevant@[s] == is_kept(
                        a,
                        assume_productive,
                        StateId(s as u32),
                    ),
                explicit::rule_models(rules@) == compact_rules(
                    kept,
                    a.rules.take(j as int),
                    marked,
                ),
                rules@.len() <= j,
            decreases self.rules@.len() - j,
        {
            let rule = &self.rules[j];
            let ghost model = a.rules[j as int];
            let ghost before = rules@;
            proof {
                assert(language_analysis::shape_below(shapes[j as int], a.states));
                assert(analysis.relevant@[model.result.0 as int] == is_kept(
                    a,
                    assume_productive,
                    StateId(model.result.0 as int as u32),
                ));
                let now = a.rules.take(j + 1);
                assert(now.drop_last() =~= a.rules.take(j as int));
                assert(now.last() == model);
            }
            if analysis.productive_rules[j] && analysis.relevant[rule.result.index()] {
                proof {
                    lemma_kept_children(a, assume_productive, j as int);
                }
                let children = self.trim_children(rule.children.as_slice(), &mapping);
                proof {
                    assert(kept.contains(model.result));
                }
                let result = mapping.new_state(rule.result).unwrap();
                proof {
                    lemma_compact(kept, model.result, result.0 as int);
                    assert(children@ =~= compact_rule(kept, model).children);
                }
                let stored = StoredRule {
                    symbol: rule.symbol,
                    children: StateTuple::from_vec(children),
                    result,
                    weight: rule.weight,
                };
                let ghost added = stored@;
                rules.push(stored);
                proof {
                    assert(added == compact_rule(kept, model));
                    assert(explicit::rule_models(rules@) =~= explicit::rule_models(before).push(
                        added,
                    ));
                }
            }
            j += 1;
        }
        proof {
            assert(a.rules.take(j as int) =~= a.rules);
            lemma_compact_below(a, assume_productive, kept, a.rules.len() as int);
        }
        (mapping, rules, bits)
    }

    /// The new numbers of the children of a rule.
    fn trim_children(&self, children: &[StateId], mapping: &StateMapping) -> (r: Vec<StateId>)
        requires
            mapping@.len() <= u32::MAX,
            states_increase(mapping@),
            forall|p: int|
                0 <= p < children@.len() ==> mapping@.contains(#[trigger] children@[p]),
        ensures
            r@ == Seq::new(children@.len(), |p: int| compact(mapping@, children@[p])),
    {
        let mut r: Vec<StateId> = Vec::new();
        let mut p: usize = 0;
        while p < children.len()
            invariant
                p <= children@.len(),
                mapping@.len() <= u32::MAX,
                states_increase(mapping@),
                forall|k: int|
                    0 <= k < children@.len() ==> mapping@.contains(#[trigger] children@[k]),
                r@.len() == p,
                forall|k: int| 0 <= k < p ==> #[trigger] r@[k] == compact(mapping@, children@[k]),
            decreases children@.len() - p,
        {
            assert(mapping@.contains(children@[p as int]));
            let new = mapping.new_state(children[p]).unwrap();
            proof {
                lemma_compact(mapping@, children@[p as int], new.0 as int);
            }
            r.push(new);
            p += 1;
        }
        assert(r@ =~= Seq::new(children@.len(), |k: int| compact(mapping@, children@[k])));
        r
    }

    /// The accepting states that are retained, by their new numbers.
    fn trim_accepting(&self, mapping: &StateMapping) -> (bits: FixedBitSet)
        requires
            mapping@.len() <= u32::MAX,
            states_increase(mapping@),
        ensures
            tables::bit_len(bits) == mapping@.len(),
            forall|k: usize| #[trigger] tables::bit_ones(bits).contains(k) ==> k < mapping@.len(),
            explicit::bit_states(bits) == Set::new(
                |q: StateId| q.0 < mapping@.len() && self@.accepting.contains(mapping@[q.0 as int]),
            ),
    {
        let mut bits = FixedBitSet::with_capacity(mapping.len());
        let ghost kept = mapping@;
        let mut i: usize = 0;
        while i < self.accepting.len()
            invariant
                i <= self.accepting@.len(),
                kept == mapping@,
                kept.len() <= u32::MAX,
                states_increase(kept),
                tables::bit_len(bits) == kept.len(),
                forall|k: usize| #[trigger]
                    tables::bit_ones(bits).contains(k) <==> (k < kept.len()
                        && self.accepting@.take(i as int).contains(kept[k as int])),
            decreases self.accepting@.len() - i,
        {
            let old = self.accepting[i];
            let ghost before = tables::bit_ones(bits);
            let found = mapping.new_state(old);
            if let Some(new) = found {
                bits.insert(new.index());
            }
            proof {
                let seen = self.accepting@.take(i as int);
                let now = self.accepting@.take(i + 1);
                assert(now =~= seen.push(old));
                assert forall|k: usize| #[trigger] tables::bit_ones(bits).contains(k) <==> (k
                    < kept.len() && now.contains(kept[k as int])) by {
                    assert(before.contains(k) <==> (k < kept.len() && seen.contains(
                        kept[k as int],
                    )));
                    crate::symbol_set::lemma_push_contains(seen, old, kept[k as int]);
                    if k < kept.len() && kept[k as int] == old {
                        assert(kept.contains(old));
                        let new = found.unwrap();
                        if new.0 < k {
                            assert(kept[new.0 as int].0 < kept[k as int].0);
                        } else if k < new.0 {
                            assert(kept[k as int].0 < kept[new.0 as int].0);
                        }
                    }
                }
            }
            i += 1;
        }
        proof {
            assert(self.accepting@.take(i as int) =~= self.accepting@);
            assert(explicit::bit_states(bits) =~= Set::new(
                |q: StateId| q.0 < kept.len() && self@.accepting.contains(kept[q.0 as int]),
            ));
        }
        bits
    }
}

} // verus!
