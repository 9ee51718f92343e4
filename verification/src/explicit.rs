//! Fully materialized bottom-up tree automata.
use crate::automaton;
use crate::automaton::{Automaton, RuleModel};
use crate::condensed;
use crate::ids::{StateId, Symbol};
use crate::key_index;
use crate::key_index::KeyIndex;
use crate::language_analysis;
use crate::language_analysis::{LanguageAnalysis, RuleInput};
use crate::tables;
use crate::tables::{bit_positions, StateTuple};
use crate::traits;
use crate::traits::{
    BottomUpTa, CondensedRule, CondensedTa, CondensedTopDownTa, DetBottomUpTa, Expansion,
    IndexedBottomUpTa, StateUniverse, TopDownTa, Transition,
};
use crate::weight::Weight;
use fixedbitset::FixedBitSet;
use vstd::prelude::*;

verus! {

/// One stored transition rule.
#[derive(Debug)]
pub struct StoredRule {
    pub symbol: Symbol,
    pub children: StateTuple,
    pub result: StateId,
    pub weight: Weight,
}

impl View for StoredRule {
    type V = RuleModel;

    open spec fn view(&self) -> RuleModel {
        RuleModel {
            symbol: self.symbol,
            children: self.children@,
            result: self.result,
            weight: self.weight,
        }
    }
}

/// What the stored rules mean.
pub open spec fn rule_models(rules: Seq<StoredRule>) -> Seq<RuleModel> {
    Seq::new(rules.len(), |i: int| rules[i]@)
}

/// Borrowed view of one transition rule: a node with `symbol` whose children have
/// exactly `children` may get `result`.
pub struct Rule<'a> {
    /// Symbol on the tree node matched by this rule.
    pub symbol: Symbol,
    /// Required child-state tuple, in left-to-right child order.
    pub children: &'a [StateId],
    /// State assigned to the parent node when the rule applies.
    pub result: StateId,
    /// Weight assigned to this rule.
    pub weight: Weight,
}

impl<'a> View for Rule<'a> {
    type V = RuleModel;

    open spec fn view(&self) -> RuleModel {
        RuleModel {
            symbol: self.symbol,
            children: self.children@,
            result: self.result,
            weight: self.weight,
        }
    }
}

/// A rule weight that cannot be read as a probability.
pub struct ProbabilityWeightError {
    /// Index of the first rule with an invalid weight.
    pub rule_index: usize,
    /// The invalid weight.
    pub weight: Weight,
}

/// A fully materialized bottom-up tree automaton.
///
/// Rules are stored together with the lookup tables that the queries read. Values
/// are built with `ExplicitBuilder`.
#[derive(Debug)]
pub struct Explicit {
    num_states: u32,
    accepting: FixedBitSet,
    rules: Vec<StoredRule>,
    probability_weights: bool,
    by_left: KeyIndex,
    by_child: KeyIndex,
    by_result: Vec<Vec<usize>>,
    groups: Vec<CondensedRule<StateId>>,
}

/// The states whose bits are enabled.
pub open spec fn bit_states(b: FixedBitSet) -> Set<StateId> {
    Set::new(|q: StateId| tables::bit_ones(b).contains(q.0 as usize))
}

/// Whether every weight is a probability.
pub open spec fn all_probabilities(rules: Seq<RuleModel>) -> bool {
    forall|i: int| 0 <= i < rules.len() ==> (#[trigger] rules[i]).weight.probability()
}

/// Whether the index finds, for every left-hand side, the states it may get.
pub open spec fn left_index_ok(rules: Seq<RuleModel>, index: KeyIndex) -> bool {
    forall|f: Symbol, children: Seq<StateId>|
        index.at(#[trigger] key_index::left_key(f, children)) == automaton::result_numbers(
            rules,
            f,
            children,
        )
}

/// Whether the index finds, for every child occurrence, the rules that have it.
pub open spec fn child_index_ok(rules: Seq<RuleModel>, index: KeyIndex) -> bool {
    forall|f: Symbol, position: usize, q: StateId|
        index.at(#[trigger] key_index::child_key(f, position, q)) == automaton::rules_with_child(
            rules,
            f,
            position,
            q,
        )
}

impl View for Explicit {
    type V = Automaton;

    closed spec fn view(&self) -> Automaton {
        Automaton {
            states: self.num_states as nat,
            accepting: bit_states(self.accepting),
            rules: rule_models(self.rules@),
        }
    }
}

impl Explicit {
    #[verifier::type_invariant]
    pub closed spec fn wf(&self) -> bool {
        &&& self@.well_formed()
        &&& tables::bit_len(self.accepting) == self.num_states
        &&& self.rules@.len() <= u32::MAX
        &&& forall|k: usize| #[trigger]
            tables::bit_ones(self.accepting).contains(k) ==> k < self.num_states
        &&& self.probability_weights == all_probabilities(self@.rules)
        &&& self.by_left.wf()
        &&& left_index_ok(self@.rules, self.by_left)
        &&& self.by_child.wf()
        &&& child_index_ok(self@.rules, self.by_child)
        &&& self.by_result@.len() == self.num_states
        &&& forall|s: int|
            0 <= s < self.num_states ==> (#[trigger] self.by_result@[s])@
                == language_analysis::rules_with_result(
                automaton::rule_shapes(self@.rules),
                StateId(s as u32),
            )
        &&& condensed::is_condensed(self@.rules, self.groups@)
    }

    /// The automaton mentions only its own states.
    pub proof fn lemma_well_formed(&self)
        requires
            self.wf(),
        ensures
            self@.well_formed(),
            self@.rules.len() <= u32::MAX,
    {
    }

    /// The number of allocated states.
    pub fn num_states(&self) -> (n: u32)
        ensures
            n == self@.states,
    {
        self.num_states
    }

    /// The number of transition rules.
    pub fn num_rules(&self) -> (n: usize)
        ensures
            n == self@.rules.len(),
    {
        self.rules.len()
    }

    /// The transition rule at the given index.
    pub fn rule(&self, rule_idx: usize) -> (r: Rule<'_>)
        requires
            rule_idx < self@.rules.len(),
        ensures
            r@ == self@.rules[rule_idx as int],
    {
        let rule = &self.rules[rule_idx];
        Rule {
            symbol: rule.symbol,
            children: rule.children.as_slice(),
            result: rule.result,
            weight: rule.weight,
        }
    }

    /// All transition rules, in rule order.
    pub fn rules(&self) -> (r: Vec<Rule<'_>>)
        ensures
            r@.len() == self@.rules.len(),
            forall|i: int| 0 <= i < r@.len() ==> (#[trigger] r@[i])@ == self@.rules[i],
    {
        let mut r: Vec<Rule<'_>> = Vec::new();
        let mut i: usize = 0;
        while i < self.rules.len()
            invariant
                i <= self.rules@.len(),
                self@.rules.len() == self.rules@.len(),
                r@.len() == i,
                forall|j: int| 0 <= j < i ==> (#[trigger] r@[j])@ == self@.rules[j],
            decreases self.rules@.len() - i,
        {
            r.push(self.rule(i));
            i += 1;
        }
        r
    }

    /// The numbers of the rules for `f` with child `q` at `position`, in rule order.
    pub fn rules_with_child(&self, f: Symbol, position: usize, q: StateId) -> (r: Vec<usize>)
        ensures
            r@ == automaton::rules_with_child(self@.rules, f, position, q),
            self@.rules.len() <= u32::MAX,
    {
        proof {
            use_type_invariant(self);
        }
        let key = key_index::make_child_key(f, position, q);
        let list = self.by_child.get(key.as_slice());
        let mut r: Vec<usize> = Vec::new();
        let mut i: usize = 0;
        while i < list.len()
            invariant
                i <= list@.len(),
                r@ == list@.take(i as int),
            decreases list@.len() - i,
        {
            r.push(list[i]);
            assert(list@.take(i + 1) =~= list@.take(i as int).push(list@[i as int]));
            i += 1;
        }
        assert(list@.take(i as int) =~= list@);
        r
    }

    /// The rules with the given result, in rule order.
    pub fn rules_topdown(&self, parent: StateId) -> (r: Vec<Rule<'_>>)
        requires
            parent.0 < self@.states,
        ensures
            ({
                let list = language_analysis::rules_with_result(
                    automaton::rule_shapes(self@.rules),
                    parent,
                );
                &&& r@.len() == list.len()
                &&& forall|i: int|
                    0 <= i < r@.len() ==> (#[trigger] r@[i])@ == self@.rules[list[i] as int]
            }),
    {
        proof {
            use_type_invariant(self);
        }
        let list = &self.by_result[parent.index()];
        let ghost shapes = automaton::rule_shapes(self@.rules);
        assert(list@ == language_analysis::rules_with_result(shapes, StateId(parent.0 as int as u32)));
        let mut r: Vec<Rule<'_>> = Vec::new();
        let mut i: usize = 0;
        while i < list.len()
            invariant
                i <= list@.len(),
                shapes == automaton::rule_shapes(self@.rules),
                self@.rules.len() <= u32::MAX,
                list@ == language_analysis::rules_with_result(shapes, parent),
                r@.len() == i,
                forall|j: int|
                    0 <= j < i ==> (#[trigger] r@[j])@ == self@.rules[list@[j] as int],
            decreases list@.len() - i,
        {
            proof {
                assert(list@.contains(list@[i as int]));
                language_analysis::lemma_rules_with_result(shapes, parent, list@[i as int]);
            }
            r.push(self.rule(list[i]));
            i += 1;
        }
        r
    }

    /// Checks that every rule weight is a finite value in `[0, 1]` and reports the
    /// first that is not.
    pub fn validate_probability_weights(&self) -> (r: Result<(), ProbabilityWeightError>)
        ensures
            r is Ok <==> all_probabilities(self@.rules),
            r matches Err(e) ==> {
                &&& e.rule_index < self@.rules.len()
                &&& e.weight == self@.rules[e.rule_index as int].weight
                &&& !e.weight.probability()
                &&& forall|j: int|
                    0 <= j < e.rule_index ==> (#[trigger] self@.rules[j]).weight.probability()
            },
    {
        proof {
            use_type_invariant(self);
        }
        if self.probability_weights {
            return Ok(());
        }
        let mut i: usize = 0;
        while i < self.rules.len()
            invariant
                i <= self.rules@.len(),
                self@.rules == rule_models(self.rules@),
                !all_probabilities(self@.rules),
                forall|j: int| 0 <= j < i ==> (#[trigger] self@.rules[j]).weight.probability(),
            decreases self.rules@.len() - i,
        {
            let weight = self.rules[i].weight;
            assert(self@.rules[i as int].weight == weight);
            if !weight.is_probability() {
                return Err(ProbabilityWeightError { rule_index: i, weight });
            }
            i += 1;
        }
        Ok(())
    }

    /// The rules as the analyses read them.
    pub fn rule_inputs(&self) -> (inputs: Vec<RuleInput<'_>>)
        ensures
            language_analysis::shapes(inputs@) == automaton::rule_shapes(self@.rules),
    {
        let mut inputs: Vec<RuleInput<'_>> = Vec::new();
        let mut i: usize = 0;
        while i < self.rules.len()
            invariant
                i <= self.rules@.len(),
                self@.rules == rule_models(self.rules@),
                inputs@.len() == i,
                forall|j: int|
                    0 <= j < i ==> (#[trigger] inputs@[j])@ == automaton::shape_of(self@.rules[j]),
            decreases self.rules@.len() - i,
        {
            let rule = &self.rules[i];
            inputs.push(RuleInput { children: rule.children.as_slice(), result: rule.result });
            i += 1;
        }
        assert(language_analysis::shapes(inputs@) =~= automaton::rule_shapes(self@.rules));
        inputs
    }

    /// The accepting states in increasing order.
    pub fn accepting_states(&self) -> (r: Vec<StateId>)
        ensures
            r@.no_duplicates(),
            forall|q: StateId| #[trigger] r@.contains(q) <==> self@.accepting.contains(q),
            forall|i: int, j: int| 0 <= i < j < r@.len() ==> (#[trigger] r@[i]).0 < (#[trigger] r@[j]).0,
    {
        proof {
            use_type_invariant(self);
        }
        let positions = bit_positions(&self.accepting);
        let mut r: Vec<StateId> = Vec::new();
        let mut i: usize = 0;
        while i < positions.len()
            invariant
                i <= positions@.len(),
                tables::bit_len(self.accepting) == self.num_states,
                forall|k: int|
                    0 <= k < positions@.len() ==> (#[trigger] positions@[k] as nat)
                        < tables::bit_len(self.accepting),
                r@.len() == i,
                forall|j: int| 0 <= j < i ==> #[trigger] r@[j] == StateId(positions@[j] as u32),
            decreases positions@.len() - i,
        {
            r.push(StateId(positions[i] as u32));
            i += 1;
        }
        proof {
            assert forall|a: int, b: int| 0 <= a < b < r@.len() implies (#[trigger] r@[a]).0 < (
            #[trigger] r@[b]).0 by {
                assert(positions@[a] < positions@[b]);
                assert((positions@[a] as nat) < tables::bit_len(self.accepting));
                assert((positions@[b] as nat) < tables::bit_len(self.accepting));
            }
            assert forall|q: StateId| #[trigger] r@.contains(q) <==> self@.accepting.contains(
                q,
            ) by {
                assert(positions@.contains(q.0 as usize) <==> tables::bit_ones(
                    self.accepting,
                ).contains(q.0 as usize));
                if r@.contains(q) {
                    let j = choose|j: int| 0 <= j < r@.len() && r@[j] == q;
                    assert((positions@[j] as nat) < tables::bit_len(self.accepting));
                    assert(positions@[j] == q.0 as usize);
                }
                if positions@.contains(q.0 as usize) {
                    let j = choose|j: int|
                        0 <= j < positions@.len() && positions@[j] == q.0 as usize;
                    assert(r@[j] == q);
                }
            }
        }
        r
    }

    /// Analyses which states and rules occur in accepting derivations.
    pub fn analyze(&self) -> (analysis: LanguageAnalysis)
        ensures
            analysis.describes(
                self@.states,
                automaton::rule_shapes(self@.rules),
                self@.accepting,
            ),
    {
        proof {
            use_type_invariant(self);
        }
        let inputs = self.rule_inputs();
        let accepting = self.accepting_states();
        proof {
            assert(language_analysis::listed(accepting@) =~= self@.accepting);
            assert forall|k: int| 0 <= k < accepting@.len() implies (#[trigger] accepting@[k]).0
                < self.num_states by {
                assert(accepting@.contains(accepting@[k]));
            }
        }
        language_analysis::analyze(self.num_states as usize, &inputs, &accepting)
    }

    /// The states that some finite tree can get at its root.
    pub fn reachable_states(&self) -> (b: FixedBitSet)
        ensures
            tables::bit_len(b) == self@.states,
            forall|q: StateId|
                q.0 < self@.states ==> (#[trigger] bit_states(b).contains(q)
                    <==> self@.productive(q)),
            forall|k: usize| #[trigger] tables::bit_ones(b).contains(k) ==> k < self@.states,
    {
        proof {
            use_type_invariant(self);
        }
        let n: usize = self.num_states as usize;
        let inputs = self.rule_inputs();
        let ghost shapes = automaton::rule_shapes(self@.rules);
        let (productive, productive_rules) = language_analysis::productive_states(n, &inputs);
        let mut b = FixedBitSet::with_capacity(n);
        let mut s: usize = 0;
        while s < n
            invariant
                s <= n,
                n == self.num_states,
                n == self@.states,
                productive@.len() == n,
                forall|t: int|
                    0 <= t < n ==> #[trigger] productive@[t] == language_analysis::is_productive(
                        shapes,
                        StateId(t as u32),
                    ),
                tables::bit_len(b) == n,
                forall|k: usize| #[trigger]
                    tables::bit_ones(b).contains(k) <==> (k < s && productive@[k as int]),
            decreases n - s,
        {
            if productive[s] {
                b.insert(s);
            }
            s += 1;
        }
        proof {
            assert forall|q: StateId| q.0 < self@.states implies (#[trigger] bit_states(
                b,
            ).contains(q) <==> self@.productive(q)) by {
                assert(tables::bit_ones(b).contains(q.0 as usize) <==> productive@[q.0 as int]);
                assert(productive@[q.0 as int] == language_analysis::is_productive(
                    shapes,
                    StateId(q.0 as int as u32),
                ));
            }
        }
        b
    }

    /// Whether no tree is accepted.
    pub fn is_empty(&self) -> (b: bool)
        ensures
            b <==> forall|q: StateId| #[trigger]
                self@.accepting.contains(q) ==> !self@.productive(q),
    {
        proof {
            use_type_invariant(self);
        }
        let reachable = self.reachable_states();
        let accepting = self.accepting_states();
        let mut i: usize = 0;
        while i < accepting.len()
            invariant
                i <= accepting@.len(),
                self@.well_formed(),
                forall|q: StateId| #[trigger]
                    accepting@.contains(q) <==> self@.accepting.contains(q),
                forall|q: StateId|
                    q.0 < self@.states ==> (#[trigger] bit_states(reachable).contains(q)
                        <==> self@.productive(q)),
                forall|j: int| 0 <= j < i ==> !self@.productive(#[trigger] accepting@[j]),
            decreases accepting@.len() - i,
        {
            let q = accepting[i];
            assert(accepting@.contains(q));
            assert(bit_states(reachable).contains(q) <==> self@.productive(q));
            if reachable.contains(q.index()) {
                return false;
            }
            i += 1;
        }
        proof {
            assert forall|q: StateId| #[trigger] self@.accepting.contains(q) implies !self@.productive(
                q,
            ) by {
                assert(accepting@.contains(q));
                let j = choose|j: int| 0 <= j < accepting@.len() && accepting@[j] == q;
                assert(!self@.productive(accepting@[j]));
            }
        }
        true
    }
}

/// Indexes the rules by left-hand side.
fn build_left_index(rules: &Vec<StoredRule>) -> (index: KeyIndex)
    ensures
        index.wf(),
        left_index_ok(rule_models(rules@), index),
{
    let mut index = KeyIndex::new();
    let ghost all = rule_models(rules@);
    let mut i: usize = 0;
    assert(all.take(0) =~= Seq::empty());
    while i < rules.len()
        invariant
            i <= rules@.len(),
            all == rule_models(rules@),
            index.wf(),
            left_index_ok(all.take(i as int), index),
        decreases rules@.len() - i,
    {
        let rule = &rules[i];
        let key = key_index::make_left_key(rule.symbol, rule.children.as_slice());
        let ghost before = index;
        index.push_unique(key, rule.result.index());
        proof {
            let now = all.take(i + 1);
            assert(now.drop_last() =~= all.take(i as int));
            assert(now.last() == rule@);
            assert forall|f: Symbol, children: Seq<StateId>|
                index.at(#[trigger] key_index::left_key(f, children))
                == automaton::result_numbers(now, f, children) by {
                let k = key_index::left_key(f, children);
                assert(before.at(k) == automaton::result_numbers(
                    all.take(i as int),
                    f,
                    children,
                ));
                if k == key_index::left_key(rule.symbol, rule.children@) {
                    key_index::lemma_left_key_injective(f, children, rule.symbol, rule.children@);
                }
            }
        }
        i += 1;
    }
    assert(all.take(i as int) =~= all);
    index
}

/// Indexes the rules by child occurrence.
fn build_child_index(rules: &Vec<StoredRule>) -> (index: KeyIndex)
    ensures
        index.wf(),
        child_index_ok(rule_models(rules@), index),
{
    let mut index = KeyIndex::new();
    let ghost all = rule_models(rules@);
    let mut i: usize = 0;
    assert(all.take(0) =~= Seq::empty());
    while i < rules.len()
        invariant
            i <= rules@.len(),
            all == rule_models(rules@),
            index.wf(),
            child_index_ok(all.take(i as int), index),
        decreases rules@.len() - i,
    {
        let rule = &rules[i];
        let children = rule.children.as_slice();
        let mut p: usize = 0;
        while p < children.len()
            invariant
                i < rules@.len(),
                p <= children@.len(),
                all == rule_models(rules@),
                all[i as int] == rule@,
                children@ == rule@.children,
                index.wf(),
                forall|f: Symbol, position: usize, q: StateId|
                    index.at(#[trigger] key_index::child_key(f, position, q)) == (if position < p
                        && automaton::has_child(rule@, f, position, q) {
                        automaton::rules_with_child(all.take(i as int), f, position, q).push(i)
                    } else {
                        automaton::rules_with_child(all.take(i as int), f, position, q)
                    }),
            decreases children@.len() - p,
        {
            let ghost before = index;
            let key = key_index::make_child_key(rule.symbol, p, children[p]);
            index.push(key, i);
            proof {
                assert forall|f: Symbol, position: usize, q: StateId|
                    index.at(#[trigger] key_index::child_key(f, position, q)) == (if position < p
                        + 1 && automaton::has_child(rule@, f, position, q) {
                        automaton::rules_with_child(all.take(i as int), f, position, q).push(i)
                    } else {
                        automaton::rules_with_child(all.take(i as int), f, position, q)
                    }) by {
                    let k = key_index::child_key(f, position, q);
                    let own = key_index::child_key(rule.symbol, p, children@[p as int]);
                    assert(before.at(k) == before.at(key_index::child_key(f, position, q)));
                    if k == own {
                        key_index::lemma_child_key_injective(
                            f,
                            position,
                            q,
                            rule.symbol,
                            p,
                            children@[p as int],
                        );
                    }
                }
            }
            p += 1;
        }
        proof {
            let now = all.take(i + 1);
            assert(now.drop_last() =~= all.take(i as int));
            assert(now.last() == rule@);
            assert forall|f: Symbol, position: usize, q: StateId|
                index.at(#[trigger] key_index::child_key(f, position, q))
                == automaton::rules_with_child(now, f, position, q) by {}
        }
        i += 1;
    }
    assert(all.take(i as int) =~= all);
    index
}

/// Groups the rules by children and result.
fn build_groups(rules: &Vec<StoredRule>) -> (groups: Vec<CondensedRule<StateId>>)
    ensures
        condensed::is_condensed(rule_models(rules@), groups@),
{
    let mut groups: Vec<CondensedRule<StateId>> = Vec::new();
    let ghost all = rule_models(rules@);
    let mut i: usize = 0;
    while i < rules.len()
        invariant
            i <= rules@.len(),
            all == rule_models(rules@),
            condensed::is_condensed(all.take(i as int), groups@),
        decreases rules@.len() - i,
    {
        let rule = &rules[i];
        let ghost before = groups@;
        condensed::add_to_groups(&mut groups, rule.symbol, rule.children.as_slice(), rule.result);
        proof {
            let seen = all.take(i as int);
            let now = all.take(i + 1);
            assert forall|f: Symbol, children: Seq<StateId>, q: StateId| #[trigger]
                traits::some_covers(groups@, f, children, q) <==> automaton::has_transition(
                now,
                f,
                children,
                q,
            ) by {
                assert(traits::some_covers(before, f, children, q) <==> automaton::has_transition(
                    seen,
                    f,
                    children,
                    q,
                ));
                if automaton::has_transition(seen, f, children, q) {
                    let j = choose|j: int|
                        0 <= j < seen.len() && automaton::applies(
                            #[trigger] seen[j],
                            f,
                            children,
                        ) && seen[j].result == q;
                    assert(now[j] == seen[j]);
                }
                if automaton::has_transition(now, f, children, q) {
                    let j = choose|j: int|
                        0 <= j < now.len() && automaton::applies(
                            #[trigger] now[j],
                            f,
                            children,
                        ) && now[j].result == q;
                    if j < i {
                        assert(now[j] == seen[j]);
                    }
                }
                assert(now[i as int] == rule@);
                if f == rule.symbol && children == rule.children@ && q == rule.result {
                    assert(automaton::applies(now[i as int], f, children));
                }
            }
        }
        i += 1;
    }
    assert(all.take(i as int) =~= all);
    groups
}

impl Explicit {
    /// Puts an automaton together from its parts.
    pub(crate) fn from_parts(
        num_states: u32,
        accepting: FixedBitSet,
        rules: Vec<StoredRule>,
    ) -> (a: Self)
        requires
            rules@.len() <= u32::MAX,
            language_analysis::shapes_below(
                automaton::rule_shapes(rule_models(rules@)),
                num_states as nat,
            ),
            tables::bit_len(accepting) == num_states,
            forall|k: usize| #[trigger] tables::bit_ones(accepting).contains(k) ==> k < num_states,
        ensures
            a@ == (Automaton {
                states: num_states as nat,
                accepting: bit_states(accepting),
                rules: rule_models(rules@),
            }),
    {
        let ghost all = rule_models(rules@);
        let ghost shapes = automaton::rule_shapes(all);
        let mut probability_weights = true;
        let mut inputs: Vec<RuleInput<'_>> = Vec::new();
        let mut i: usize = 0;
        while i < rules.len()
            invariant
                i <= rules@.len(),
                all == rule_models(rules@),
                probability_weights <==> (forall|j: int|
                    0 <= j < i ==> (#[trigger] all[j]).weight.probability()),
                inputs@.len() == i,
                forall|j: int|
                    0 <= j < i ==> (#[trigger] inputs@[j])@ == automaton::shape_of(all[j]),
            decreases rules@.len() - i,
        {
            let rule = &rules[i];
            assert(all[i as int].weight == rule.weight);
            if !rule.weight.is_probability() {
                probability_weights = false;
            }
            inputs.push(RuleInput { children: rule.children.as_slice(), result: rule.result });
            i += 1;
        }
        assert(language_analysis::shapes(inputs@) =~= shapes);
        let by_result = language_analysis::result_index(num_states as usize, &inputs);
        let by_left = build_left_index(&rules);
        let by_child = build_child_index(&rules);
        let groups = build_groups(&rules);
        Explicit {
            num_states,
            accepting,
            rules,
            probability_weights,
            by_left,
            by_child,
            by_result,
            groups,
        }
    }

    /// The groups that pass a test, copied.
    fn copied_groups(&self, chosen: Vec<usize>) -> (r: Vec<CondensedRule<StateId>>)
        requires
            forall|i: int| 0 <= i < chosen@.len() ==> #[trigger] chosen@[i] < self.groups@.len(),
        ensures
            forall|f: Symbol, children: Seq<StateId>, q: StateId| #[trigger]
                traits::some_covers(r@, f, children, q) <==> picked_covers(
                    self.groups@,
                    chosen@,
                    f,
                    children,
                    q,
                ),
    {
        let mut r: Vec<CondensedRule<StateId>> = Vec::new();
        let mut i: usize = 0;
        while i < chosen.len()
            invariant
                i <= chosen@.len(),
                forall|j: int|
                    0 <= j < chosen@.len() ==> #[trigger] chosen@[j] < self.groups@.len(),
                r@.len() == i,
                forall|j: int|
                    0 <= j < i ==> {
                        let group = self.groups@[chosen@[j] as int];
                        &&& (#[trigger] r@[j]).children@ == group.children@
                        &&& r@[j].symbols@ == group.symbols@
                        &&& r@[j].result == group.result
                    },
            decreases chosen@.len() - i,
        {
            r.push(condensed::copy_group(&self.groups[chosen[i]]));
            i += 1;
        }
        proof {
            assert forall|f: Symbol, children: Seq<StateId>, q: StateId| #[trigger]
                traits::some_covers(r@, f, children, q) <==> picked_covers(
                self.groups@,
                chosen@,
                f,
                children,
                q,
            ) by {
                if traits::some_covers(r@, f, children, q) {
                    let k = choose|k: int|
                        0 <= k < r@.len() && traits::condensed_covers(
                            #[trigger] r@[k],
                            f,
                            children,
                            q,
                        );
                    assert(traits::condensed_covers(
                        self.groups@[chosen@[k] as int],
                        f,
                        children,
                        q,
                    ));
                }
                if picked_covers(self.groups@, chosen@, f, children, q) {
                    let j = choose|j: int|
                        0 <= j < chosen@.len() && traits::condensed_covers(
                            self.groups@[#[trigger] chosen@[j] as int],
                            f,
                            children,
                            q,
                        );
                    assert(traits::condensed_covers(r@[j], f, children, q));
                }
            }
        }
        r
    }
}

impl BottomUpTa for Explicit {
    type State = StateId;

    open spec fn steps_to(&self, f: Symbol, children: Seq<StateId>, q: StateId) -> bool {
        automaton::has_transition(self@.rules, f, children, q)
    }

    open spec fn accepts(&self, q: StateId) -> bool {
        self@.accepting.contains(q)
    }

    /// The states a node may get, each where a rule gives it first.
    fn step(&self, f: Symbol, children: &[StateId]) -> (r: Vec<StateId>)
        ensures
            r@ == automaton::results_of(self@.rules, f, children@),
            r@.no_duplicates(),
    {
        proof {
            use_type_invariant(self);
        }
        let key = key_index::make_left_key(f, children);
        let numbers = self.by_left.get(key.as_slice());
        assert(numbers@ == automaton::result_numbers(self@.rules, f, children@));
        let mut r: Vec<StateId> = Vec::new();
        let mut i: usize = 0;
        while i < numbers.len()
            invariant
                i <= numbers@.len(),
                r@.len() == i,
                forall|j: int| 0 <= j < i ==> #[trigger] r@[j] == StateId(numbers@[j] as u32),
            decreases numbers@.len() - i,
        {
            r.push(StateId(numbers[i] as u32));
            i += 1;
        }
        proof {
            assert(r@ =~= automaton::results_of(self@.rules, f, children@));
            assert forall|q: StateId| #[trigger] r@.contains(q) <==> self.steps_to(
                f,
                children@,
                q,
            ) by {
                automaton::lemma_results_of(self@.rules, f, children@, q);
            }
            automaton::lemma_results_of(self@.rules, f, children@, StateId(0));
        }
        r
    }

    fn is_accepting(&self, q: &StateId) -> (b: bool) {
        proof {
            use_type_invariant(self);
        }
        !q.is_stuck() && self.accepting.contains(q.index())
    }
}

impl DetBottomUpTa for Explicit {
    /// The only state that a node may get.
    open spec fn det(&self, f: Symbol, children: Seq<StateId>) -> Option<StateId> {
        let states = automaton::results_of(self@.rules, f, children);
        if states.len() == 1 {
            Some(states[0])
        } else {
            None
        }
    }

    proof fn det_sound(&self, f: Symbol, children: Seq<StateId>) {
        let states = automaton::results_of(self@.rules, f, children);
        if states.len() == 1 {
            assert forall|p: StateId| #[trigger] self.steps_to(f, children, p) <==> p
                == states[0] by {
                automaton::lemma_results_of(self@.rules, f, children, p);
                assert(states.contains(states[0]));
            }
        }
    }

    fn step_det(&self, f: Symbol, children: &[StateId]) -> (r: Option<StateId>) {
        let states = self.step(f, children);
        if states.len() == 1 {
            Some(states[0])
        } else {
            None
        }
    }
}

/// Nothing is reported for a node exactly when it may get no state or several.
pub proof fn law_step_det_agrees_with_step(
    a: &Explicit,
    f: Symbol,
    children: Seq<StateId>,
    q: StateId,
)
    ensures
        a.det(f, children) == Some(q) <==> traits::sole_step(a, f, children, q),
{
    a.det_sound(f, children);
    if traits::sole_step(a, f, children, q) {
        let states = automaton::results_of(a@.rules, f, children);
        assert(a.steps_to(f, children, q));
        automaton::lemma_results_of(a@.rules, f, children, q);
        let i = choose|i: int| 0 <= i < states.len() && states[i] == q;
        if states.len() > 1 {
            let j = if i == 0 { 1int } else { 0int };
            assert(states.contains(states[j]));
            automaton::lemma_results_of(a@.rules, f, children, states[j]);
            assert(a.steps_to(f, children, states[j]));
        }
    }
    if a.det(f, children) == Some(q) {
        assert(traits::sole_step(a, f, children, q));
    }
}

impl IndexedBottomUpTa for Explicit {
    /// The matching transitions in rule order.
    fn step_partial(&self, f: Symbol, position: usize, q: &StateId) -> (r: Vec<
        Transition<StateId>,
    >)
        ensures
            ({
                let list = automaton::rules_with_child(self@.rules, f, position, *q);
                &&& r@.len() == list.len()
                &&& forall|i: int|
                    0 <= i < r@.len() ==> (#[trigger] r@[i])@ == (
                        self@.rules[list[i] as int].children,
                        self@.rules[list[i] as int].result,
                    )
            }),
    {
        proof {
            use_type_invariant(self);
        }
        let key = key_index::make_child_key(f, position, *q);
        let list = self.by_child.get(key.as_slice());
        assert(list@ == automaton::rules_with_child(self@.rules, f, position, *q));
        let mut r: Vec<Transition<StateId>> = Vec::new();
        let mut i: usize = 0;
        while i < list.len()
            invariant
                i <= list@.len(),
                self@.rules.len() <= u32::MAX,
                list@ == automaton::rules_with_child(self@.rules, f, position, *q),
                r@.len() == i,
                forall|j: int|
                    0 <= j < i ==> (#[trigger] r@[j])@ == (
                        self@.rules[list@[j] as int].children,
                        self@.rules[list@[j] as int].result,
                    ),
            decreases list@.len() - i,
        {
            proof {
                assert(list@.contains(list@[i as int]));
                automaton::lemma_rules_with_child(self@.rules, f, position, *q, list@[i as int]);
            }
            let rule = self.rule(list[i]);
            r.push(
                Transition { children: key_index::copy_states(rule.children), result: rule.result },
            );
            i += 1;
        }
        proof {
            let found = traits::transitions(r@);
            assert forall|children: Seq<StateId>, result: StateId| #[trigger]
                found.contains((children, result)) <==> (position < children.len()
                    && children[position as int] == *q && self.steps_to(
                    f,
                    children,
                    result,
                )) by {
                if found.contains((children, result)) {
                    let j = choose|j: int| 0 <= j < found.len() && found[j] == (children, result);
                    assert(r@[j]@ == (children, result));
                    assert(list@.contains(list@[j]));
                    automaton::lemma_rules_with_child(self@.rules, f, position, *q, list@[j]);
                    assert(automaton::applies(self@.rules[list@[j] as int], f, children));
                }
                if position < children.len() && children[position as int] == *q && self.steps_to(
                    f,
                    children,
                    result,
                ) {
                    let j = choose|j: int|
                        0 <= j < self@.rules.len() && automaton::applies(
                            #[trigger] self@.rules[j],
                            f,
                            children,
                        ) && self@.rules[j].result == result;
                    automaton::lemma_rules_with_child(self@.rules, f, position, *q, j as usize);
                    assert(list@.contains(j as usize));
                    let k = choose|k: int| 0 <= k < list@.len() && list@[k] == j as usize;
                    assert(found[k] == r@[k]@);
                }
            }
        }
        r
    }
}

impl TopDownTa for Explicit {
    /// The transitions into `parent` in rule order; none when it is no state.
    fn step_topdown(&self, parent: &StateId) -> (r: Vec<Expansion<StateId>>) {
        proof {
            use_type_invariant(self);
        }
        let mut r: Vec<Expansion<StateId>> = Vec::new();
        let ghost shapes = automaton::rule_shapes(self@.rules);
        if parent.is_stuck() || parent.index() >= self.by_result.len() {
            proof {
                assert forall|f: Symbol, children: Seq<StateId>| !self.steps_to(
                    f,
                    children,
                    *parent,
                ) by {
                    if self.steps_to(f, children, *parent) {
                        let j = choose|j: int|
                            0 <= j < self@.rules.len() && automaton::applies(
                                #[trigger] self@.rules[j],
                                f,
                                children,
                            ) && self@.rules[j].result == *parent;
                        assert(language_analysis::shape_below(shapes[j], self@.states));
                    }
                }
            }
            return r;
        }
        let rules = self.rules_topdown(*parent);
        let ghost list = language_analysis::rules_with_result(shapes, *parent);
        let mut i: usize = 0;
        while i < rules.len()
            invariant
                i <= rules@.len(),
                rules@.len() == list.len(),
                forall|j: int|
                    0 <= j < rules@.len() ==> (#[trigger] rules@[j])@ == self@.rules[list[j] as int],
                r@.len() == i,
                forall|j: int|
                    0 <= j < i ==> (#[trigger] r@[j])@ == (
                        self@.rules[list[j] as int].symbol,
                        self@.rules[list[j] as int].children,
                    ),
            decreases rules@.len() - i,
        {
            let rule = &rules[i];
            assert(rules@[i as int]@ == rule@);
            r.push(
                Expansion { symbol: rule.symbol, children: key_index::copy_states(rule.children) },
            );
            i += 1;
        }
        proof {
            let found = traits::expansions(r@);
            assert forall|f: Symbol, children: Seq<StateId>| #[trigger]
                found.contains((f, children)) <==> self.steps_to(f, children, *parent) by {
                if found.contains((f, children)) {
                    let j = choose|j: int| 0 <= j < found.len() && found[j] == (f, children);
                    assert(r@[j]@ == (f, children));
                    assert(list.contains(list[j]));
                    language_analysis::lemma_rules_with_result(shapes, *parent, list[j]);
                    assert(automaton::applies(self@.rules[list[j] as int], f, children));
                    assert(shapes[list[j] as int].result == *parent);
                }
                if self.steps_to(f, children, *parent) {
                    let j = choose|j: int|
                        0 <= j < self@.rules.len() && automaton::applies(
                            #[trigger] self@.rules[j],
                            f,
                            children,
                        ) && self@.rules[j].result == *parent;
                    language_analysis::lemma_rules_with_result(shapes, *parent, j as usize);
                    assert(shapes[j].result == *parent);
                    assert(list.contains(j as usize));
                    let k = choose|k: int| 0 <= k < list.len() && list[k] == j as usize;
                    assert(found[k] == r@[k]@);
                }
            }
        }
        r
    }

    /// The accepting states in increasing order.
    fn initial_states(&self) -> (r: Vec<StateId>)
        ensures
            forall|i: int, j: int| 0 <= i < j < r@.len() ==> (#[trigger] r@[i]).0 < (
            #[trigger] r@[j]).0,
    {
        self.accepting_states()
    }
}

impl StateUniverse for Explicit {
    open spec fn is_state(&self, q: StateId) -> bool {
        q.0 < self@.states
    }

    /// The states in increasing order.
    fn all_states(&self) -> (r: Vec<StateId>)
        ensures
            r@ == Seq::new(self@.states, |i: int| StateId(i as u32)),
    {
        let mut r: Vec<StateId> = Vec::new();
        let mut i: u32 = 0;
        while i < self.num_states
            invariant
                i <= self.num_states,
                r@.len() == i,
                forall|j: int| 0 <= j < i ==> #[trigger] r@[j] == StateId(j as u32),
            decreases self.num_states - i,
        {
            r.push(StateId(i));
            i += 1;
        }
        proof {
            assert(r@ =~= Seq::new(self@.states, |j: int| StateId(j as u32)));
            assert forall|q: StateId| #[trigger] r@.contains(q) <==> self.is_state(q) by {
                if q.0 < self@.states {
                    assert(r@[q.0 as int] == q);
                }
            }
        }
        r
    }
}

impl CondensedTa for Explicit {
    open spec fn lists(&self, f: Symbol, children: Seq<StateId>, q: StateId) -> bool {
        self.steps_to(f, children, q)
    }

    fn condensed_rules(&self) -> (r: Vec<CondensedRule<StateId>>)
        ensures
            condensed::is_condensed(self@.rules, r@),
    {
        proof {
            use_type_invariant(self);
        }
        let mut r: Vec<CondensedRule<StateId>> = Vec::new();
        let mut i: usize = 0;
        while i < self.groups.len()
            invariant
                i <= self.groups@.len(),
                r@.len() == i,
                forall|j: int|
                    0 <= j < i ==> {
                        &&& (#[trigger] r@[j]).children@ == self.groups@[j].children@
                        &&& r@[j].symbols@ == self.groups@[j].symbols@
                        &&& r@[j].result == self.groups@[j].result
                    },
            decreases self.groups@.len() - i,
        {
            r.push(condensed::copy_group(&self.groups[i]));
            i += 1;
        }
        proof {
            assert forall|f: Symbol, children: Seq<StateId>, q: StateId| #[trigger]
                traits::some_covers(r@, f, children, q) <==> automaton::has_transition(
                self@.rules,
                f,
                children,
                q,
            ) by {
                assert(traits::some_covers(self.groups@, f, children, q)
                    <==> automaton::has_transition(self@.rules, f, children, q));
                if traits::some_covers(r@, f, children, q) {
                    let k = choose|k: int|
                        0 <= k < r@.len() && traits::condensed_covers(
                            #[trigger] r@[k],
                            f,
                            children,
                            q,
                        );
                    assert(traits::condensed_covers(self.groups@[k], f, children, q));
                }
                if traits::some_covers(self.groups@, f, children, q) {
                    let k = choose|k: int|
                        0 <= k < self.groups@.len() && traits::condensed_covers(
                            #[trigger] self.groups@[k],
                            f,
                            children,
                            q,
                        );
                    assert(traits::condensed_covers(r@[k], f, children, q));
                }
            }
            assert forall|k: int, l: int| 0 <= k < l < r@.len() implies condensed::group_less(
                (#[trigger] r@[k]).children@,
                r@[k].result,
                (#[trigger] r@[l]).children@,
                r@[l].result,
            ) by {
                assert(condensed::group_less(
                    self.groups@[k].children@,
                    self.groups@[k].result,
                    self.groups@[l].children@,
                    self.groups@[l].result,
                ));
            }
            assert forall|k: int| 0 <= k < r@.len() implies condensed::holds_symbol(
                #[trigger] r@[k],
            ) by {
                assert(condensed::holds_symbol(self.groups@[k]));
                let f = choose|f: Symbol| self.groups@[k].symbols@.contains(f);
                assert(r@[k].symbols@.contains(f));
            }
        }
        r
    }

    fn condensed_nullary_rules(&self) -> (r: Vec<CondensedRule<StateId>>) {
        proof {
            use_type_invariant(self);
        }
        let mut chosen: Vec<usize> = Vec::new();
        let mut i: usize = 0;
        while i < self.groups.len()
            invariant
                i <= self.groups@.len(),
                forall|j: int| 0 <= j < chosen@.len() ==> #[trigger] chosen@[j] < i,
                forall|k: usize| #[trigger]
                    chosen@.contains(k) <==> (k < i && self.groups@[k as int].children@.len()
                        == 0),
            decreases self.groups@.len() - i,
        {
            let ghost before = chosen@;
            if self.groups[i].children.len() == 0 {
                chosen.push(i);
            }
            proof {
                assert forall|k: usize| #[trigger] chosen@.contains(k) <==> (k < i + 1
                    && self.groups@[k as int].children@.len() == 0) by {
                    assert(before.contains(k) <==> (k < i && self.groups@[k as int].children@.len()
                        == 0));
                    crate::symbol_set::lemma_push_contains(before, i, k);
                }
            }
            i += 1;
        }
        let ghost picked = chosen@;
        let r = self.copied_groups(chosen);
        proof {
            assert forall|f: Symbol, children: Seq<StateId>, q: StateId| #[trigger]
                traits::some_covers(r@, f, children, q) <==> (children.len() == 0
                    && self.steps_to(f, children, q)) by {
                lemma_picked(
                    self.groups@,
                    picked,
                    |g: CondensedRule<StateId>| g.children@.len() == 0,
                    children.len() == 0,
                    f,
                    children,
                    q,
                );
                assert(traits::some_covers(self.groups@, f, children, q) <==> self.steps_to(
                    f,
                    children,
                    q,
                ));
            }
        }
        r
    }

    fn condensed_rules_by_child(&self, position: usize, state: &StateId) -> (r: Vec<
        CondensedRule<StateId>,
    >) {
        proof {
            use_type_invariant(self);
        }
        let mut chosen: Vec<usize> = Vec::new();
        let mut i: usize = 0;
        while i < self.groups.len()
            invariant
                i <= self.groups@.len(),
                forall|j: int| 0 <= j < chosen@.len() ==> #[trigger] chosen@[j] < i,
                forall|k: usize| #[trigger]
                    chosen@.contains(k) <==> (k < i && position
                        < self.groups@[k as int].children@.len()
                        && self.groups@[k as int].children@[position as int] == *state),
            decreases self.groups@.len() - i,
        {
            let ghost before = chosen@;
            let children = &self.groups[i].children;
            if position < children.len() && children[position].0 == state.0 {
                chosen.push(i);
            }
            proof {
                assert forall|k: usize| #[trigger] chosen@.contains(k) <==> (k < i + 1 && position
                    < self.groups@[k as int].children@.len()
                    && self.groups@[k as int].children@[position as int] == *state) by {
                    assert(before.contains(k) <==> (k < i && position
                        < self.groups@[k as int].children@.len()
                        && self.groups@[k as int].children@[position as int] == *state));
                    crate::symbol_set::lemma_push_contains(before, i, k);
                }
            }
            i += 1;
        }
        let ghost picked = chosen@;
        let r = self.copied_groups(chosen);
        proof {
            assert forall|f: Symbol, children: Seq<StateId>, q: StateId| #[trigger]
                traits::some_covers(r@, f, children, q) <==> (position < children.len()
                    && children[position as int] == *state && self.steps_to(
                    f,
                    children,
                    q,
                )) by {
                lemma_picked(
                    self.groups@,
                    picked,
                    |g: CondensedRule<StateId>|
                        position < g.children@.len() && g.children@[position as int] == *state,
                    position < children.len() && children[position as int] == *state,
                    f,
                    children,
                    q,
                );
                assert(traits::some_covers(self.groups@, f, children, q) <==> self.steps_to(
                    f,
                    children,
                    q,
                ));
            }
        }
        r
    }
}

/// Whether one of the picked groups covers a transition.
spec fn picked_covers(
    groups: Seq<CondensedRule<StateId>>,
    picked: Seq<usize>,
    f: Symbol,
    children: Seq<StateId>,
    q: StateId,
) -> bool {
    exists|i: int|
        0 <= i < picked.len() && traits::condensed_covers(
            groups[#[trigger] picked[i] as int],
            f,
            children,
            q,
        )
}

/// Picking the groups that pass a test, which all groups that cover a transition
/// pass or fail alike, keeps the transition or drops it.
proof fn lemma_picked(
    groups: Seq<CondensedRule<StateId>>,
    picked: Seq<usize>,
    test: spec_fn(CondensedRule<StateId>) -> bool,
    passes: bool,
    f: Symbol,
    children: Seq<StateId>,
    q: StateId,
)
    requires
        groups.len() <= usize::MAX,
        forall|k: usize| #[trigger]
            picked.contains(k) <==> (k < groups.len() && test(groups[k as int])),
        forall|k: int|
            0 <= k < groups.len() && traits::condensed_covers(#[trigger] groups[k], f, children, q)
                ==> test(groups[k]) == passes,
    ensures
        picked_covers(groups, picked, f, children, q) <==> (passes && traits::some_covers(
            groups,
            f,
            children,
            q,
        )),
{
    if picked_covers(groups, picked, f, children, q) {
        let i = choose|i: int|
            0 <= i < picked.len() && traits::condensed_covers(
                groups[#[trigger] picked[i] as int],
                f,
                children,
                q,
            );
        assert(picked.contains(picked[i]));
        assert(traits::condensed_covers(groups[picked[i] as int], f, children, q));
    }
    if passes && traits::some_covers(groups, f, children, q) {
        let k = choose|k: int|
            0 <= k < groups.len() && traits::condensed_covers(
                #[trigger] groups[k],
                f,
                children,
                q,
            );
        assert(picked.contains(k as usize));
        let i = choose|i: int| 0 <= i < picked.len() && picked[i] == k as usize;
        assert(traits::condensed_covers(groups[picked[i] as int], f, children, q));
    }
}

impl CondensedTopDownTa for Explicit {
    open spec fn expands(&self, f: Symbol, children: Seq<StateId>, q: StateId) -> bool {
        self.steps_to(f, children, q)
    }

    fn condensed_rules_by_parent(&self, parent: &StateId) -> (r: Vec<CondensedRule<StateId>>) {
        proof {
            use_type_invariant(self);
        }
        let mut chosen: Vec<usize> = Vec::new();
        let mut i: usize = 0;
        while i < self.groups.len()
            invariant
                i <= self.groups@.len(),
                forall|j: int| 0 <= j < chosen@.len() ==> #[trigger] chosen@[j] < i,
                forall|k: usize| #[trigger]
                    chosen@.contains(k) <==> (k < i && self.groups@[k as int].result == *parent),
            decreases self.groups@.len() - i,
        {
            let ghost before = chosen@;
            if self.groups[i].result.0 == parent.0 {
                chosen.push(i);
            }
            proof {
                assert forall|k: usize| #[trigger] chosen@.contains(k) <==> (k < i + 1
                    && self.groups@[k as int].result == *parent) by {
                    assert(before.contains(k) <==> (k < i && self.groups@[k as int].result
                        == *parent));
                    crate::symbol_set::lemma_push_contains(before, i, k);
                }
            }
            i += 1;
        }
        let ghost picked = chosen@;
        let r = self.copied_groups(chosen);
        proof {
            assert forall|f: Symbol, children: Seq<StateId>, q: StateId| #[trigger]
                traits::some_covers(r@, f, children, q) <==> (q == *parent && self.steps_to(
                f,
                children,
                q,
            )) by {
                lemma_picked(
                    self.groups@,
                    picked,
                    |g: CondensedRule<StateId>| g.result == *parent,
                    q == *parent,
                    f,
                    children,
                    q,
                );
                assert(traits::some_covers(self.groups@, f, children, q) <==> self.steps_to(
                    f,
                    children,
                    q,
                ));
            }
        }
        r
    }

    fn condensed_initial_states(&self) -> (r: Vec<StateId>) {
        self.accepting_states()
    }
}

} // verus!
