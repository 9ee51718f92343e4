//! The part of an automaton that accepting derivations use.
use crate::automaton;
use crate::automaton::Automaton;
use crate::explicit::Explicit;
use crate::finite_language::forests;
use crate::finite_language::forests::{Node, Slot};
use crate::ids::{StateId, Symbol};
use crate::key_index::copy_states;
use crate::language_analysis;
use crate::language_cardinality;
use crate::runs;
use crate::runs::Run;
use crate::traits::BottomUpTa;
use crate::weight::Weight;
use vstd::prelude::*;

verus! {

/// Why no plan can be made.
#[derive(Clone, Copy, Debug, PartialEq, Eq)]
pub enum FiniteLanguageError {
    /// A productive cycle can take part in an accepting derivation.
    InfiniteLanguage,
}

/// A rule that occurs in accepting derivations.
#[derive(Debug)]
pub struct PlannedRule {
    pub(crate) original_index: usize,
    pub(crate) symbol: Symbol,
    pub(crate) children: Vec<StateId>,
    pub(crate) weight: Weight,
}

impl PlannedRule {
    /// Whether this is rule number `original_index` of the automaton.
    pub open spec fn stands_for(&self, a: Automaton) -> bool {
        &&& self.number() < a.rules.len()
        &&& a.rules[self.number() as int].symbol == self.label()
        &&& a.rules[self.number() as int].children == self.below()
        &&& a.rules[self.number() as int].weight == self.cost()
    }

    /// The number of the rule in the automaton.
    pub closed spec fn number(&self) -> nat {
        self.original_index as nat
    }

    pub closed spec fn label(&self) -> Symbol {
        self.symbol
    }

    pub closed spec fn below(&self) -> Seq<StateId> {
        self.children@
    }

    pub closed spec fn cost(&self) -> Weight {
        self.weight
    }

    /// Relates the model of a planned rule to its fields.
    pub(crate) proof fn lemma_fields(&self)
        ensures
            self.number() == self.original_index,
            self.label() == self.symbol,
            self.below() == self.children@,
            self.cost() == self.weight,
    {
    }
}

/// The accepting states among the first `n` that some derivation ends in.
pub open spec fn roots_below(a: Automaton, n: nat) -> Seq<StateId>
    decreases n,
{
    if n == 0 {
        Seq::empty()
    } else {
        let earlier = roots_below(a, (n - 1) as nat);
        let q = StateId((n - 1) as u32);
        if a.accepting.contains(q) && a.productive(q) {
            earlier.push(q)
        } else {
            earlier
        }
    }
}

/// The accepting states that some derivation ends in, in increasing order.
pub open spec fn roots(a: Automaton) -> Seq<StateId> {
    roots_below(a, a.states)
}

/// The slot of a root.
pub open spec fn root_slot(q: StateId) -> Slot {
    Slot { state: q, place: None, choice: 0 }
}

/// The nodes of a derivation in root-first, left-to-right pre-order.
pub open spec fn derivation_nodes(a: Automaton, run: Run) -> Seq<Node> {
    forests::nodes_of(a, run, root_slot(a.rules[run.rule as int].result), 0)
}

/// The node sequences of derivations.
pub open spec fn node_lists(a: Automaton, list: Seq<Run>) -> Seq<Seq<Node>> {
    Seq::new(list.len(), |j: int| derivation_nodes(a, list[j]))
}

/// The accepting derivations of an automaton with a finite language, each as its nodes
/// in pre-order.
pub open spec fn derivations(a: Automaton) -> Seq<Seq<Node>> {
    node_lists(a, runs::accepting_runs(a, a.states))
}

/// The derivations that end in the listed states, by state.
pub open spec fn rooted_words(a: Automaton, list: Seq<StateId>) -> Seq<Seq<Node>>
    decreases list.len(),
{
    if list.len() == 0 {
        Seq::empty()
    } else {
        rooted_words(a, list.drop_last()) + forests::words(a, seq![root_slot(list.last())], 0)
    }
}

pub proof fn lemma_rooted_words_first(a: Automaton, list: Seq<StateId>)
    requires
        list.len() > 0,
    ensures
        rooted_words(a, list) == forests::words(a, seq![root_slot(list[0])], 0) + rooted_words(
            a,
            list.skip(1),
        ),
    decreases list.len(),
{
    if list.len() == 1 {
        assert(list.drop_last() =~= Seq::empty());
        assert(list.skip(1) =~= Seq::empty());
        assert(rooted_words(a, list) =~= forests::words(a, seq![root_slot(list[0])], 0)
            + rooted_words(a, list.skip(1)));
    } else {
        lemma_rooted_words_first(a, list.drop_last());
        assert(list.drop_last().skip(1) =~= list.skip(1).drop_last());
        assert(list.skip(1).last() == list.last());
        assert(rooted_words(a, list) =~= forests::words(a, seq![root_slot(list[0])], 0)
            + rooted_words(a, list.skip(1)));
    }
}

/// An accepting state that some derivation ends in is relevant and has an option.
pub proof fn lemma_root_fillable(a: Automaton, order: Seq<StateId>, q: StateId)
    requires
        forests::finite(a, order),
        a.accepting.contains(q),
        a.productive(q),
    ensures
        forests::slot_fillable(a, root_slot(q)),
        a.relevant(q),
{
    let rules = automaton::rule_shapes(a.rules);
    assert(language_analysis::productive_roots(rules, a.accepting).contains(q));
    assert(a.relevant(q));
    forests::lemma_some_option(a, order, q);
}

/// What fills a root slot are the derivations that end in its state.
pub proof fn lemma_root_words(a: Automaton, order: Seq<StateId>, q: StateId)
    requires
        forests::finite(a, order),
        a.relevant(q),
    ensures
        forests::words(a, seq![root_slot(q)], 0) == node_lists(
            a,
            runs::runs_of(automaton::rule_shapes(a.rules), q, a.states),
        ),
{
    let rules = automaton::rule_shapes(a.rules);
    let slots = seq![root_slot(q)];
    let list = runs::runs_of(rules, q, a.states);
    forests::lemma_runs_by_options(a, order, q);
    assert(forests::options(a, q).skip(0) =~= forests::options(a, q));
    assert(forests::slot_runs(a, root_slot(q)) == list);
    forests::lemma_single_slot(a, root_slot(q));
    let words = forests::words(a, slots, 0);
    runs::law_runs_complete(rules, q, a.states);
    assert forall|j: int| 0 <= j < list.len() implies words[j] == derivation_nodes(a, list[j]) by {
        assert(list.contains(list[j]));
        assert(runs::is_run(rules, list[j], q));
        assert(a.rules[list[j].rule as int].result == q);
        let tuple = seq![list[j]];
        let first = forests::nodes_of(a, list[j], root_slot(q), 0);
        assert(forests::nodes_in(a, tuple.skip(1), slots.skip(1), first.len()).len() == 0);
        assert(forests::nodes_in(a, tuple, slots, 0) =~= forests::nodes_of(
            a,
            list[j],
            root_slot(q),
            0,
        ));
    }
    assert(words =~= node_lists(a, list));
}

/// The accepting derivations are those that end in the roots.
pub proof fn lemma_derivations(a: Automaton, order: Seq<StateId>, n: nat)
    requires
        forests::finite(a, order),
        n <= a.states,
    ensures
        node_lists(a, runs::accepting_runs_below(a, a.states, n)) == rooted_words(
            a,
            roots_below(a, n),
        ),
    decreases n,
{
    let rules = automaton::rule_shapes(a.rules);
    if n > 0 {
        lemma_derivations(a, order, (n - 1) as nat);
        let q = StateId((n - 1) as u32);
        let earlier = runs::accepting_runs_below(a, a.states, (n - 1) as nat);
        if a.accepting.contains(q) {
            if a.productive(q) {
                lemma_root_fillable(a, order, q);
                lemma_root_words(a, order, q);
                let list = roots_below(a, (n - 1) as nat);
                assert(list.push(q).drop_last() =~= list);
            } else {
                runs::lemma_unproductive_empty(rules, q, a.states);
            }
            assert(node_lists(a, earlier + runs::runs_of(rules, q, a.states)) =~= node_lists(
                a,
                earlier,
            ) + node_lists(a, runs::runs_of(rules, q, a.states)));
            if !a.productive(q) {
                assert(node_lists(a, runs::accepting_runs_below(a, a.states, n)) =~= node_lists(
                    a,
                    earlier,
                ));
            }
        }
    } else {
        assert(node_lists(a, runs::accepting_runs_below(a, a.states, n)) =~= Seq::empty());
    }
}

/// The roots are accepting and productive states in increasing order.
pub proof fn lemma_roots(a: Automaton, n: nat)
    requires
        n <= a.states,
        a.states <= u32::MAX,
    ensures
        forall|k: int|
            0 <= k < roots_below(a, n).len() ==> (#[trigger] roots_below(a, n)[k]).0 < n
                && a.accepting.contains(roots_below(a, n)[k]) && a.productive(
                roots_below(a, n)[k],
            ),
        forall|i: int, j: int|
            0 <= i < j < roots_below(a, n).len() ==> roots_below(a, n)[i].0 < roots_below(
                a,
                n,
            )[j].0,
    decreases n,
{
    if n > 0 {
        lemma_roots(a, (n - 1) as nat);
        let earlier = roots_below(a, (n - 1) as nat);
        let all = roots_below(a, n);
        assert forall|k: int| 0 <= k < all.len() implies (#[trigger] all[k]).0 < n
            && a.accepting.contains(all[k]) && a.productive(all[k]) by {
            if k < earlier.len() {
                assert(all[k] == earlier[k]);
            }
        }
        assert forall|i: int, j: int| 0 <= i < j < all.len() implies all[i].0 < all[j].0 by {
            assert(all[i] == earlier[i]);
            if j < earlier.len() {
                assert(all[j] == earlier[j]);
            }
        }
    }
}

/// Whether `list` numbers, among `rules`, the given rules of the automaton.
pub open spec fn numbers(rules: Seq<PlannedRule>, list: Seq<usize>, options: Seq<nat>) -> bool {
    &&& list.len() == options.len()
    &&& forall|c: int|
        0 <= c < list.len() ==> (#[trigger] list[c]) < rules.len() && rules[list[c] as int].number()
            == options[c]
}

/// Reusable plan for enumerating a finite derivation language.
///
/// Making a plan discards rules that occur in no accepting derivation. Only cycles
/// among the rest are refused. The plan owns the rules it needs, so it may outlive the
/// automaton, and any number of independent iterators can use it.
pub struct FiniteLanguagePlan {
    accepting: Vec<StateId>,
    rules: Vec<PlannedRule>,
    rules_by_state: Vec<Vec<usize>>,
    topological: Vec<StateId>,
    source: Ghost<Automaton>,
}

impl View for FiniteLanguagePlan {
    type V = Automaton;

    /// The automaton that was planned for.
    closed spec fn view(&self) -> Automaton {
        self.source@
    }
}

impl FiniteLanguagePlan {
    /// A child-first order of the states that accepting derivations use.
    pub closed spec fn order(&self) -> Seq<StateId> {
        self.topological@
    }

    /// The planned rules.
    pub closed spec fn planned(&self) -> Seq<PlannedRule> {
        self.rules@
    }

    #[verifier::type_invariant]
    spec fn wf(&self) -> bool {
        &&& forests::finite(self@, self.topological@)
        &&& !language_cardinality::is_infinite(self@)
        &&& self.accepting@ == roots(self@)
        &&& forall|j: int|
            0 <= j < self.rules@.len() ==> (#[trigger] self.rules@[j]).stands_for(self@)
        &&& self.rules_by_state@.len() == self@.states
        &&& forall|s: int|
            0 <= s < self.rules_by_state@.len() ==> numbers(
                self.rules@,
                (#[trigger] self.rules_by_state@[s])@,
                forests::options(self@, StateId(s as u32)),
            )
    }

    /// What every plan satisfies.
    pub(crate) fn check(&self)
        ensures
            forests::finite(self@, self.order()),
            !language_cardinality::is_infinite(self@),
    {
        proof {
            use_type_invariant(self);
        }
    }

    /// The number of states of the automaton.
    pub(crate) fn num_states(&self) -> (n: usize)
        ensures
            n == self@.states,
    {
        proof {
            use_type_invariant(self);
        }
        self.rules_by_state.len()
    }

    /// The states that accepting derivations use, children first.
    pub(crate) fn child_first(&self) -> (r: &Vec<StateId>)
        ensures
            r@ == self.order(),
    {
        &self.topological
    }

    /// The accepting states that some derivation ends in.
    pub(crate) fn accepting(&self) -> (r: &Vec<StateId>)
        ensures
            r@ == roots(self@),
    {
        proof {
            use_type_invariant(self);
        }
        &self.accepting
    }

    /// The number of options of a state.
    pub(crate) fn option_count(&self, q: StateId) -> (n: usize)
        requires
            q.0 < self@.states,
        ensures
            n == forests::options(self@, q).len(),
    {
        proof {
            use_type_invariant(self);
            let s = q.0 as int;
            assert(StateId(s as u32) == q);
            assert(numbers(
                self.rules@,
                self.rules_by_state@[s]@,
                forests::options(self@, StateId(s as u32)),
            ));
        }
        self.rules_by_state[q.index()].len()
    }

    /// The rule of an option.
    pub(crate) fn option(&self, q: StateId, choice: usize) -> (r: &PlannedRule)
        requires
            q.0 < self@.states,
            choice < forests::options(self@, q).len(),
        ensures
            r.number() == forests::options(self@, q)[choice as int],
            r.stands_for(self@),
    {
        proof {
            use_type_invariant(self);
            let s = q.0 as int;
            assert(StateId(s as u32) == q);
            assert(numbers(
                self.rules@,
                self.rules_by_state@[s]@,
                forests::options(self@, StateId(s as u32)),
            ));
            let j = self.rules_by_state@[s]@[choice as int];
            assert(self.rules@[j as int].stands_for(self@));
        }
        &self.rules[self.rules_by_state[q.index()][choice]]
    }

    /// Analyses and copies the finite accepting part of `automaton`.
    ///
    /// Enumeration concerns accepting derivations, not distinct labelled trees:
    /// ambiguous runs are kept apart. Weights are copied but do not matter.
    pub fn new(automaton: &Explicit) -> (r: Result<Self, FiniteLanguageError>)
        ensures
            match r {
                Ok(plan) => plan@ == automaton@ && !language_cardinality::is_infinite(automaton@),
                Err(FiniteLanguageError::InfiniteLanguage) => language_cardinality::is_infinite(
                    automaton@,
                ),
            },
    {
        let analysis = automaton.analyze();
        let ghost a = automaton@;
        let ghost shapes = automaton::rule_shapes(a.rules);
        proof {
            use_type_invariant(automaton);
            automaton.lemma_well_formed();
        }
        let topological = match analysis.topological {
            Some(order) => order,
            None => {
                return Err(FiniteLanguageError::InfiniteLanguage);
            },
        };
        let n: usize = automaton.num_states() as usize;
        let mut accepting: Vec<StateId> = Vec::new();
        let mut s: usize = 0;
        while s < n
            invariant
                s <= n,
                n == a.states,
                n <= u32::MAX,
                a == automaton@,
                shapes == automaton::rule_shapes(a.rules),
                analysis.productive@.len() == n,
                forall|t: int|
                    0 <= t < n ==> #[trigger] analysis.productive@[t]
                        == language_analysis::is_productive(shapes, StateId(t as u32)),
                accepting@ == roots_below(a, s as nat),
            decreases n - s,
        {
            let q = StateId(s as u32);
            assert(analysis.productive@[s as int] == a.productive(q));
            if automaton.is_accepting(&q) && analysis.productive[s] {
                accepting.push(q);
            }
            s += 1;
        }
        let mut rules: Vec<PlannedRule> = Vec::new();
        let mut rules_by_state: Vec<Vec<usize>> = Vec::new();
        let mut t: usize = 0;
        while t < n
            invariant
                t <= n,
                rules_by_state@.len() == t,
                forall|u: int| 0 <= u < t ==> (#[trigger] rules_by_state@[u])@.len() == 0,
            decreases n - t,
        {
            rules_by_state.push(Vec::new());
            t += 1;
        }
        let mut i: usize = 0;
        proof {
            assert forall|u: int| 0 <= u < n implies numbers(
                rules@,
                (#[trigger] rules_by_state@[u])@,
                forests::options_below(a, StateId(u as u32), 0),
            ) by {}
        }
        while i < automaton.num_rules()
            invariant
                i <= a.rules.len(),
                n == a.states,
                n <= u32::MAX,
                a == automaton@,
                a.well_formed(),
                shapes == automaton::rule_shapes(a.rules),
                analysis.productive_rules@.len() == a.rules.len(),
                analysis.relevant@.len() == n,
                forall|j: int|
                    0 <= j < a.rules.len() ==> #[trigger] analysis.productive_rules@[j]
                        == language_analysis::rule_productive(shapes, j),
                forall|u: int|
                    0 <= u < n ==> #[trigger] analysis.relevant@[u]
                        == language_analysis::is_relevant(
                        shapes,
                        a.accepting,
                        StateId(u as u32),
                    ),
                forall|j: int| 0 <= j < rules@.len() ==> (#[trigger] rules@[j]).stands_for(a),
                rules_by_state@.len() == n,
                forall|u: int|
                    0 <= u < n ==> numbers(
                        rules@,
                        (#[trigger] rules_by_state@[u])@,
                        forests::options_below(a, StateId(u as u32), i as nat),
                    ),
            decreases a.rules.len() - i,
        {
            let rule = automaton.rule(i);
            let result = rule.result;
            let ghost done = rules@;
            let ghost lists = rules_by_state@;
            proof {
                assert(language_analysis::shape_below(shapes[i as int], n as nat));
                assert(shapes[i as int].result == result);
                assert(StateId(result.0 as int as u32) == result);
                assert(analysis.relevant@[result.0 as int] == a.relevant(result));
                assert(analysis.productive_rules@[i as int] == language_analysis::rule_productive(
                    shapes,
                    i as int,
                ));
            }
            if analysis.productive_rules[i] && analysis.relevant[result.index()] {
                let plan_index: usize = rules.len();
                let planned = PlannedRule {
                    original_index: i,
                    symbol: rule.symbol,
                    children: copy_states(rule.children),
                    weight: rule.weight,
                };
                proof {
                    planned.lemma_fields();
                    assert(planned.children@ =~= rule.children@);
                    assert(planned.stands_for(a));
                }
                rules.push(planned);
                rules_by_state[result.index()].push(plan_index);
            }
            i += 1;
            proof {
                assert forall|u: int| 0 <= u < n implies numbers(
                    rules@,
                    (#[trigger] rules_by_state@[u])@,
                    forests::options_below(a, StateId(u as u32), i as nat),
                ) by {
                    let q = StateId(u as u32);
                    let old_list = lists[u]@;
                    assert(numbers(done, old_list, forests::options_below(a, q, (i - 1) as nat)));
                    let list = rules_by_state@[u]@;
                    assert forall|c: int| 0 <= c < list.len() implies (#[trigger] list[c])
                        < rules@.len() && rules@[list[c] as int].number() == forests::options_below(
                        a,
                        q,
                        i as nat,
                    )[c] by {
                        if c < old_list.len() {
                            assert(list[c] == old_list[c]);
                            assert(rules@[list[c] as int] == done[old_list[c] as int]);
                        }
                    }
                }
            }
        }
        proof {
            assert forall|u: int| 0 <= u < n implies numbers(
                rules@,
                (#[trigger] rules_by_state@[u])@,
                forests::options(a, StateId(u as u32)),
            ) by {
                assert(numbers(
                    rules@,
                    rules_by_state@[u]@,
                    forests::options_below(a, StateId(u as u32), i as nat),
                ));
            }
        }
        Ok(
            FiniteLanguagePlan {
                accepting,
                rules,
                rules_by_state,
                topological,
                source: Ghost(a),
            },
        )
    }
}

} // verus!
