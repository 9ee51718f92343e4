//! Counting the derivations of a plan.
use crate::automaton;
use crate::automaton::Automaton;
use crate::finite_language::forests;
use crate::finite_language::plan;
use crate::finite_language::plan::FiniteLanguagePlan;
use crate::ids::StateId;
use crate::language_analysis;
use crate::language_cardinality;
use crate::language_cardinality::{CheckedCount, LanguageCardinality};
use crate::runs;
use vstd::prelude::*;

verus! {

/// The number of derivations that apply the first `c` options of a state at the root.
spec fn options_count(a: Automaton, q: StateId, c: int) -> nat {
    forests::rooted_in(a, forests::options(a, q).take(c)).len()
}

/// The number of derivations that apply rule `i` at the root.
spec fn rule_count(a: Automaton, i: nat) -> nat {
    runs::tuple_count(automaton::rule_shapes(a.rules), a.rules[i as int].children, a.states)
}

proof fn lemma_options_count(a: Automaton, q: StateId, c: int)
    requires
        0 <= c < forests::options(a, q).len(),
    ensures
        options_count(a, q, c + 1) == options_count(a, q, c) + rule_count(
            a,
            forests::options(a, q)[c],
        ),
        options_count(a, q, c + 1) <= forests::rooted_in(a, forests::options(a, q)).len(),
    decreases forests::options(a, q).len() - c,
{
    let list = forests::options(a, q);
    assert(list.take(c + 1).drop_last() =~= list.take(c));
    assert(list.take(c + 1).last() == list[c]);
    runs::lemma_tuple_count(
        automaton::rule_shapes(a.rules),
        a.rules[list[c] as int].children,
        a.states,
    );
    if c + 1 < list.len() {
        lemma_options_count(a, q, c + 1);
    } else {
        assert(list.take(c + 1) =~= list);
    }
}

/// The number of derivations that end in one of the first `k` roots.
spec fn roots_count(a: Automaton, k: int) -> nat {
    plan::rooted_words(a, plan::roots(a).take(k)).len()
}

proof fn lemma_roots_count(a: Automaton, order: Seq<StateId>, k: int)
    requires
        forests::finite(a, order),
        0 <= k < plan::roots(a).len(),
    ensures
        roots_count(a, k + 1) == roots_count(a, k) + runs::runs_of(
            automaton::rule_shapes(a.rules),
            plan::roots(a)[k],
            a.states,
        ).len(),
        roots_count(a, k + 1) <= language_cardinality::derivation_count(a),
    decreases plan::roots(a).len() - k,
{
    let list = plan::roots(a);
    assert(list.take(k + 1).drop_last() =~= list.take(k));
    assert(list.take(k + 1).last() == list[k]);
    plan::lemma_roots(a, a.states);
    plan::lemma_root_fillable(a, order, list[k]);
    plan::lemma_root_words(a, order, list[k]);
    if k + 1 < list.len() {
        lemma_roots_count(a, order, k + 1);
    } else {
        assert(list.take(k + 1) =~= list);
        plan::lemma_derivations(a, order, a.states);
    }
}

impl FiniteLanguagePlan {
    /// Counts this plan's derivations with checked arithmetic.
    pub fn language_cardinality_as<N: CheckedCount>(&self) -> (r: LanguageCardinality<N>)
        ensures
            language_cardinality::is_cardinality(self@, r),
    {
        self.check();
        let ghost a = self@;
        let ghost rules = automaton::rule_shapes(a.rules);
        let order = self.child_first();
        proof {
            language_cardinality::lemma_order_len(rules, a.accepting, order@, a.states);
        }
        let n: usize = self.num_states();
        let mut counts: Vec<N> = Vec::new();
        let mut s: usize = 0;
        while s < n
            invariant
                s <= n,
                counts@.len() == s,
            decreases n - s,
        {
            counts.push(N::zero());
            s += 1;
        }
        let mut b: usize = 0;
        while b < order.len()
            invariant
                b <= order@.len(),
                a == self@,
                rules == automaton::rule_shapes(a.rules),
                n == a.states,
                order@ == self.order(),
                order@.len() <= n,
                forests::finite(a, order@),
                !language_cardinality::is_infinite(a),
                forall|c: int| 0 <= c < order@.len() ==> (#[trigger] order@[c]).0 < n,
                counts@.len() == n,
                forall|c: int|
                    0 <= c < b ==> counts@[(#[trigger] order@[c]).0 as int].value()
                        == runs::runs_of(rules, order@[c], a.states).len(),
            decreases order@.len() - b,
        {
            let state = order[b];
            proof {
                assert(order@.contains(state));
            }
            let count = match self.count_state(&counts, state, Ghost(b as int)) {
                Some(count) => count,
                None => {
                    proof {
                        language_cardinality::lemma_relevant_count(a, order@, state);
                        if N::fits(language_cardinality::derivation_count(a)) {
                            N::fits_downward(
                                runs::runs_of(rules, state, a.states).len(),
                                language_cardinality::derivation_count(a),
                            );
                        }
                    }
                    return LanguageCardinality::TooLarge;
                },
            };
            let ghost before = counts@;
            counts[state.index()] = count;
            proof {
                assert forall|c: int| 0 <= c < b + 1 implies counts@[(
                #[trigger] order@[c]).0 as int].value() == runs::runs_of(
                    rules,
                    order@[c],
                    a.states,
                ).len() by {
                    if c < b {
                        assert(order@[c] != order@[b as int]);
                        assert(counts@[order@[c].0 as int] == before[order@[c].0 as int]);
                    }
                }
            }
            b += 1;
        }
        let accepting = self.accepting();
        let mut total = N::zero();
        let mut k: usize = 0;
        assert(plan::roots(a).take(0) =~= Seq::empty());
        while k < accepting.len()
            invariant
                k <= accepting@.len(),
                a == self@,
                accepting@ == plan::roots(a),
                rules == automaton::rule_shapes(a.rules),
                n == a.states,
                order@ == self.order(),
                forests::finite(a, order@),
                !language_cardinality::is_infinite(a),
                counts@.len() == n,
                forall|c: int|
                    0 <= c < order@.len() ==> counts@[(#[trigger] order@[c]).0 as int].value()
                        == runs::runs_of(rules, order@[c], a.states).len(),
                total.value() == roots_count(a, k as int),
            decreases accepting@.len() - k,
        {
            let state = accepting[k];
            proof {
                plan::lemma_roots(a, a.states);
                plan::lemma_root_fillable(a, order@, state);
                assert(order@.contains(state));
                let c = choose|c: int| 0 <= c < order@.len() && order@[c] == state;
                assert(counts@[order@[c].0 as int].value() == runs::runs_of(
                    rules,
                    state,
                    a.states,
                ).len());
                lemma_roots_count(a, order@, k as int);
            }
            match total.checked_add(&counts[state.index()]) {
                Some(next) => {
                    total = next;
                },
                None => {
                    proof {
                        if N::fits(language_cardinality::derivation_count(a)) {
                            N::fits_downward(
                                roots_count(a, k + 1),
                                language_cardinality::derivation_count(a),
                            );
                        }
                    }
                    return LanguageCardinality::TooLarge;
                },
            }
            k += 1;
        }
        proof {
            assert(plan::roots(a).take(k as int) =~= plan::roots(a));
            plan::lemma_derivations(a, order@, a.states);
        }
        LanguageCardinality::Finite(total)
    }

    /// The number of derivations that end in a state, when it is representable.
    fn count_state<N: CheckedCount>(
        &self,
        counts: &Vec<N>,
        state: StateId,
        Ghost(b): Ghost<int>,
    ) -> (r: Option<N>)
        requires
            0 <= b < self.order().len(),
            self.order()[b] == state,
            state.0 < self@.states,
            counts@.len() == self@.states,
            forall|c: int|
                0 <= c < b ==> counts@[(#[trigger] self.order()[c]).0 as int].value()
                    == runs::runs_of(
                    automaton::rule_shapes(self@.rules),
                    self.order()[c],
                    self@.states,
                ).len(),
        ensures
            match r {
                Some(count) => count.value() == runs::runs_of(
                    automaton::rule_shapes(self@.rules),
                    state,
                    self@.states,
                ).len(),
                None => !N::fits(
                    runs::runs_of(
                        automaton::rule_shapes(self@.rules),
                        state,
                        self@.states,
                    ).len(),
                ),
            },
    {
        self.check();
        let ghost a = self@;
        let ghost order = self.order();
        let ghost rules = automaton::rule_shapes(a.rules);
        let ghost k = a.states;
        let ghost whole = runs::runs_of(rules, state, k).len();
        let ghost list = forests::options(a, state);
        proof {
            assert(order.contains(state));
            forests::lemma_runs_by_options(a, order, state);
            forests::lemma_options(a, state, a.rules.len());
            language_cardinality::lemma_order_len(rules, a.accepting, order, k);
            assert(list.take(0) =~= Seq::empty());
        }
        let n: usize = self.option_count(state);
        let mut total = N::zero();
        let mut c: usize = 0;
        while c < n
            invariant
                c <= n,
                a == self@,
                order == self.order(),
                forests::finite(a, order),
                order.len() <= k,
                rules == automaton::rule_shapes(a.rules),
                k == a.states,
                state.0 < k,
                list == forests::options(a, state),
                n == list.len(),
                whole == forests::rooted_in(a, list).len(),
                whole == runs::runs_of(rules, state, k).len(),
                0 <= b < order.len(),
                order[b] == state,
                counts@.len() == k,
                forall|j: int|
                    0 <= j < list.len() ==> (#[trigger] list[j]) < a.rules.len()
                        && a.rules[list[j] as int].result == state && a.live(list[j] as int),
                forall|d: int|
                    0 <= d < b ==> counts@[(#[trigger] order[d]).0 as int].value()
                        == runs::runs_of(rules, order[d], k).len(),
                total.value() == options_count(a, state, c as int),
            decreases n - c,
        {
            let rule = self.option(state, c);
            let ghost i = list[c as int] as int;
            let ghost states = a.rules[i].children;
            proof {
                rule.lemma_fields();
                lemma_options_count(a, state, c as int);
                assert(rules[i].children == states);
                assert forall|p: int| 0 <= p < states.len() implies runs::runs_of(
                    rules,
                    #[trigger] states[p],
                    k,
                ).len() > 0 && states[p].0 < k && counts@[states[p].0 as int].value()
                    == runs::runs_of(rules, states[p], k).len() by {
                    language_cardinality::lemma_child_stable(rules, a.accepting, order, i, p, k);
                    assert(language_analysis::is_productive(rules, rules[i].children[p]));
                    language_cardinality::lemma_relevant_has_run(
                        rules,
                        a.accepting,
                        order,
                        states[p],
                        k,
                    );
                    assert(order.contains(states[p]));
                    let d = choose|d: int| 0 <= d < order.len() && order[d] == states[p];
                    assert(order[d] == rules[i].children[p]);
                    assert(order[b] == rules[i].result);
                    assert(d < b);
                    assert(counts@[order[d].0 as int].value() == runs::runs_of(
                        rules,
                        order[d],
                        k,
                    ).len());
                    assert(language_analysis::shape_below(rules[i], k));
                    assert(rules[i].children[p].0 < k);
                }
            }
            let mut combinations = N::one();
            let mut p: usize = 0;
            assert(states.take(0) =~= Seq::empty());
            while p < rule.children.len()
                invariant
                    p <= rule.children@.len(),
                    rule.children@ == states,
                    counts@.len() == k,
                    forall|r: int|
                        0 <= r < states.len() ==> runs::runs_of(
                            rules,
                            #[trigger] states[r],
                            k,
                        ).len() > 0 && states[r].0 < k && counts@[states[r].0 as int].value()
                            == runs::runs_of(rules, states[r], k).len(),
                    runs::tuple_count(rules, states, k) <= whole,
                    a == self@,
                    rules == automaton::rule_shapes(a.rules),
                    k == a.states,
                    whole == runs::runs_of(rules, state, k).len(),
                    combinations.value() == runs::tuple_count(rules, states.take(p as int), k),
                decreases rule.children@.len() - p,
            {
                let child = rule.children[p];
                proof {
                    assert(child == states[p as int]);
                    assert(states.take(p + 1).drop_last() =~= states.take(p as int));
                    assert(states.take(p + 1).last() == child);
                    language_cardinality::lemma_tuple_share(rules, states, k, p + 1, p as int);
                }
                match combinations.checked_mul(&counts[child.index()]) {
                    Some(next) => {
                        combinations = next;
                    },
                    None => {
                        proof {
                            if N::fits(whole) {
                                N::fits_downward(
                                    runs::tuple_count(rules, states.take(p + 1), k),
                                    whole,
                                );
                            }
                        }
                        return None;
                    },
                }
                p += 1;
            }
            assert(states.take(p as int) =~= states);
            match total.checked_add(&combinations) {
                Some(next) => {
                    total = next;
                },
                None => {
                    proof {
                        if N::fits(whole) {
                            N::fits_downward(options_count(a, state, c + 1), whole);
                        }
                    }
                    return None;
                },
            }
            c += 1;
        }
        assert(list.take(c as int) =~= list);
        Some(total)
    }
}

} // verus!
