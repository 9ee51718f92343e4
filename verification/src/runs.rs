//! Derivations of an automaton, as sequences in a fixed order.
use crate::automaton;
use crate::automaton::Automaton;
use crate::ids::StateId;
use crate::language_analysis;
use crate::language_analysis::RuleShape;
use vstd::prelude::*;

verus! {

/// A derivation: the rule used at the root and the derivations of its children.
pub struct Run {
    pub rule: nat,
    pub children: Seq<Run>,
}

/// Whether `run` is a derivation that ends in state `q`.
pub open spec fn is_run(rules: Seq<RuleShape>, run: Run, q: StateId) -> bool
    decreases run,
{
    &&& run.rule < rules.len()
    &&& rules[run.rule as int].result == q
    &&& run.children.len() == rules[run.rule as int].children.len()
    &&& forall|p: int|
        0 <= p < run.children.len() ==> is_run(
            rules,
            #[trigger] run.children[p],
            rules[run.rule as int].children[p],
        )
}

/// One more child at the end of `head`, in every way `tails` offers.
pub open spec fn extend_one(head: Seq<Run>, tails: Seq<Run>) -> Seq<Seq<Run>> {
    Seq::new(tails.len(), |j: int| head.push(tails[j]))
}

/// One more child at the end of each head, the last child changing fastest.
pub open spec fn extend_all(heads: Seq<Seq<Run>>, tails: Seq<Run>) -> Seq<Seq<Run>>
    decreases heads.len(),
{
    if heads.len() == 0 {
        Seq::empty()
    } else {
        extend_all(heads.drop_last(), tails) + extend_one(heads.last(), tails)
    }
}

/// The derivations that apply `rule` to the given tuples of children.
pub open spec fn with_root(rule: nat, tuples: Seq<Seq<Run>>) -> Seq<Run> {
    Seq::new(tuples.len(), |j: int| Run { rule, children: tuples[j] })
}

/// The derivations of height at most `k` that end in `q`, by root rule and then by
/// children from left to right.
pub open spec fn runs_of(rules: Seq<RuleShape>, q: StateId, k: nat) -> Seq<Run>
    decreases k, 1nat, 0nat,
{
    if k == 0 {
        Seq::empty()
    } else {
        runs_by_rule(rules, q, k, rules.len())
    }
}

/// The derivations of height at most `k` that end in `q` and whose root rule is one
/// of the first `n`.
pub open spec fn runs_by_rule(rules: Seq<RuleShape>, q: StateId, k: nat, n: nat) -> Seq<Run>
    decreases k, 0nat, n,
{
    if n == 0 || k == 0 {
        Seq::empty()
    } else {
        let earlier = runs_by_rule(rules, q, k, (n - 1) as nat);
        if rules[n - 1].result == q {
            earlier + with_root(
                (n - 1) as nat,
                run_tuples(rules, rules[n - 1].children, (k - 1) as nat),
            )
        } else {
            earlier
        }
    }
}

/// The tuples of derivations of height at most `k`, one for each of `states`, the
/// last changing fastest.
pub open spec fn run_tuples(
    rules: Seq<RuleShape>,
    states: Seq<StateId>,
    k: nat,
) -> Seq<Seq<Run>>
    decreases k, 2nat, states.len(),
{
    if states.len() == 0 {
        seq![Seq::empty()]
    } else {
        extend_all(
            run_tuples(rules, states.drop_last(), k),
            runs_of(rules, states.last(), k),
        )
    }
}

/// The derivations of height at most `k` that end in one of the first `n` states
/// and in an accepting one, by state.
pub open spec fn accepting_runs_below(a: Automaton, k: nat, n: nat) -> Seq<Run>
    decreases n,
{
    if n == 0 {
        Seq::empty()
    } else {
        let earlier = accepting_runs_below(a, k, (n - 1) as nat);
        let q = StateId((n - 1) as u32);
        if a.accepting.contains(q) {
            earlier + runs_of(automaton::rule_shapes(a.rules), q, k)
        } else {
            earlier
        }
    }
}

/// The accepting derivations of height at most `k`.
pub open spec fn accepting_runs(a: Automaton, k: nat) -> Seq<Run> {
    accepting_runs_below(a, k, a.states)
}

pub proof fn lemma_extend_all_len(heads: Seq<Seq<Run>>, tails: Seq<Run>)
    ensures
        extend_all(heads, tails).len() == heads.len() * tails.len(),
    decreases heads.len(),
{
    if heads.len() > 0 {
        lemma_extend_all_len(heads.drop_last(), tails);
        let n = heads.len() as int;
        let m = tails.len() as int;
        assert((n - 1) * m + m == n * m) by (nonlinear_arith);
    } else {
        assert(0 * tails.len() == 0) by (nonlinear_arith);
    }
}

/// The product of the numbers of derivations of the given states.
pub open spec fn tuple_count(rules: Seq<RuleShape>, states: Seq<StateId>, k: nat) -> nat
    decreases states.len(),
{
    if states.len() == 0 {
        1
    } else {
        tuple_count(rules, states.drop_last(), k) * runs_of(rules, states.last(), k).len()
    }
}

pub proof fn lemma_tuple_count(rules: Seq<RuleShape>, states: Seq<StateId>, k: nat)
    ensures
        run_tuples(rules, states, k).len() == tuple_count(rules, states, k),
    decreases states.len(),
{
    if states.len() > 0 {
        lemma_tuple_count(rules, states.drop_last(), k);
        lemma_extend_all_len(
            run_tuples(rules, states.drop_last(), k),
            runs_of(rules, states.last(), k),
        );
    }
}

/// Tuples depend only on the derivations of their states.
pub proof fn lemma_tuples_agree(rules: Seq<RuleShape>, states: Seq<StateId>, j: nat, k: nat)
    requires
        forall|p: int|
            0 <= p < states.len() ==> runs_of(rules, #[trigger] states[p], j) == runs_of(
                rules,
                states[p],
                k,
            ),
    ensures
        run_tuples(rules, states, j) == run_tuples(rules, states, k),
    decreases states.len(),
{
    if states.len() > 0 {
        let front = states.drop_last();
        assert forall|p: int| 0 <= p < front.len() implies runs_of(rules, #[trigger] front[p], j)
            == runs_of(rules, front[p], k) by {
            assert(front[p] == states[p]);
        }
        lemma_tuples_agree(rules, front, j, k);
        assert(states[states.len() - 1] == states.last());
    }
}

/// Only productive states have derivations.
pub proof fn lemma_unproductive_empty(rules: Seq<RuleShape>, q: StateId, k: nat)
    requires
        !language_analysis::is_productive(rules, q),
    ensures
        runs_of(rules, q, k).len() == 0,
    decreases k, 1nat, 0nat,
{
    if k > 0 {
        lemma_unproductive_by_rule(rules, q, k, rules.len());
    }
}

proof fn lemma_unproductive_by_rule(rules: Seq<RuleShape>, q: StateId, k: nat, n: nat)
    requires
        !language_analysis::is_productive(rules, q),
        0 < k,
        n <= rules.len(),
    ensures
        runs_by_rule(rules, q, k, n).len() == 0,
    decreases k, 0nat, n,
{
    if n > 0 {
        lemma_unproductive_by_rule(rules, q, k, (n - 1) as nat);
        let i = n - 1;
        if rules[i].result == q {
            lemma_result_productive(rules, i);
            assert(!language_analysis::rule_productive(rules, i));
            lemma_unproductive_rule(rules, i, (k - 1) as nat);
        }
    }
}

/// The result of a productive rule is productive.
pub proof fn lemma_result_productive(rules: Seq<RuleShape>, i: int)
    requires
        0 <= i < rules.len(),
    ensures
        language_analysis::rule_productive(rules, i) ==> language_analysis::is_productive(
            rules,
            rules[i].result,
        ),
{
    if language_analysis::rule_productive(rules, i) {
        assert forall|s: Set<StateId>| #[trigger]
            language_analysis::productive_closed(rules, s) implies s.contains(
            rules[i].result,
        ) by {
            assert(language_analysis::children_in(rules[i], s)) by {
                assert forall|p: int| 0 <= p < rules[i].children.len() implies s.contains(
                    #[trigger] rules[i].children[p],
                ) by {
                    assert(language_analysis::is_productive(rules, rules[i].children[p]));
                }
            }
        }
    }
}

/// An unproductive rule has no tuples of derivations.
pub proof fn lemma_unproductive_rule(rules: Seq<RuleShape>, i: int, k: nat)
    requires
        0 <= i < rules.len(),
        !language_analysis::rule_productive(rules, i),
    ensures
        run_tuples(rules, rules[i].children, k).len() == 0,
    decreases k, 2nat, 0nat,
{
    let p = choose|p: int|
        0 <= p < rules[i].children.len() && !language_analysis::is_productive(
            rules,
            #[trigger] rules[i].children[p],
        );
    lemma_unproductive_empty(rules, rules[i].children[p], k);
    lemma_tuple_count(rules, rules[i].children, k);
    lemma_tuple_count_zero(rules, rules[i].children, k, p);
}

pub proof fn lemma_tuple_count_zero(
    rules: Seq<RuleShape>,
    states: Seq<StateId>,
    k: nat,
    p: int,
)
    requires
        0 <= p < states.len(),
        runs_of(rules, states[p], k).len() == 0,
    ensures
        tuple_count(rules, states, k) == 0,
    decreases states.len(),
{
    let front = tuple_count(rules, states.drop_last(), k);
    let last = runs_of(rules, states.last(), k).len();
    if p < states.len() - 1 {
        assert(states.drop_last()[p] == states[p]);
        lemma_tuple_count_zero(rules, states.drop_last(), k, p);
        assert(0 * last == 0) by (nonlinear_arith);
    } else {
        assert(front * 0 == 0) by (nonlinear_arith);
    }
}

/// In a child-first order, derivations that end in state number `b` have height at
/// most `b + 1`.
pub proof fn lemma_stable(
    rules: Seq<RuleShape>,
    accepting: Set<StateId>,
    order: Seq<StateId>,
    b: int,
    k: nat,
)
    requires
        language_analysis::is_child_first(rules, accepting, order),
        0 <= b < order.len(),
        k >= b + 1,
    ensures
        runs_of(rules, order[b], k) == runs_of(rules, order[b], (b + 1) as nat),
    decreases b, 1nat, 0nat,
{
    lemma_stable_by_rule(rules, accepting, order, b, k, rules.len());
}

proof fn lemma_stable_by_rule(
    rules: Seq<RuleShape>,
    accepting: Set<StateId>,
    order: Seq<StateId>,
    b: int,
    k: nat,
    n: nat,
)
    requires
        language_analysis::is_child_first(rules, accepting, order),
        0 <= b < order.len(),
        k >= b + 1,
        n <= rules.len(),
    ensures
        runs_by_rule(rules, order[b], k, n) == runs_by_rule(rules, order[b], (b + 1) as nat, n),
    decreases b, 0nat, n,
{
    if n > 0 {
        lemma_stable_by_rule(rules, accepting, order, b, k, (n - 1) as nat);
        let i = n - 1;
        if rules[i].result == order[b] {
            if language_analysis::rule_productive(rules, i) {
                assert(order.contains(order[b]));
                assert(language_analysis::is_live(rules, accepting, i));
                language_analysis::lemma_children_below(
                    rules,
                    language_analysis::productive_roots(rules, accepting),
                    language_analysis::productive_mask(rules),
                    i,
                );
                let states = rules[i].children;
                assert forall|p: int| 0 <= p < states.len() implies runs_of(
                    rules,
                    #[trigger] states[p],
                    (k - 1) as nat,
                ) == runs_of(rules, states[p], b as nat) by {
                    assert(language_analysis::is_relevant(rules, accepting, rules[i].children[p]));
                    assert(order.contains(states[p]));
                    let a = choose|a: int| 0 <= a < order.len() && order[a] == states[p];
                    assert(order[a] == rules[i].children[p]);
                    assert(a < b);
                    lemma_stable(rules, accepting, order, a, (k - 1) as nat);
                    lemma_stable(rules, accepting, order, a, b as nat);
                }
                lemma_tuples_agree(rules, states, (k - 1) as nat, b as nat);
            } else {
                lemma_unproductive_rule(rules, i, (k - 1) as nat);
                lemma_unproductive_rule(rules, i, b as nat);
                assert(run_tuples(rules, rules[i].children, (k - 1) as nat) =~= run_tuples(
                    rules,
                    rules[i].children,
                    b as nat,
                ));
            }
        }
    }
}

/// Whether no path of a derivation is longer than `k`.
pub open spec fn height_at_most(run: Run, k: nat) -> bool
    decreases k,
{
    k > 0 && forall|p: int|
        0 <= p < run.children.len() ==> height_at_most(
            #[trigger] run.children[p],
            (k - 1) as nat,
        )
}

proof fn lemma_extend_all(heads: Seq<Seq<Run>>, tails: Seq<Run>)
    requires
        heads.no_duplicates(),
        tails.no_duplicates(),
    ensures
        forall|t: Seq<Run>| #[trigger]
            extend_all(heads, tails).contains(t) <==> (t.len() > 0 && heads.contains(t.drop_last())
                && tails.contains(t.last())),
        extend_all(heads, tails).no_duplicates(),
    decreases heads.len(),
{
    let all = extend_all(heads, tails);
    if heads.len() > 0 {
        let front = heads.drop_last();
        let last = heads.last();
        assert(front.no_duplicates()) by {
            assert forall|i: int, j: int| 0 <= i < front.len() && 0 <= j < front.len() && i
                != j implies front[i] != front[j] by {
                assert(front[i] == heads[i] && front[j] == heads[j]);
            }
        }
        lemma_extend_all(front, tails);
        let a = extend_all(front, tails);
        let b = extend_one(last, tails);
        assert forall|t: Seq<Run>| #[trigger] all.contains(t) <==> (t.len() > 0
            && heads.contains(t.drop_last()) && tails.contains(t.last())) by {
            if all.contains(t) {
                let i = choose|i: int| 0 <= i < all.len() && all[i] == t;
                if i < a.len() {
                    assert(a[i] == t);
                    assert(a.contains(t));
                    let h = choose|h: int| 0 <= h < front.len() && front[h] == t.drop_last();
                    assert(heads[h] == t.drop_last());
                } else {
                    assert(b[i - a.len()] == t);
                    assert(t.drop_last() =~= last);
                    assert(heads[heads.len() - 1] == t.drop_last());
                    assert(t.last() == tails[i - a.len()]);
                }
            }
            if t.len() > 0 && heads.contains(t.drop_last()) && tails.contains(t.last()) {
                let h = choose|h: int| 0 <= h < heads.len() && heads[h] == t.drop_last();
                if h < front.len() {
                    assert(front[h] == t.drop_last());
                    assert(a.contains(t));
                    let i = choose|i: int| 0 <= i < a.len() && a[i] == t;
                    assert(all[i] == t);
                } else {
                    let j = choose|j: int| 0 <= j < tails.len() && tails[j] == t.last();
                    assert(t =~= last.push(tails[j]));
                    assert(all[a.len() + j] == t);
                }
            }
        }
        assert forall|i: int, j: int| 0 <= i < all.len() && 0 <= j < all.len() && i
            < j implies all[i] != all[j] by {
            if j < a.len() {
                assert(a[i] == all[i] && a[j] == all[j]);
            } else if i >= a.len() {
                let x = i - a.len();
                let y = j - a.len();
                assert(all[i] == last.push(tails[x]));
                assert(all[j] == last.push(tails[y]));
                assert(all[i].last() == tails[x] && all[j].last() == tails[y]);
            } else {
                assert(a[i] == all[i]);
                assert(a.contains(a[i]));
                let h = choose|h: int| 0 <= h < front.len() && front[h] == all[i].drop_last();
                assert(all[j] == last.push(tails[j - a.len()]));
                assert(all[j].drop_last() =~= last);
                assert(heads[h] != heads[heads.len() - 1]);
            }
        }
    }
}

/// Whether `tuple` holds a derivation of height at most `k` for each of `states`.
pub open spec fn is_run_tuple(
    rules: Seq<RuleShape>,
    tuple: Seq<Run>,
    states: Seq<StateId>,
    k: nat,
) -> bool {
    tuple.len() == states.len() && forall|p: int|
        0 <= p < tuple.len() ==> is_run(rules, #[trigger] tuple[p], states[p]) && height_at_most(
            tuple[p],
            k,
        )
}

/// `runs_of` lists the derivations of height at most `k` that end in `q`, once each.
pub proof fn law_runs_complete(rules: Seq<RuleShape>, q: StateId, k: nat)
    ensures
        forall|run: Run| #[trigger]
            runs_of(rules, q, k).contains(run) <==> (is_run(rules, run, q) && height_at_most(
                run,
                k,
            )),
        runs_of(rules, q, k).no_duplicates(),
    decreases k, 1nat, 0nat,
{
    if k > 0 {
        lemma_by_rule_complete(rules, q, k, rules.len());
    } else {
        assert forall|run: Run| !(is_run(rules, run, q) && #[trigger] height_at_most(run, k)) by {}
    }
}

/// The children of a derivation are derivations of smaller height.
pub proof fn lemma_run_child(rules: Seq<RuleShape>, run: Run, q: StateId, k: nat, p: int)
    requires
        is_run(rules, run, q),
        height_at_most(run, k),
        0 <= p < run.children.len(),
    ensures
        is_run(rules, run.children[p], rules[run.rule as int].children[p]),
        height_at_most(run.children[p], (k - 1) as nat),
{
}

proof fn lemma_by_rule_complete(rules: Seq<RuleShape>, q: StateId, k: nat, n: nat)
    requires
        k > 0,
        n <= rules.len(),
    ensures
        forall|run: Run| #[trigger]
            runs_by_rule(rules, q, k, n).contains(run) <==> (is_run(rules, run, q)
                && height_at_most(run, k) && run.rule < n),
        runs_by_rule(rules, q, k, n).no_duplicates(),
    decreases k, 0nat, n,
{
    if n > 0 {
        lemma_by_rule_complete(rules, q, k, (n - 1) as nat);
        let i = n - 1;
        let earlier = runs_by_rule(rules, q, k, i as nat);
        let all = runs_by_rule(rules, q, k, n);
        if rules[i].result == q {
            let states = rules[i].children;
            let tuples = run_tuples(rules, states, (k - 1) as nat);
            lemma_tuples_complete(rules, states, (k - 1) as nat);
            assert forall|run: Run| #[trigger] all.contains(run) <==> (is_run(rules, run, q)
                && height_at_most(run, k) && run.rule < n) by {
                if all.contains(run) {
                    let j = choose|j: int| 0 <= j < all.len() && all[j] == run;
                    if j < earlier.len() {
                        assert(earlier[j] == run);
                        assert(earlier.contains(run));
                    } else {
                        let t = tuples[j - earlier.len()];
                        assert(run == (Run { rule: i as nat, children: t }));
                        assert(tuples.contains(t));
                        assert(is_run_tuple(rules, t, states, (k - 1) as nat));
                        assert forall|p: int| 0 <= p < run.children.len() implies is_run(
                            rules,
                            #[trigger] run.children[p],
                            rules[run.rule as int].children[p],
                        ) by {
                            assert(is_run(rules, t[p], states[p]));
                        }
                        assert forall|p: int| 0 <= p < run.children.len() implies height_at_most(
                            #[trigger] run.children[p],
                            (k - 1) as nat,
                        ) by {
                            assert(is_run(rules, t[p], states[p]) && height_at_most(
                                t[p],
                                (k - 1) as nat,
                            ));
                        }
                    }
                }
                if is_run(rules, run, q) && height_at_most(run, k) && run.rule < n {
                    if run.rule < i {
                        assert(earlier.contains(run));
                        let j = choose|j: int| 0 <= j < earlier.len() && earlier[j] == run;
                        assert(all[j] == run);
                    } else {
                        let t = run.children;
                        assert forall|p: int| 0 <= p < t.len() implies is_run(
                            rules,
                            #[trigger] t[p],
                            states[p],
                        ) && height_at_most(t[p], (k - 1) as nat) by {
                            lemma_run_child(rules, run, q, k, p);
                        }
                        assert(tuples.contains(t));
                        let j = choose|j: int| 0 <= j < tuples.len() && tuples[j] == t;
                        assert(all[earlier.len() + j] == run);
                    }
                }
            }
            assert forall|x: int, y: int| 0 <= x < all.len() && 0 <= y < all.len() && x
                < y implies all[x] != all[y] by {
                if y < earlier.len() {
                    assert(earlier[x] == all[x] && earlier[y] == all[y]);
                } else if x >= earlier.len() {
                    assert(all[x].children == tuples[x - earlier.len()]);
                    assert(all[y].children == tuples[y - earlier.len()]);
                } else {
                    assert(earlier[x] == all[x]);
                    assert(earlier.contains(earlier[x]));
                    assert(all[y].rule == i);
                }
            }
        } else {
            assert forall|run: Run| #[trigger] all.contains(run) <==> (is_run(rules, run, q)
                && height_at_most(run, k) && run.rule < n) by {
                assert(earlier.contains(run) <==> (is_run(rules, run, q) && height_at_most(run, k)
                    && run.rule < i));
            }
        }
    }
}

proof fn lemma_tuples_complete(rules: Seq<RuleShape>, states: Seq<StateId>, k: nat)
    ensures
        forall|t: Seq<Run>| #[trigger]
            run_tuples(rules, states, k).contains(t) <==> is_run_tuple(rules, t, states, k),
        run_tuples(rules, states, k).no_duplicates(),
    decreases k, 2nat, states.len(),
{
    let all = run_tuples(rules, states, k);
    if states.len() == 0 {
        assert forall|t: Seq<Run>| #[trigger] all.contains(t) <==> is_run_tuple(
            rules,
            t,
            states,
            k,
        ) by {
            if is_run_tuple(rules, t, states, k) {
                assert(t =~= Seq::empty());
                assert(all[0] == t);
            }
        }
    } else {
        let front = states.drop_last();
        let heads = run_tuples(rules, front, k);
        let tails = runs_of(rules, states.last(), k);
        lemma_tuples_complete(rules, front, k);
        law_runs_complete(rules, states.last(), k);
        lemma_extend_all(heads, tails);
        assert forall|t: Seq<Run>| #[trigger] all.contains(t) <==> is_run_tuple(
            rules,
            t,
            states,
            k,
        ) by {
            if all.contains(t) {
                assert(heads.contains(t.drop_last()) && tails.contains(t.last()));
                assert(is_run_tuple(rules, t.drop_last(), front, k));
                assert forall|p: int| 0 <= p < t.len() implies is_run(
                    rules,
                    #[trigger] t[p],
                    states[p],
                ) && height_at_most(t[p], k) by {
                    if p < front.len() {
                        assert(is_run(rules, t.drop_last()[p], front[p]));
                    } else {
                        assert(t[p] == t.last());
                    }
                }
            }
            if is_run_tuple(rules, t, states, k) {
                assert forall|p: int| 0 <= p < t.drop_last().len() implies is_run(
                    rules,
                    #[trigger] t.drop_last()[p],
                    front[p],
                ) && height_at_most(t.drop_last()[p], k) by {
                    assert(is_run(rules, t[p], states[p]));
                }
                assert(is_run_tuple(rules, t.drop_last(), front, k));
                assert(is_run(rules, t[t.len() - 1], states[t.len() - 1]));
            }
        }
    }
}

/// `accepting_runs` lists the derivations of height at most `k` that end in an
/// accepting state, once each.
pub proof fn law_accepting_runs_complete(a: Automaton, k: nat)
    requires
        a.well_formed(),
    ensures
        forall|run: Run| #[trigger]
            accepting_runs(a, k).contains(run) <==> (height_at_most(run, k) && exists|q: StateId|
                a.accepting.contains(q) && #[trigger] is_run(
                    automaton::rule_shapes(a.rules),
                    run,
                    q,
                )),
        accepting_runs(a, k).no_duplicates(),
{
    lemma_accepting_below_complete(a, k, a.states);
    let rules = automaton::rule_shapes(a.rules);
    assert forall|run: Run| #[trigger] accepting_runs(a, k).contains(run) <==> (height_at_most(
        run,
        k,
    ) && exists|q: StateId| a.accepting.contains(q) && #[trigger] is_run(rules, run, q)) by {
        if height_at_most(run, k) && exists|q: StateId|
            a.accepting.contains(q) && #[trigger] is_run(rules, run, q) {
            let q = choose|q: StateId| a.accepting.contains(q) && #[trigger] is_run(rules, run, q);
            assert(q.0 < a.states);
        }
    }
}

proof fn lemma_accepting_below_complete(a: Automaton, k: nat, n: nat)
    requires
        n <= a.states,
        a.states <= u32::MAX,
    ensures
        forall|run: Run| #[trigger]
            accepting_runs_below(a, k, n).contains(run) <==> (height_at_most(run, k)
                && exists|q: StateId|
                q.0 < n && a.accepting.contains(q) && #[trigger] is_run(
                    automaton::rule_shapes(a.rules),
                    run,
                    q,
                )),
        accepting_runs_below(a, k, n).no_duplicates(),
    decreases n,
{
    let rules = automaton::rule_shapes(a.rules);
    let all = accepting_runs_below(a, k, n);
    if n > 0 {
        lemma_accepting_below_complete(a, k, (n - 1) as nat);
        let q = StateId((n - 1) as u32);
        let earlier = accepting_runs_below(a, k, (n - 1) as nat);
        let own = runs_of(rules, q, k);
        law_runs_complete(rules, q, k);
        assert forall|run: Run| #[trigger] all.contains(run) <==> (height_at_most(run, k)
            && exists|r: StateId|
            r.0 < n && a.accepting.contains(r) && #[trigger] is_run(rules, run, r)) by {
            if all.contains(run) {
                let j = choose|j: int| 0 <= j < all.len() && all[j] == run;
                if j < earlier.len() {
                    assert(earlier[j] == run);
                    assert(earlier.contains(run));
                } else {
                    assert(own[j - earlier.len()] == run);
                    assert(own.contains(run));
                }
            }
            if height_at_most(run, k) && exists|r: StateId|
                r.0 < n && a.accepting.contains(r) && #[trigger] is_run(rules, run, r) {
                let r = choose|r: StateId|
                    r.0 < n && a.accepting.contains(r) && #[trigger] is_run(rules, run, r);
                if r.0 < n - 1 {
                    assert(earlier.contains(run));
                    let j = choose|j: int| 0 <= j < earlier.len() && earlier[j] == run;
                    assert(all[j] == run);
                } else {
                    assert(r == q);
                    assert(own.contains(run));
                    let j = choose|j: int| 0 <= j < own.len() && own[j] == run;
                    assert(all[earlier.len() + j] == run);
                }
            }
        }
        if a.accepting.contains(q) {
            assert forall|x: int, y: int| 0 <= x < all.len() && 0 <= y < all.len() && x
                < y implies all[x] != all[y] by {
                if y < earlier.len() {
                    assert(earlier[x] == all[x] && earlier[y] == all[y]);
                } else if x >= earlier.len() {
                    assert(all[x] == own[x - earlier.len()] && all[y] == own[y - earlier.len()]);
                } else {
                    assert(earlier[x] == all[x]);
                    assert(earlier.contains(earlier[x]));
                    assert(all[y] == own[y - earlier.len()]);
                    assert(own.contains(own[y - earlier.len()]));
                    let r = choose|r: StateId|
                        r.0 < n - 1 && a.accepting.contains(r) && #[trigger] is_run(
                            rules,
                            all[x],
                            r,
                        );
                    assert(is_run(rules, all[y], q));
                    assert(rules[all[x].rule as int].result == r);
                }
            }
        }
    }
}

} // verus!
