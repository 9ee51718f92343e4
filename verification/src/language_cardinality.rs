//! Exact or checked cardinality of explicit derivation languages.
use crate::automaton;
use crate::automaton::Automaton;
use crate::explicit::Explicit;
use crate::ids::StateId;
use crate::language_analysis;
use crate::language_analysis::RuleShape;
use crate::runs;
use crate::traits::BottomUpTa;
use vstd::prelude::*;

verus! {

/// A type of numbers in which derivations can be counted.
pub trait CheckedCount: Sized {
    /// The number that a value stands for.
    spec fn value(&self) -> nat;

    /// Whether some value stands for `n`.
    spec fn fits(n: nat) -> bool;

    proof fn fits_downward(m: nat, n: nat)
        requires
            m <= n,
            Self::fits(n),
        ensures
            Self::fits(m),
    ;

    fn zero() -> (r: Self)
        ensures
            r.value() == 0,
    ;

    fn one() -> (r: Self)
        ensures
            r.value() == 1,
    ;

    fn checked_add(&self, other: &Self) -> (r: Option<Self>)
        ensures
            match r {
                Some(s) => s.value() == self.value() + other.value(),
                None => !Self::fits(self.value() + other.value()),
            },
    ;

    fn checked_mul(&self, other: &Self) -> (r: Option<Self>)
        ensures
            match r {
                Some(s) => s.value() == self.value() * other.value(),
                None => !Self::fits(self.value() * other.value()),
            },
    ;
}

impl CheckedCount for usize {
    open spec fn value(&self) -> nat {
        *self as nat
    }

    open spec fn fits(n: nat) -> bool {
        n <= usize::MAX
    }

    proof fn fits_downward(m: nat, n: nat) {
    }

    fn zero() -> (r: Self) {
        0
    }

    fn one() -> (r: Self) {
        1
    }

    fn checked_add(&self, other: &Self) -> (r: Option<Self>) {
        usize::checked_add(*self, *other)
    }

    fn checked_mul(&self, other: &Self) -> (r: Option<Self>) {
        usize::checked_mul(*self, *other)
    }
}

impl CheckedCount for u8 {
    open spec fn value(&self) -> nat {
        *self as nat
    }

    open spec fn fits(n: nat) -> bool {
        n <= u8::MAX
    }

    proof fn fits_downward(m: nat, n: nat) {
    }

    fn zero() -> (r: Self) {
        0
    }

    fn one() -> (r: Self) {
        1
    }

    fn checked_add(&self, other: &Self) -> (r: Option<Self>) {
        u8::checked_add(*self, *other)
    }

    fn checked_mul(&self, other: &Self) -> (r: Option<Self>) {
        u8::checked_mul(*self, *other)
    }
}

impl CheckedCount for u64 {
    open spec fn value(&self) -> nat {
        *self as nat
    }

    open spec fn fits(n: nat) -> bool {
        n <= u64::MAX
    }

    proof fn fits_downward(m: nat, n: nat) {
    }

    fn zero() -> (r: Self) {
        0
    }

    fn one() -> (r: Self) {
        1
    }

    fn checked_add(&self, other: &Self) -> (r: Option<Self>) {
        u64::checked_add(*self, *other)
    }

    fn checked_mul(&self, other: &Self) -> (r: Option<Self>) {
        u64::checked_mul(*self, *other)
    }
}

/// Cardinality of an automaton's accepting derivation language.
///
/// This counts accepting runs, not distinct labelled trees: two runs for the same
/// tree count twice.
#[derive(Clone, Copy, Debug, PartialEq, Eq)]
pub enum LanguageCardinality<N = usize> {
    /// The derivation language is finite and has exactly this cardinality.
    Finite(N),
    /// A productive cycle occurs in an accepting derivation.
    Infinite,
    /// The language is finite, but its count is not representable by `N`.
    TooLarge,
}

/// Whether accepting derivations can run through a cycle.
pub open spec fn is_infinite(a: Automaton) -> bool {
    language_analysis::is_cyclic(automaton::rule_shapes(a.rules), a.accepting)
}

/// The number of accepting derivations of an automaton without relevant cycles.
pub open spec fn derivation_count(a: Automaton) -> nat {
    runs::accepting_runs(a, a.states).len()
}

/// Whether `r` is the cardinality of the automaton's derivation language.
pub open spec fn is_cardinality<N: CheckedCount>(a: Automaton, r: LanguageCardinality<N>) -> bool {
    match r {
        LanguageCardinality::Finite(n) => !is_infinite(a) && n.value() == derivation_count(a),
        LanguageCardinality::Infinite => is_infinite(a),
        LanguageCardinality::TooLarge => !is_infinite(a) && !N::fits(derivation_count(a)),
    }
}

/// Distinct states below `n` are at most `n`.
pub proof fn lemma_distinct_bounded(s: Seq<StateId>, n: nat)
    requires
        s.no_duplicates(),
        forall|i: int| 0 <= i < s.len() ==> (#[trigger] s[i]).0 < n,
    ensures
        s.len() <= n,
    decreases n,
{
    if n == 0 {
        if s.len() > 0 {
            assert(s[0].0 < n);
        }
    } else if exists|k: int| 0 <= k < s.len() && (#[trigger] s[k]).0 == n - 1 {
        let k = choose|k: int| 0 <= k < s.len() && (#[trigger] s[k]).0 == n - 1;
        let t = s.remove(k);
        assert forall|i: int| 0 <= i < t.len() implies (#[trigger] t[i]).0 < n - 1 by {
            let j = if i < k { i } else { i + 1 };
            assert(t[i] == s[j]);
            assert(s[j] != s[k]);
        }
        assert forall|i: int, j: int| 0 <= i < t.len() && 0 <= j < t.len() && i
            != j implies t[i] != t[j] by {
            let x = if i < k { i } else { i + 1 };
            let y = if j < k { j } else { j + 1 };
            assert(t[i] == s[x] && t[j] == s[y]);
        }
        lemma_distinct_bounded(t, (n - 1) as nat);
    } else {
        lemma_distinct_bounded(s, (n - 1) as nat);
    }
}

/// A child-first order is no longer than the number of states.
pub proof fn lemma_order_len(
    rules: Seq<RuleShape>,
    accepting: Set<StateId>,
    order: Seq<StateId>,
    n: nat,
)
    requires
        language_analysis::is_child_first(rules, accepting, order),
        language_analysis::shapes_below(rules, n),
        forall|q: StateId| #[trigger] accepting.contains(q) ==> q.0 < n,
    ensures
        order.len() <= n,
        forall|b: int| 0 <= b < order.len() ==> (#[trigger] order[b]).0 < n,
{
    assert forall|b: int| 0 <= b < order.len() implies (#[trigger] order[b]).0 < n by {
        assert(order.contains(order[b]));
        language_analysis::lemma_below_bounded(
            rules,
            language_analysis::productive_roots(rules, accepting),
            language_analysis::productive_mask(rules),
            n,
            order[b],
        );
    }
    lemma_distinct_bounded(order, n);
}

/// Relevant states have the same derivations at every height from the length of
/// the order on.
pub proof fn lemma_relevant_stable(
    rules: Seq<RuleShape>,
    accepting: Set<StateId>,
    order: Seq<StateId>,
    q: StateId,
    j: nat,
    k: nat,
)
    requires
        language_analysis::is_child_first(rules, accepting, order),
        language_analysis::is_relevant(rules, accepting, q),
        j >= order.len(),
        k >= order.len(),
    ensures
        runs::runs_of(rules, q, j) == runs::runs_of(rules, q, k),
{
    assert(order.contains(q));
    let b = choose|b: int| 0 <= b < order.len() && order[b] == q;
    runs::lemma_stable(rules, accepting, order, b, j);
    runs::lemma_stable(rules, accepting, order, b, k);
}

/// The children of a live rule have the same derivations one level down.
pub proof fn lemma_child_stable(
    rules: Seq<RuleShape>,
    accepting: Set<StateId>,
    order: Seq<StateId>,
    i: int,
    p: int,
    k: nat,
)
    requires
        language_analysis::is_child_first(rules, accepting, order),
        0 <= i < rules.len(),
        language_analysis::is_live(rules, accepting, i),
        0 <= p < rules[i].children.len(),
        k >= order.len(),
    ensures
        k > 0,
        language_analysis::is_relevant(rules, accepting, rules[i].children[p]),
        runs::runs_of(rules, rules[i].children[p], (k - 1) as nat) == runs::runs_of(
            rules,
            rules[i].children[p],
            k,
        ),
{
    language_analysis::lemma_children_below(
        rules,
        language_analysis::productive_roots(rules, accepting),
        language_analysis::productive_mask(rules),
        i,
    );
    let child = rules[i].children[p];
    assert(language_analysis::is_relevant(rules, accepting, child));
    assert(order.contains(child));
    assert(order.contains(rules[i].result));
    let a = choose|a: int| 0 <= a < order.len() && order[a] == child;
    let b = choose|b: int| 0 <= b < order.len() && order[b] == rules[i].result;
    assert(order[a] == rules[i].children[p]);
    assert(a < b);
    runs::lemma_stable(rules, accepting, order, a, (k - 1) as nat);
    runs::lemma_stable(rules, accepting, order, a, k);
}

/// Every relevant state has a derivation.
pub proof fn lemma_relevant_has_run(
    rules: Seq<RuleShape>,
    accepting: Set<StateId>,
    order: Seq<StateId>,
    q: StateId,
    k: nat,
)
    requires
        language_analysis::is_child_first(rules, accepting, order),
        k >= order.len(),
        k > 0,
        language_analysis::is_productive(rules, q),
        language_analysis::is_relevant(rules, accepting, q),
    ensures
        runs::runs_of(rules, q, k).len() > 0,
{
    let s = Set::new(
        |r: StateId|
            language_analysis::is_productive(rules, r) && (language_analysis::is_relevant(
                rules,
                accepting,
                r,
            ) ==> runs::runs_of(rules, r, k).len() > 0),
    );
    assert forall|i: int|
        0 <= i < rules.len() && language_analysis::children_in(
            #[trigger] rules[i],
            s,
        ) implies s.contains(rules[i].result) by {
        assert(language_analysis::rule_productive(rules, i)) by {
            assert forall|p: int|
                0 <= p < rules[i].children.len() implies language_analysis::is_productive(
                rules,
                #[trigger] rules[i].children[p],
            ) by {
                assert(s.contains(rules[i].children[p]));
            }
        }
        runs::lemma_result_productive(rules, i);
        if language_analysis::is_relevant(rules, accepting, rules[i].result) {
            assert(language_analysis::is_live(rules, accepting, i));
            let states = rules[i].children;
            assert forall|p: int| 0 <= p < states.len() implies runs::runs_of(
                rules,
                #[trigger] states[p],
                (k - 1) as nat,
            ).len() > 0 by {
                lemma_child_stable(rules, accepting, order, i, p, k);
                assert(s.contains(rules[i].children[p]));
            }
            lemma_tuple_positive(rules, states, (k - 1) as nat);
            runs::lemma_tuple_count(rules, states, (k - 1) as nat);
            lemma_rule_share(rules, rules[i].result, k, i, rules.len());
        }
    }
    assert(language_analysis::productive_closed(rules, s));
    assert(s.contains(q));
}

pub proof fn lemma_tuple_positive(rules: Seq<RuleShape>, states: Seq<StateId>, k: nat)
    requires
        forall|p: int|
            0 <= p < states.len() ==> runs::runs_of(rules, #[trigger] states[p], k).len() > 0,
    ensures
        runs::tuple_count(rules, states, k) > 0,
    decreases states.len(),
{
    if states.len() > 0 {
        let front = states.drop_last();
        assert forall|p: int| 0 <= p < front.len() implies runs::runs_of(
            rules,
            #[trigger] front[p],
            k,
        ).len() > 0 by {
            assert(front[p] == states[p]);
        }
        lemma_tuple_positive(rules, front, k);
        let x = runs::tuple_count(rules, front, k) as int;
        assert(states[states.len() - 1] == states.last());
        let y = runs::runs_of(rules, states.last(), k).len() as int;
        assert(x * y > 0) by (nonlinear_arith)
            requires
                x > 0,
                y > 0,
        ;
    }
}

/// A factor and a prefix of a product of positive numbers do not exceed it.
pub proof fn lemma_tuple_share(
    rules: Seq<RuleShape>,
    states: Seq<StateId>,
    k: nat,
    m: int,
    p: int,
)
    requires
        forall|r: int|
            0 <= r < states.len() ==> runs::runs_of(rules, #[trigger] states[r], k).len() > 0,
        0 <= m <= states.len(),
        0 <= p < states.len() || states.len() == 0,
    ensures
        runs::tuple_count(rules, states.take(m), k) <= runs::tuple_count(rules, states, k),
        states.len() > 0 ==> runs::runs_of(rules, states[p], k).len() <= runs::tuple_count(
            rules,
            states,
            k,
        ),
    decreases states.len(),
{
    if states.len() == 0 {
        assert(states.take(m) =~= states);
    } else {
        let front = states.drop_last();
        assert forall|r: int| 0 <= r < front.len() implies runs::runs_of(
            rules,
            #[trigger] front[r],
            k,
        ).len() > 0 by {
            assert(front[r] == states[r]);
        }
        let x = runs::tuple_count(rules, front, k) as int;
        assert(states[states.len() - 1] == states.last());
        let y = runs::runs_of(rules, states.last(), k).len() as int;
        lemma_tuple_positive(rules, front, k);
        assert(x <= x * y && y <= x * y) by (nonlinear_arith)
            requires
                x > 0,
                y > 0,
        ;
        if m < states.len() {
            lemma_tuple_share(rules, front, k, m, if front.len() > 0 { 0int } else { -1int });
            assert(front.take(m) =~= states.take(m));
        } else {
            assert(states.take(m) =~= states);
        }
        if p < states.len() - 1 {
            lemma_tuple_share(rules, front, k, 0, p);
            assert(front[p] == states[p]);
        }
    }
}

/// What one rule contributes is at most the whole.
pub proof fn lemma_rule_share(rules: Seq<RuleShape>, q: StateId, k: nat, i: int, n: nat)
    requires
        0 <= i < n <= rules.len(),
        rules[i].result == q,
        k > 0,
    ensures
        runs::runs_by_rule(rules, q, k, i as nat).len() + runs::tuple_count(
            rules,
            rules[i].children,
            (k - 1) as nat,
        ) <= runs::runs_by_rule(rules, q, k, n).len(),
    decreases n,
{
    runs::lemma_tuple_count(rules, rules[i].children, (k - 1) as nat);
    if i < n - 1 {
        lemma_rule_share(rules, q, k, i, (n - 1) as nat);
    }
}

/// What one accepting state contributes is at most the whole.
pub proof fn lemma_state_share(a: Automaton, k: nat, s: int, n: nat)
    requires
        0 <= s < n,
        n <= u32::MAX,
        a.accepting.contains(StateId(s as u32)),
    ensures
        runs::accepting_runs_below(a, k, s as nat).len() + runs::runs_of(
            automaton::rule_shapes(a.rules),
            StateId(s as u32),
            k,
        ).len() <= runs::accepting_runs_below(a, k, n).len(),
    decreases n,
{
    if s < n - 1 {
        lemma_state_share(a, k, s, (n - 1) as nat);
    }
}

/// No relevant state has more derivations than the automaton.
pub proof fn lemma_relevant_count(a: Automaton, order: Seq<StateId>, q: StateId)
    requires
        a.well_formed(),
        language_analysis::is_child_first(automaton::rule_shapes(a.rules), a.accepting, order),
        a.relevant(q),
    ensures
        runs::runs_of(automaton::rule_shapes(a.rules), q, a.states).len() <= derivation_count(a),
{
    let rules = automaton::rule_shapes(a.rules);
    let roots = language_analysis::productive_roots(rules, a.accepting);
    let mask = language_analysis::productive_mask(rules);
    let k = a.states;
    lemma_order_len(rules, a.accepting, order, k);
    let t = Set::new(
        |r: StateId| a.relevant(r) && runs::runs_of(rules, r, k).len() <= derivation_count(a),
    );
    assert forall|r: StateId| #[trigger] roots.contains(r) implies t.contains(r) by {
        assert(language_analysis::is_below(rules, roots, mask, r));
        assert(r.0 < a.states);
        assert(StateId(r.0 as int as u32) == r);
        lemma_state_share(a, k, r.0 as int, a.states);
    }
    assert forall|i: int|
        0 <= i < rules.len() && mask[i] && t.contains(
            rules[i].result,
        ) implies language_analysis::children_in(#[trigger] rules[i], t) by {
        assert(language_analysis::is_live(rules, a.accepting, i));
        let states = rules[i].children;
        assert forall|p: int| 0 <= p < states.len() implies t.contains(#[trigger] states[p]) by {
            assert forall|r: int| 0 <= r < states.len() implies runs::runs_of(
                rules,
                #[trigger] states[r],
                (k - 1) as nat,
            ).len() > 0 by {
                lemma_child_stable(rules, a.accepting, order, i, r, k);
                assert(language_analysis::is_productive(rules, rules[i].children[r]));
                lemma_relevant_has_run(rules, a.accepting, order, states[r], k);
            }
            lemma_child_stable(rules, a.accepting, order, i, p, k);
            lemma_tuple_share(rules, states, (k - 1) as nat, 0, p);
            lemma_rule_share(rules, rules[i].result, k, i, rules.len());
        }
    }
    assert(language_analysis::below_closed(rules, roots, mask, t));
    assert(t.contains(q));
}

/// Rules without result `q` add nothing to its derivations.
pub proof fn lemma_skip_rules(rules: Seq<RuleShape>, q: StateId, k: nat, m: nat, n: nat)
    requires
        m <= n <= rules.len(),
        forall|i: int| m <= i < n ==> (#[trigger] rules[i]).result != q,
    ensures
        runs::runs_by_rule(rules, q, k, n) == runs::runs_by_rule(rules, q, k, m),
    decreases n,
{
    if m < n {
        lemma_skip_rules(rules, q, k, m, (n - 1) as nat);
        if k > 0 {
            assert(rules[n - 1].result != q);
        }
    }
}

/// The rules with a given result are listed in increasing order.
pub proof fn lemma_result_list_sorted(rules: Seq<RuleShape>, q: StateId)
    requires
        rules.len() <= usize::MAX,
    ensures
        forall|i: int, j: int|
            0 <= i < j < language_analysis::rules_with_result(rules, q).len()
                ==> language_analysis::rules_with_result(rules, q)[i]
                < language_analysis::rules_with_result(rules, q)[j],
    decreases rules.len(),
{
    if rules.len() > 0 {
        let rest = rules.drop_last();
        lemma_result_list_sorted(rest, q);
        let earlier = language_analysis::rules_with_result(rest, q);
        assert forall|i: int| 0 <= i < earlier.len() implies #[trigger] earlier[i] < rest.len() by {
            assert(earlier.contains(earlier[i]));
            language_analysis::lemma_rules_with_result(rest, q, earlier[i]);
        }
    }
}

/// Before the `j`-th listed rule, and after the last, every rule with result `q` is
/// among the listed ones that came earlier.
pub proof fn lemma_result_list_gap(rules: Seq<RuleShape>, q: StateId, j: int)
    requires
        rules.len() <= usize::MAX,
        0 <= j <= language_analysis::rules_with_result(rules, q).len(),
    ensures
        ({
            let list = language_analysis::rules_with_result(rules, q);
            let low = if j == 0 { 0int } else { list[j - 1] + 1 };
            let high = if j < list.len() { list[j] as int } else { rules.len() as int };
            &&& 0 <= low <= high <= rules.len()
            &&& forall|i: int| low <= i < high ==> (#[trigger] rules[i]).result != q
            &&& j < list.len() ==> list[j] < rules.len() && rules[list[j] as int].result == q
        }),
{
    let list = language_analysis::rules_with_result(rules, q);
    lemma_result_list_sorted(rules, q);
    let low = if j == 0 { 0int } else { list[j - 1] + 1 };
    let high = if j < list.len() { list[j] as int } else { rules.len() as int };
    if j < list.len() {
        assert(list.contains(list[j]));
        language_analysis::lemma_rules_with_result(rules, q, list[j]);
    }
    if j > 0 {
        assert(list.contains(list[j - 1]));
        language_analysis::lemma_rules_with_result(rules, q, list[j - 1]);
    }
    assert forall|i: int| low <= i < high implies (#[trigger] rules[i]).result != q by {
        if rules[i].result == q {
            language_analysis::lemma_rules_with_result(rules, q, i as usize);
            let m = choose|m: int| 0 <= m < list.len() && list[m] == i as usize;
            if m < j {
                if m < j - 1 {
                    assert(list[m] < list[j - 1]);
                }
            } else if m > j {
                assert(list[j] < list[m]);
            }
        }
    }
}

impl Explicit {
    /// Counts accepting derivations with checked arithmetic.
    ///
    /// Productive cycles matter only when they lie below an accepting state through
    /// productive rules. Weights do not matter.
    pub fn language_cardinality_as<N: CheckedCount>(&self) -> (r: LanguageCardinality<N>)
        ensures
            is_cardinality(self@, r),
    {
        proof {
            use_type_invariant(self);
            self.lemma_well_formed();
        }
        let ghost a = self@;
        let ghost rules = automaton::rule_shapes(a.rules);
        let analysis = self.analyze();
        let order = match analysis.topological {
            Some(order) => order,
            None => {
                return LanguageCardinality::Infinite;
            },
        };
        let ghost k = a.states;
        proof {
            lemma_order_len(rules, a.accepting, order@, k);
        }
        let n: usize = self.num_states() as usize;
        let mut counts: Vec<N> = Vec::new();
        let mut s: usize = 0;
        while s < n
            invariant
                s <= n,
                counts@.len() == s,
            decreases n - s,
        {
            counts.push(N::zero());
            s += 1;
        }
        let mut b: usize = 0;
        while b < order.len()
            invariant
                b <= order@.len(),
                a == self@,
                a.well_formed(),
                a.rules.len() <= u32::MAX,
                rules == automaton::rule_shapes(a.rules),
                k == a.states,
                k == n,
                order@.len() <= k,
                forall|c: int| 0 <= c < order@.len() ==> (#[trigger] order@[c]).0 < n,
                language_analysis::is_child_first(rules, a.accepting, order@),
                !is_infinite(a),
                analysis.rules_by_result@.len() == n,
                analysis.productive_rules@.len() == rules.len(),
                forall|t: int|
                    0 <= t < n ==> (#[trigger] analysis.rules_by_result@[t])@
                        == language_analysis::rules_with_result(rules, StateId(t as u32)),
                forall|i: int|
                    0 <= i < rules.len() ==> #[trigger] analysis.productive_rules@[i]
                        == language_analysis::rule_productive(rules, i),
                counts@.len() == n,
                forall|c: int|
                    0 <= c < b ==> counts@[(#[trigger] order@[c]).0 as int].value()
                        == runs::runs_of(rules, order@[c], k).len(),
            decreases order@.len() - b,
        {
            let state = order[b];
            proof {
                assert(order@.contains(state));
            }
            let count = match self.count_state(
                &analysis.productive_rules,
                &analysis.rules_by_result[state.index()],
                &counts,
                state,
                Ghost(order@),
                Ghost(b as int),
            ) {
                Some(count) => count,
                None => {
                    proof {
                        lemma_relevant_count(a, order@, state);
                        if N::fits(derivation_count(a)) {
                            N::fits_downward(
                                runs::runs_of(rules, state, k).len(),
                                derivation_count(a),
                            );
                        }
                    }
                    return LanguageCardinality::TooLarge;
                },
            };
            let ghost before = counts@;
            counts[state.index()] = count;
            proof {
                assert forall|c: int| 0 <= c < b + 1 implies counts@[(
                #[trigger] order@[c]).0 as int].value() == runs::runs_of(
                    rules,
                    order@[c],
                    k,
                ).len() by {
                    if c < b {
                        assert(order@[c] != order@[b as int]);
                        assert(counts@[order@[c].0 as int] == before[order@[c].0 as int]);
                    }
                }
            }
            b += 1;
        }
        let mut total = N::zero();
        let mut i: usize = 0;
        while i < n
            invariant
                i <= n,
                a == self@,
                a.well_formed(),
                rules == automaton::rule_shapes(a.rules),
                k == a.states,
                k == n,
                !is_infinite(a),
                language_analysis::is_child_first(rules, a.accepting, order@),
                analysis.productive@.len() == n,
                forall|t: int|
                    0 <= t < n ==> #[trigger] analysis.productive@[t]
                        == language_analysis::is_productive(rules, StateId(t as u32)),
                counts@.len() == n,
                forall|c: int|
                    0 <= c < order@.len() ==> counts@[(#[trigger] order@[c]).0 as int].value()
                        == runs::runs_of(rules, order@[c], k).len(),
                total.value() == runs::accepting_runs_below(a, k, i as nat).len(),
            decreases n - i,
        {
            let state = StateId(i as u32);
            if self.is_accepting(&state) {
                if analysis.productive[i] {
                    proof {
                        assert(analysis.productive@[i as int] == language_analysis::is_productive(
                            rules,
                            StateId(i as int as u32),
                        ));
                        assert(language_analysis::productive_roots(rules, a.accepting).contains(
                            state,
                        ));
                        assert(a.relevant(state));
                        assert(order@.contains(state));
                        let c = choose|c: int| 0 <= c < order@.len() && order@[c] == state;
                        assert(counts@[order@[c].0 as int].value() == runs::runs_of(
                            rules,
                            state,
                            k,
                        ).len());
                        lemma_state_share(a, k, i as int, a.states);
                    }
                    match total.checked_add(&counts[i]) {
                        Some(next) => {
                            total = next;
                        },
                        None => {
                            proof {
                                if N::fits(derivation_count(a)) {
                                    N::fits_downward(
                                        runs::accepting_runs_below(a, k, i as nat).len()
                                            + runs::runs_of(rules, state, k).len(),
                                        derivation_count(a),
                                    );
                                }
                            }
                            return LanguageCardinality::TooLarge;
                        },
                    }
                } else {
                    proof {
                        runs::lemma_unproductive_empty(rules, state, k);
                    }
                }
            }
            i += 1;
        }
        LanguageCardinality::Finite(total)
    }

    /// The number of derivations that end in state number `b` of the order, when it
    /// is representable.
    fn count_state<N: CheckedCount>(
        &self,
        productive_rules: &Vec<bool>,
        list: &Vec<usize>,
        counts: &Vec<N>,
        state: StateId,
        Ghost(order): Ghost<Seq<StateId>>,
        Ghost(b): Ghost<int>,
    ) -> (r: Option<N>)
        requires
            self@.well_formed(),
            self@.rules.len() <= u32::MAX,
            language_analysis::is_child_first(
                automaton::rule_shapes(self@.rules),
                self@.accepting,
                order,
            ),
            order.len() <= self@.states,
            0 <= b < order.len(),
            order[b] == state,
            productive_rules@.len() == self@.rules.len(),
            forall|i: int|
                0 <= i < self@.rules.len() ==> #[trigger] productive_rules@[i]
                    == language_analysis::rule_productive(
                    automaton::rule_shapes(self@.rules),
                    i,
                ),
            list@ == language_analysis::rules_with_result(
                automaton::rule_shapes(self@.rules),
                state,
            ),
            counts@.len() == self@.states,
            forall|c: int|
                0 <= c < b ==> counts@[(#[trigger] order[c]).0 as int].value() == runs::runs_of(
                    automaton::rule_shapes(self@.rules),
                    order[c],
                    self@.states,
                ).len(),
        ensures
            match r {
                Some(count) => count.value() == runs::runs_of(
                    automaton::rule_shapes(self@.rules),
                    state,
                    self@.states,
                ).len(),
                None => !N::fits(
                    runs::runs_of(
                        automaton::rule_shapes(self@.rules),
                        state,
                        self@.states,
                    ).len(),
                ),
            },
    {
        let ghost a = self@;
        let ghost rules = automaton::rule_shapes(a.rules);
        let ghost k = a.states;
        let ghost whole = runs::runs_of(rules, state, k).len();
        let mut total = N::zero();
        let mut j: usize = 0;
        proof {
            lemma_result_list_gap(rules, state, 0);
            lemma_skip_rules(
                rules,
                state,
                k,
                0,
                if list@.len() > 0 { list@[0] as nat } else { rules.len() },
            );
        }
        while j < list.len()
            invariant
                j <= list@.len(),
                a == self@,
                a.well_formed(),
                a.rules.len() <= u32::MAX,
                rules == automaton::rule_shapes(a.rules),
                k == a.states,
                whole == runs::runs_of(rules, state, k).len(),
                language_analysis::is_child_first(rules, a.accepting, order),
                order.len() <= k,
                0 <= b < order.len(),
                order[b] == state,
                productive_rules@.len() == rules.len(),
                forall|i: int|
                    0 <= i < rules.len() ==> #[trigger] productive_rules@[i]
                        == language_analysis::rule_productive(rules, i),
                list@ == language_analysis::rules_with_result(rules, state),
                counts@.len() == k,
                forall|c: int|
                    0 <= c < b ==> counts@[(#[trigger] order[c]).0 as int].value()
                        == runs::runs_of(rules, order[c], k).len(),
                total.value() == runs::runs_by_rule(
                    rules,
                    state,
                    k,
                    if j < list@.len() { list@[j as int] as nat } else { rules.len() },
                ).len(),
            decreases list@.len() - j,
        {
            let rule_index: usize = list[j];
            let ghost i = rule_index as int;
            proof {
                lemma_result_list_gap(rules, state, j as int);
                lemma_result_list_gap(rules, state, j + 1);
                lemma_skip_rules(
                    rules,
                    state,
                    k,
                    (i + 1) as nat,
                    if j + 1 < list@.len() { list@[j + 1] as nat } else { rules.len() },
                );
                lemma_rule_share(rules, state, k, i, rules.len());
                runs::lemma_tuple_count(rules, rules[i].children, (k - 1) as nat);
            }
            if !productive_rules[rule_index] {
                proof {
                    runs::lemma_unproductive_rule(rules, i, (k - 1) as nat);
                }
                j += 1;
                continue ;
            }
            let rule = self.rule(rule_index);
            let ghost states = rules[i].children;
            proof {
                assert(order.contains(state));
                assert(language_analysis::is_live(rules, a.accepting, i));
                assert forall|p: int| 0 <= p < states.len() implies runs::runs_of(
                    rules,
                    #[trigger] states[p],
                    (k - 1) as nat,
                ).len() > 0 && states[p].0 < k && counts@[states[p].0 as int].value()
                    == runs::runs_of(rules, states[p], (k - 1) as nat).len() by {
                    lemma_child_stable(rules, a.accepting, order, i, p, k);
                    assert(language_analysis::is_productive(rules, rules[i].children[p]));
                    lemma_relevant_has_run(rules, a.accepting, order, states[p], k);
                    assert(order.contains(states[p]));
                    let c = choose|c: int| 0 <= c < order.len() && order[c] == states[p];
                    assert(order[c] == rules[i].children[p]);
                    assert(c < b);
                    assert(counts@[order[c].0 as int].value() == runs::runs_of(
                        rules,
                        order[c],
                        k,
                    ).len());
                    assert(language_analysis::shape_below(rules[i], k));
                    assert(rules[i].children[p].0 < k);
                }
            }
            let mut combinations = N::one();
            let mut p: usize = 0;
            assert(states.take(0) =~= Seq::empty());
            while p < rule.children.len()
                invariant
                    p <= rule.children@.len(),
                    rule.children@ == states,
                    k > 0,
                    counts@.len() == k,
                    forall|r: int|
                        0 <= r < states.len() ==> runs::runs_of(
                            rules,
                            #[trigger] states[r],
                            (k - 1) as nat,
                        ).len() > 0 && states[r].0 < k && counts@[states[r].0 as int].value()
                            == runs::runs_of(rules, states[r], (k - 1) as nat).len(),
                    runs::tuple_count(rules, states, (k - 1) as nat) <= whole,
                    whole == runs::runs_of(rules, state, k).len(),
                    a == self@,
                    rules == automaton::rule_shapes(a.rules),
                    k == a.states,
                    combinations.value() == runs::tuple_count(
                        rules,
                        states.take(p as int),
                        (k - 1) as nat,
                    ),
                decreases rule.children@.len() - p,
            {
                let child = rule.children[p];
                proof {
                    assert(child == states[p as int]);
                    assert(states.take(p + 1).drop_last() =~= states.take(p as int));
                    assert(states.take(p + 1).last() == child);
                    lemma_tuple_share(rules, states, (k - 1) as nat, p + 1, p as int);
                }
                match combinations.checked_mul(&counts[child.index()]) {
                    Some(next) => {
                        combinations = next;
                    },
                    None => {
                        proof {
                            if N::fits(whole) {
                                N::fits_downward(
                                    runs::tuple_count(
                                        rules,
                                        states.take(p + 1),
                                        (k - 1) as nat,
                                    ),
                                    whole,
                                );
                            }
                        }
                        return None;
                    },
                }
                p += 1;
            }
            assert(states.take(p as int) =~= states);
            match total.checked_add(&combinations) {
                Some(next) => {
                    total = next;
                },
                None => {
                    proof {
                        if N::fits(whole) {
                            N::fits_downward(
                                runs::runs_by_rule(rules, state, k, i as nat).len()
                                    + runs::tuple_count(rules, states, (k - 1) as nat),
                                whole,
                            );
                        }
                    }
                    return None;
                },
            }
            j += 1;
        }
        Some(total)
    }

    /// Counts accepting derivations with checked `usize` arithmetic.
    pub fn language_cardinality(&self) -> (r: LanguageCardinality)
        ensures
            is_cardinality(self@, r),
    {
        self.language_cardinality_as::<usize>()
    }
}

/// The derivations of a finite language are all found within as many levels as the
/// automaton has states.
pub proof fn law_finite_language_is_complete(a: Automaton, order: Seq<StateId>, k: nat)
    requires
        a.well_formed(),
        language_analysis::is_child_first(automaton::rule_shapes(a.rules), a.accepting, order),
        k >= a.states,
    ensures
        runs::accepting_runs(a, k) == runs::accepting_runs(a, a.states),
{
    lemma_order_len(automaton::rule_shapes(a.rules), a.accepting, order, a.states);
    lemma_accepting_stable(a, order, k, a.states);
}

proof fn lemma_accepting_stable(a: Automaton, order: Seq<StateId>, k: nat, n: nat)
    requires
        language_analysis::is_child_first(automaton::rule_shapes(a.rules), a.accepting, order),
        order.len() <= a.states,
        k >= a.states,
        n <= a.states,
    ensures
        runs::accepting_runs_below(a, k, n) == runs::accepting_runs_below(a, a.states, n),
    decreases n,
{
    let rules = automaton::rule_shapes(a.rules);
    if n > 0 {
        lemma_accepting_stable(a, order, k, (n - 1) as nat);
        let q = StateId((n - 1) as u32);
        if a.accepting.contains(q) {
            if language_analysis::is_productive(rules, q) {
                assert(language_analysis::productive_roots(rules, a.accepting).contains(q));
                assert(a.relevant(q));
                lemma_relevant_stable(rules, a.accepting, order, q, k, a.states);
            } else {
                runs::lemma_unproductive_empty(rules, q, k);
                runs::lemma_unproductive_empty(rules, q, a.states);
                assert(runs::runs_of(rules, q, k) =~= runs::runs_of(rules, q, a.states));
            }
        }
    }
}

} // verus!
