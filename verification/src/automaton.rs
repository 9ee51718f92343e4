//! The mathematical model of an explicit tree automaton.
use crate::ids::{StateId, Symbol};
use crate::language_analysis;
use crate::language_analysis::RuleShape;
use crate::weight::Weight;
use vstd::prelude::*;

verus! {

/// A weighted transition rule.
pub struct RuleModel {
    pub symbol: Symbol,
    pub children: Seq<StateId>,
    pub result: StateId,
    pub weight: Weight,
}

/// A tree automaton: how many states it has, which accept, and its rules in order.
pub struct Automaton {
    pub states: nat,
    pub accepting: Set<StateId>,
    pub rules: Seq<RuleModel>,
}

/// The shape of a rule.
pub open spec fn shape_of(rule: RuleModel) -> RuleShape {
    RuleShape { children: rule.children, result: rule.result }
}

/// The shapes of the rules.
pub open spec fn rule_shapes(rules: Seq<RuleModel>) -> Seq<RuleShape> {
    Seq::new(rules.len(), |i: int| shape_of(rules[i]))
}

impl Automaton {
    /// Whether rules and accepting states mention only states of the automaton.
    pub open spec fn well_formed(self) -> bool {
        &&& language_analysis::shapes_below(rule_shapes(self.rules), self.states)
        &&& forall|q: StateId| #[trigger] self.accepting.contains(q) ==> q.0 < self.states
        &&& self.states <= u32::MAX
    }

    /// Whether some finite tree can get state `q` at its root.
    pub open spec fn productive(self, q: StateId) -> bool {
        language_analysis::is_productive(rule_shapes(self.rules), q)
    }

    /// Whether `q` occurs in an accepting derivation.
    pub open spec fn relevant(self, q: StateId) -> bool {
        language_analysis::is_relevant(rule_shapes(self.rules), self.accepting, q)
    }

    /// Whether rule `i` occurs in an accepting derivation.
    pub open spec fn live(self, i: int) -> bool {
        language_analysis::is_live(rule_shapes(self.rules), self.accepting, i)
    }
}

/// Whether two rules are the same transition, whatever their weights.
pub open spec fn same_transition(a: RuleModel, b: RuleModel) -> bool {
    a.symbol == b.symbol && a.children == b.children && a.result == b.result
}

/// Whether rule `i` repeats an earlier transition.
pub open spec fn repeats(rules: Seq<RuleModel>, i: int) -> bool {
    exists|j: int| 0 <= j < i && same_transition(#[trigger] rules[j], rules[i])
}

/// Whether no transition occurs twice.
pub open spec fn unique_transitions(rules: Seq<RuleModel>) -> bool {
    forall|i: int| 0 <= i < rules.len() ==> !#[trigger] repeats(rules, i)
}

/// Whether rule `i` is the first that repeats an earlier transition.
pub open spec fn first_repeat(rules: Seq<RuleModel>, i: int) -> bool {
    &&& 0 <= i < rules.len()
    &&& repeats(rules, i)
    &&& forall|k: int| 0 <= k < i ==> !#[trigger] repeats(rules, k)
}

/// Whether a rule applies to `f` over `children`.
pub open spec fn applies(rule: RuleModel, f: Symbol, children: Seq<StateId>) -> bool {
    rule.symbol == f && rule.children == children
}

/// The numbers of the states that `f` over `children` may get, each where a rule
/// gives it first.
pub open spec fn result_numbers(
    rules: Seq<RuleModel>,
    f: Symbol,
    children: Seq<StateId>,
) -> Seq<usize>
    decreases rules.len(),
{
    if rules.len() == 0 {
        Seq::empty()
    } else {
        let earlier = result_numbers(rules.drop_last(), f, children);
        let number = rules.last().result.0 as usize;
        if applies(rules.last(), f, children) && !earlier.contains(number) {
            earlier.push(number)
        } else {
            earlier
        }
    }
}

/// The states that `f` over `children` may get, each where a rule gives it first.
pub open spec fn results_of(
    rules: Seq<RuleModel>,
    f: Symbol,
    children: Seq<StateId>,
) -> Seq<StateId> {
    let numbers = result_numbers(rules, f, children);
    Seq::new(numbers.len(), |i: int| StateId(numbers[i] as u32))
}

/// Whether some rule takes `f` over `children` to `q`.
pub open spec fn has_transition(
    rules: Seq<RuleModel>,
    f: Symbol,
    children: Seq<StateId>,
    q: StateId,
) -> bool {
    exists|i: int|
        0 <= i < rules.len() && applies(#[trigger] rules[i], f, children) && rules[i].result == q
}

/// Whether a rule for `f` has child `q` at `position`.
pub open spec fn has_child(rule: RuleModel, f: Symbol, position: usize, q: StateId) -> bool {
    rule.symbol == f && position < rule.children.len() && rule.children[position as int] == q
}

/// The numbers of the rules for `f` with child `q` at `position`, in rule order.
pub open spec fn rules_with_child(
    rules: Seq<RuleModel>,
    f: Symbol,
    position: usize,
    q: StateId,
) -> Seq<usize>
    decreases rules.len(),
{
    if rules.len() == 0 {
        Seq::empty()
    } else {
        let earlier = rules_with_child(rules.drop_last(), f, position, q);
        if has_child(rules.last(), f, position, q) {
            earlier.push((rules.len() - 1) as usize)
        } else {
            earlier
        }
    }
}

/// A number is among the results exactly when a rule gives it.
pub proof fn lemma_result_numbers(
    rules: Seq<RuleModel>,
    f: Symbol,
    children: Seq<StateId>,
    n: usize,
)
    ensures
        result_numbers(rules, f, children).contains(n) <==> (n <= u32::MAX && has_transition(
            rules,
            f,
            children,
            StateId(n as u32),
        )),
        result_numbers(rules, f, children).no_duplicates(),
    decreases rules.len(),
{
    let all = result_numbers(rules, f, children);
    if rules.len() > 0 {
        let rest = rules.drop_last();
        let earlier = result_numbers(rest, f, children);
        let number = rules.last().result.0 as usize;
        lemma_result_numbers(rest, f, children, n);
        lemma_result_numbers(rest, f, children, number);
        if has_transition(rest, f, children, StateId(n as u32)) {
            let i = choose|i: int|
                0 <= i < rest.len() && applies(#[trigger] rest[i], f, children) && rest[i].result
                    == StateId(n as u32);
            assert(rules[i] == rest[i]);
        }
        if n <= u32::MAX && has_transition(rules, f, children, StateId(n as u32)) {
            let i = choose|i: int|
                0 <= i < rules.len() && applies(#[trigger] rules[i], f, children)
                    && rules[i].result == StateId(n as u32);
            if i < rest.len() {
                assert(rest[i] == rules[i]);
            }
        }
        assert(rules[rules.len() - 1] == rules.last());
        crate::symbol_set::lemma_push_contains(earlier, number, n);
        if all != earlier {
            assert forall|a: int, b: int| 0 <= a < all.len() && 0 <= b < all.len() && a
                != b implies all[a] != all[b] by {
                if a == earlier.len() {
                    assert(earlier.contains(earlier[b]));
                } else if b == earlier.len() {
                    assert(earlier.contains(earlier[a]));
                }
            }
        }
    }
}

/// The states that a node may get are those that a rule gives, once each.
pub proof fn lemma_results_of(
    rules: Seq<RuleModel>,
    f: Symbol,
    children: Seq<StateId>,
    q: StateId,
)
    ensures
        results_of(rules, f, children).contains(q) <==> has_transition(rules, f, children, q),
        results_of(rules, f, children).no_duplicates(),
{
    let numbers = result_numbers(rules, f, children);
    let states = results_of(rules, f, children);
    lemma_result_numbers(rules, f, children, q.0 as usize);
    assert forall|i: int| 0 <= i < numbers.len() implies #[trigger] numbers[i] <= u32::MAX by {
        assert(numbers.contains(numbers[i]));
        lemma_result_numbers(rules, f, children, numbers[i]);
    }
    if states.contains(q) {
        let i = choose|i: int| 0 <= i < states.len() && states[i] == q;
        assert(numbers[i] == q.0 as usize);
    }
    if numbers.contains(q.0 as usize) {
        let i = choose|i: int| 0 <= i < numbers.len() && numbers[i] == q.0 as usize;
        assert(states[i] == q);
    }
    assert forall|a: int, b: int| 0 <= a < states.len() && 0 <= b < states.len() && a
        != b implies states[a] != states[b] by {
        assert(numbers[a] != numbers[b]);
        assert(numbers[a] <= u32::MAX && numbers[b] <= u32::MAX);
    }
}

/// A rule is listed for a child exactly when it has that child.
pub proof fn lemma_rules_with_child(
    rules: Seq<RuleModel>,
    f: Symbol,
    position: usize,
    q: StateId,
    i: usize,
)
    requires
        rules.len() <= usize::MAX,
    ensures
        rules_with_child(rules, f, position, q).contains(i) <==> (i < rules.len() && has_child(
            rules[i as int],
            f,
            position,
            q,
        )),
    decreases rules.len(),
{
    if rules.len() > 0 {
        let rest = rules.drop_last();
        lemma_rules_with_child(rest, f, position, q, i);
        crate::symbol_set::lemma_push_contains(
            rules_with_child(rest, f, position, q),
            (rules.len() - 1) as usize,
            i,
        );
    }
}

} // verus!
