//! Which rules and states an automaton lists.
use crate::automaton;
use crate::automaton::RuleModel;
use crate::ids::{StateId, Symbol};
use vstd::prelude::*;

verus! {

/// A symbol over children gets the results of the rules for it, each once and no other.
pub proof fn law_results_are_those_of_rules(
    rules: Seq<RuleModel>,
    f: Symbol,
    children: Seq<StateId>,
)
    ensures
        automaton::result_numbers(rules, f, children).no_duplicates(),
        forall|n: usize| #[trigger]
            automaton::result_numbers(rules, f, children).contains(n) <==> exists|i: int|
                0 <= i < rules.len() && (#[trigger] rules[i]).symbol == f && rules[i].children
                    == children && rules[i].result.0 == n,
    decreases rules.len(),
{
    if rules.len() > 0 {
        let front = rules.drop_last();
        let last = rules.len() - 1;
        law_results_are_those_of_rules(front, f, children);
        let before = automaton::result_numbers(front, f, children);
        let all = automaton::result_numbers(rules, f, children);
        assert forall|n: usize| #[trigger] all.contains(n) <==> exists|i: int|
            0 <= i < rules.len() && (#[trigger] rules[i]).symbol == f && rules[i].children
                == children && rules[i].result.0 == n by {
            if all.contains(n) {
                let k = choose|k: int| 0 <= k < all.len() && all[k] == n;
                if k < before.len() {
                    assert(before[k] == n);
                    assert(before.contains(n));
                    let i = choose|i: int|
                        0 <= i < front.len() && (#[trigger] front[i]).symbol == f
                            && front[i].children == children && front[i].result.0 == n;
                    assert(rules[i] == front[i]);
                } else {
                    assert(rules[last].symbol == f);
                }
            }
            if exists|i: int|
                0 <= i < rules.len() && (#[trigger] rules[i]).symbol == f && rules[i].children
                    == children && rules[i].result.0 == n {
                let i = choose|i: int|
                    0 <= i < rules.len() && (#[trigger] rules[i]).symbol == f && rules[i].children
                        == children && rules[i].result.0 == n;
                if i < last {
                    assert(front[i] == rules[i]);
                    assert(before.contains(n));
                }
                if before.contains(n) {
                    let k = choose|k: int| 0 <= k < before.len() && before[k] == n;
                    assert(all[k] == n);
                } else {
                    assert(all[all.len() - 1] == n);
                }
            }
        }
    }
}

/// The rules for a symbol with a state in a place are listed by their numbers, all of them
/// and no other.
pub proof fn law_rules_by_child(
    rules: Seq<RuleModel>,
    f: Symbol,
    position: usize,
    q: StateId,
)
    requires
        rules.len() <= usize::MAX,
    ensures
        forall|i: int, j: int|
            0 <= i < j < automaton::rules_with_child(rules, f, position, q).len() ==> (
            #[trigger] automaton::rules_with_child(rules, f, position, q)[i]) < (
            #[trigger] automaton::rules_with_child(rules, f, position, q)[j]),
        forall|k: usize| #[trigger]
            automaton::rules_with_child(rules, f, position, q).contains(k) <==> k < rules.len()
                && rules[k as int].symbol == f && position < rules[k as int].children.len()
                && rules[k as int].children[position as int] == q,
    decreases rules.len(),
{
    if rules.len() > 0 {
        let front = rules.drop_last();
        let last = rules.len() - 1;
        law_rules_by_child(front, f, position, q);
        let before = automaton::rules_with_child(front, f, position, q);
        let all = automaton::rules_with_child(rules, f, position, q);
        assert forall|i: int, j: int| 0 <= i < j < all.len() implies (#[trigger] all[i]) < (
        #[trigger] all[j]) by {
            assert(all[i] == before[i]);
            assert(before.contains(before[i]));
            if j < before.len() {
                assert(all[j] == before[j]);
            }
        }
        assert forall|k: usize| #[trigger] all.contains(k) <==> k < rules.len()
            && rules[k as int].symbol == f && position < rules[k as int].children.len()
            && rules[k as int].children[position as int] == q by {
            if all.contains(k) {
                let i = choose|i: int| 0 <= i < all.len() && all[i] == k;
                if i < before.len() {
                    assert(before[i] == k);
                    assert(before.contains(k));
                    assert(front[k as int] == rules[k as int]);
                }
            }
            if k < rules.len() && rules[k as int].symbol == f && position
                < rules[k as int].children.len() && rules[k as int].children[position as int]
                == q {
                if k < last {
                    assert(front[k as int] == rules[k as int]);
                    assert(before.contains(k));
                    let i = choose|i: int| 0 <= i < before.len() && before[i] == k;
                    assert(all[i] == k);
                } else {
                    assert(all[all.len() - 1] == k);
                }
            }
        }
    }
}

} // verus!
