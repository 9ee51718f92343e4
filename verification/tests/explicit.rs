//! Tests of explicit automata and their builder.
use rusty_alto::builder::{ExplicitBuildError, ExplicitBuilder};
use rusty_alto::explicit::Explicit;
use rusty_alto::finite_language::FiniteLanguagePlan;
use rusty_alto::ids::{StateId, Symbol};
use rusty_alto::language_cardinality::LanguageCardinality;
use rusty_alto::symbol_set::SymbolSet;
use rusty_alto::tables::StateTuple;
use rusty_alto::traits::{BottomUpTa, CondensedTa, DetBottomUpTa, IndexedBottomUpTa, TopDownTa};
use rusty_alto::weight::Weight;

fn w(value: f64) -> Weight {
    Weight { bits: value.to_bits() }
}

fn rule_list(automaton: &Explicit) -> Vec<(Symbol, Vec<StateId>, StateId, Weight)> {
    automaton
        .rules()
        .iter()
        .map(|rule| (rule.symbol, rule.children.to_vec(), rule.result, rule.weight))
        .collect()
}

#[test]
fn trimming_removes_dead_states_and_maps_survivors_densely() {
    let mut b = ExplicitBuilder::new();
    let dead_leaf = b.new_state();
    let useful_leaf = b.new_state();
    let dead_cycle = b.new_state();
    let root = b.new_state();
    b.add_rule(Symbol(0), vec![], dead_leaf);
    b.add_weighted_rule(Symbol(1), vec![], useful_leaf, w(-0.0));
    b.add_rule(Symbol(2), vec![dead_cycle], dead_cycle);
    b.add_weighted_rule(Symbol(3), vec![useful_leaf], root, w(-2.5));
    b.add_accepting(root);

    let trimmed = b.build_trimmed();
    assert_eq!(trimmed.automaton.num_states(), 2);
    assert_eq!(trimmed.automaton.num_rules(), 2);
    assert_eq!(trimmed.state_mapping.new_state(dead_leaf), None);
    assert_eq!(trimmed.state_mapping.new_state(dead_cycle), None);
    assert_eq!(
        trimmed.state_mapping.new_state(useful_leaf),
        Some(StateId(0))
    );
    assert_eq!(trimmed.state_mapping.new_state(root), Some(StateId(1)));
    assert_eq!(trimmed.state_mapping.old_state(StateId(0)), useful_leaf);
    assert_eq!(trimmed.state_mapping.old_state(StateId(1)), root);
    assert!(trimmed.automaton.is_accepting(&StateId(1)));
    assert_eq!(
        trimmed.automaton.rule(0).weight.bits,
        (-0.0f64).to_bits()
    );
    assert_eq!(trimmed.automaton.rule(1).weight, w(-2.5));
}

#[test]
fn trimming_keeps_derivations_and_their_weights() {
    let make = || {
        let mut b = ExplicitBuilder::new();
        let dead = b.new_state();
        let leaf = b.new_state();
        let root = b.new_state();
        b.add_rule(Symbol(9), vec![leaf], dead);
        b.add_weighted_rule(Symbol(0), vec![], leaf, w(0.5));
        b.add_weighted_rule(Symbol(1), vec![], leaf, w(0.25));
        b.add_weighted_rule(Symbol(2), vec![leaf, leaf], root, w(0.125));
        b.add_accepting(root);
        b
    };
    let listed = |automaton: &Explicit| {
        let plan = FiniteLanguagePlan::new(automaton).ok().unwrap();
        let mut iterator = plan.iter();
        let mut found: Vec<Vec<(Symbol, Weight)>> = Vec::new();
        while iterator.advance() {
            let nodes = iterator.current().unwrap().nodes();
            found.push(
                nodes
                    .iter()
                    .map(|node| (node.symbol(), automaton.rule(node.rule_index()).weight))
                    .collect(),
            );
        }
        found
    };
    let before = make().build();
    let after = make().build_trimmed();
    assert_eq!(after.automaton.num_states(), 2);
    assert_eq!(listed(&before).len(), 4);
    assert_eq!(listed(&before), listed(&after.automaton));
}

#[test]
fn trimming_keeps_productive_cycles_and_excludes_unproductive_rules() {
    let mut b = ExplicitBuilder::new();
    let leaf = b.new_state();
    let bad = b.new_state();
    let root = b.new_state();
    b.add_rule(Symbol(0), vec![], leaf);
    b.add_rule(Symbol(1), vec![leaf], root);
    b.add_rule(Symbol(2), vec![root], leaf);
    b.add_rule(Symbol(3), vec![bad], root);
    b.add_rule(Symbol(4), vec![bad], bad);
    b.add_accepting(root);
    let trimmed = b.build_trimmed();
    assert_eq!(trimmed.automaton.num_states(), 2);
    assert_eq!(trimmed.automaton.num_rules(), 3);
    assert_eq!(
        trimmed.automaton.language_cardinality(),
        LanguageCardinality::Infinite
    );
}

#[test]
fn trimming_empty_language_returns_empty_mapping_and_automaton() {
    let mut b = ExplicitBuilder::new();
    let q = b.new_state();
    b.add_rule(Symbol(0), vec![], q);
    let trimmed = b.build_trimmed();
    assert!(trimmed.state_mapping.is_empty());
    assert_eq!(trimmed.automaton.num_states(), 0);
    assert_eq!(trimmed.automaton.num_rules(), 0);
}

#[test]
fn trimming_ignores_duplicates_in_dead_components() {
    let mut b = ExplicitBuilder::new();
    let q = b.new_state();
    b.add_rule(Symbol(0), vec![], q);
    b.add_weighted_rule(Symbol(0), vec![], q, w(2.0));
    let trimmed = b.try_build_trimmed().unwrap();
    assert!(trimmed.automaton.rules().is_empty());
}

#[test]
fn trimming_rejects_duplicate_surviving_transitions() {
    let mut b = ExplicitBuilder::new();
    let q = b.new_state();
    b.add_rule(Symbol(0), vec![], q);
    b.add_weighted_rule(Symbol(0), vec![], q, w(2.0));
    b.add_accepting(q);
    assert!(matches!(
        b.try_build_trimmed(),
        Err(ExplicitBuildError::DuplicateTransition { .. })
    ));
}

#[test]
fn build_errors_have_texts() {
    let err = ExplicitBuildError::DuplicateTransition {
        symbol: Symbol(3),
        children: vec![StateId(1), StateId::stuck()],
        result: StateId(20),
    };
    assert_eq!(
        err.text(),
        "duplicate transition for symbol Symbol(3), children [StateId(1), StateId::STUCK], \
         result StateId(20)"
    );
}

#[test]
fn productive_trimming_matches_general_trimming() {
    fn builder() -> ExplicitBuilder {
        let mut b = ExplicitBuilder::new();
        let leaf = b.new_state();
        let middle = b.new_state();
        let root = b.new_state();
        b.add_rule(Symbol(0), vec![], leaf);
        b.add_rule(Symbol(1), vec![leaf], middle);
        b.add_rule(Symbol(2), vec![middle, leaf], root);
        b.add_rule(Symbol(3), vec![leaf], root);
        b.add_accepting(root);
        b
    }

    let general = builder().build_trimmed();
    let specialized = builder().build_trimmed_assuming_productive();
    assert_eq!(general.state_mapping.len(), specialized.state_mapping.len());
    for state in 0..3 {
        assert_eq!(
            general.state_mapping.new_state(StateId(state)),
            specialized.state_mapping.new_state(StateId(state))
        );
    }
    for state in 0..general.state_mapping.len() {
        assert_eq!(
            general.state_mapping.old_state(StateId(state as u32)),
            specialized.state_mapping.old_state(StateId(state as u32))
        );
    }
    assert_eq!(rule_list(&general.automaton), rule_list(&specialized.automaton));
}

#[test]
fn trimming_preserves_repeated_children_and_child_order() {
    let mut b = ExplicitBuilder::new();
    let first = b.new_state();
    let removed = b.new_state();
    let second = b.new_state();
    let root = b.new_state();
    b.add_rule(Symbol(0), vec![], first);
    b.add_rule(Symbol(1), vec![], second);
    b.add_rule(Symbol(2), vec![], removed);
    b.add_rule(Symbol(3), vec![second, first, second], root);
    b.add_accepting(root);
    let trimmed = b.build_trimmed();
    assert_eq!(trimmed.state_mapping.new_state(removed), None);
    assert_eq!(
        trimmed.automaton.rule(2).children,
        &[StateId(1), StateId(0), StateId(1)]
    );
}

#[test]
fn trimming_a_deep_chain_is_iterative() {
    let mut b = ExplicitBuilder::new();
    let mut state = b.new_state();
    b.add_rule(Symbol(0), vec![], state);
    for _ in 0..20_000 {
        let parent = b.new_state();
        b.add_rule(Symbol(1), vec![state], parent);
        state = parent;
    }
    b.add_accepting(state);
    let trimmed = b.build_trimmed();
    assert_eq!(trimmed.automaton.num_states(), 20_001);
    assert_eq!(trimmed.automaton.num_rules(), 20_001);
}

#[test]
fn add_rule_defaults_to_unit_weight() {
    let mut b = ExplicitBuilder::new();
    let q = b.new_state();
    b.add_rule(Symbol(1), vec![], q);
    let e = b.build();
    let rule = e.rule(0);
    assert_eq!(rule.weight, w(1.0));
    let out = e.step(Symbol(1), &[]);
    assert_eq!(out, vec![q]);
}

#[test]
fn add_rule_from_iter_defaults_to_unit_weight_and_preserves_children() {
    let mut b = ExplicitBuilder::new();
    let child = b.new_state();
    let result = b.new_state();
    b.add_rule_from_iter(Symbol(1), &[child, child], result);
    let e = b.build();
    let rule = e.rule(0);
    assert_eq!(rule.children, &[child, child]);
    assert_eq!(rule.weight, w(1.0));
}

#[test]
fn add_weighted_rule_stores_weight() {
    let mut b = ExplicitBuilder::new();
    let q = b.new_state();
    b.add_weighted_rule(Symbol(1), vec![], q, w(0.25));
    let e = b.build();
    let rule = e.rule(0);
    assert_eq!(rule.weight, w(0.25));
}

#[test]
fn add_weighted_rule_inline_preserves_child_tuple() {
    let mut b = ExplicitBuilder::new();
    let left = b.new_state();
    let right = b.new_state();
    let parent = b.new_state();
    b.add_weighted_rule_inline(
        Symbol(1),
        StateTuple::new(vec![left, right]),
        parent,
        w(0.75),
    );

    let e = b.build();
    let rule = e.rule(0);
    assert_eq!(rule.children, &[left, right]);
    assert_eq!(rule.result, parent);
    assert_eq!(rule.weight, w(0.75));
}

#[test]
fn builder_rejects_duplicate_transition_with_same_weight() {
    let mut b = ExplicitBuilder::new();
    let q = b.new_state();
    b.add_weighted_rule(Symbol(1), vec![], q, w(0.5));
    b.add_weighted_rule(Symbol(1), vec![], q, w(0.5));
    assert!(matches!(
        b.try_build(),
        Err(ExplicitBuildError::DuplicateTransition { .. })
    ));
}

#[test]
fn builder_rejects_duplicate_transition_with_different_weight() {
    let mut b = ExplicitBuilder::new();
    let q = b.new_state();
    b.add_weighted_rule(Symbol(1), vec![], q, w(0.5));
    b.add_weighted_rule(Symbol(1), vec![], q, w(0.75));
    assert!(matches!(
        b.try_build(),
        Err(ExplicitBuildError::DuplicateTransition { .. })
    ));
}

#[test]
fn deterministic_matches_step_for_single_result() {
    // When only one result state exists for a query, `step_det` must return
    // it as `Some`, agreeing with `step`.
    let mut b = ExplicitBuilder::new();
    let q = b.new_state();
    b.add_rule(Symbol(1), vec![], q);
    let e = b.build();
    assert_eq!(e.step_det(Symbol(1), &[]), Some(q));
}

#[test]
fn nondeterministic_step_det_returns_none() {
    // If two rules share the same symbol and children but have different
    // results, the automaton is nondeterministic for that query and
    // `step_det` must return `None`.
    let mut b = ExplicitBuilder::new();
    let q0 = b.new_state();
    let q1 = b.new_state();
    b.add_rule(Symbol(1), vec![], q0);
    b.add_rule(Symbol(1), vec![], q1);
    let e = b.build();
    assert_eq!(e.step_det(Symbol(1), &[]), None);
}

#[test]
fn reachable_saturates_rules() {
    // Both states must be reachable once the leaf nullary rule fires and
    // the binary rule's children are satisfied. `is_empty` returns false
    // because the reachable set includes the accepting state.
    let mut b = ExplicitBuilder::new();
    let leaf = b.new_state();
    let root = b.new_state();
    b.add_rule(Symbol(0), vec![], leaf);
    b.add_rule(Symbol(1), vec![leaf, leaf], root);
    b.add_accepting(root);
    let e = b.build();
    let r = e.reachable_states();
    assert!(r.contains(leaf.index()));
    assert!(r.contains(root.index()));
    assert!(!e.is_empty());
}

#[test]
fn higher_arity_lookup_works() {
    // A ternary rule (arity 3, stored in the `higher` table) must be
    // reachable via both `step` and `step_det` without allocation.
    let mut b = ExplicitBuilder::new();
    let q0 = b.new_state();
    let q1 = b.new_state();
    let q2 = b.new_state();
    let q3 = b.new_state();
    b.add_rule(Symbol(9), vec![q0, q1, q2], q3);
    let e = b.build();
    assert_eq!(e.step_det(Symbol(9), &[q0, q1, q2]), Some(q3));
}

#[test]
fn indexed_step_partial_finds_matching_binary_rules() {
    // Given a known state at position 0, `step_partial` must return only
    // the rules where that position actually holds that state — not the
    // rule where position 0 holds a different state.
    let mut b = ExplicitBuilder::new();
    let left = b.new_state();
    let right = b.new_state();
    let root = b.new_state();
    let other = b.new_state();
    b.add_rule(Symbol(3), vec![left, right], root);
    b.add_rule(Symbol(3), vec![other, right], other);
    let e = b.build();

    let found: Vec<(Vec<StateId>, StateId)> = e
        .step_partial(Symbol(3), 0, &left)
        .into_iter()
        .map(|t| (t.children, t.result))
        .collect();

    assert_eq!(found, vec![(vec![left, right], root)]);
}

#[test]
fn indexed_step_partial_supports_higher_arity_rules() {
    // `step_partial` must also index rules stored in the `higher` table
    // (arity ≥ 3). Querying an interior position (1 of 3) must return the
    // full child tuple and result.
    let mut b = ExplicitBuilder::new();
    let q0 = b.new_state();
    let q1 = b.new_state();
    let q2 = b.new_state();
    let q3 = b.new_state();
    b.add_rule(Symbol(9), vec![q0, q1, q2], q3);
    let e = b.build();

    let found: Vec<(Vec<StateId>, StateId)> = e
        .step_partial(Symbol(9), 1, &q1)
        .into_iter()
        .map(|t| (t.children, t.result))
        .collect();

    assert_eq!(found, vec![(vec![q0, q1, q2], q3)]);
}

#[test]
fn topdown_enumerates_rules_by_parent() {
    // `step_topdown` must enumerate every rule whose result is the queried
    // parent state. `initial_states` must yield every accepting state.
    let mut b = ExplicitBuilder::new();
    let leaf = b.new_state();
    let root = b.new_state();
    b.add_rule(Symbol(0), vec![], leaf);
    b.add_rule(Symbol(1), vec![leaf, leaf], root);
    b.add_accepting(root);
    let e = b.build();

    let rules: Vec<(Symbol, Vec<StateId>)> = e
        .step_topdown(&root)
        .into_iter()
        .map(|t| (t.symbol, t.children))
        .collect();
    let initials = e.initial_states();

    assert_eq!(rules, vec![(Symbol(1), vec![leaf, leaf])]);
    assert_eq!(initials, vec![root]);
}

#[test]
fn indexed_rule_access_matches_iteration() {
    let mut b = ExplicitBuilder::new();
    let q = b.new_state();
    let r = b.new_state();
    b.add_rule(Symbol(0), vec![], q);
    b.add_rule(Symbol(1), vec![q], r);
    b.add_accepting(r);
    let a = b.build();

    assert_eq!(a.num_rules(), 2);
    for (i, rule) in a.rules().iter().enumerate() {
        let direct = a.rule(i);
        assert_eq!(direct.symbol, rule.symbol);
        assert_eq!(direct.children, rule.children);
        assert_eq!(direct.result, rule.result);
        assert_eq!(direct.weight, rule.weight);
    }
}

#[test]
fn condensed_rules_groups_symbols_by_shape() {
    // Two symbols with identical (children, result) should appear together
    // in one condensed rule. A third symbol with a different children tuple
    // must appear in a separate group. Every rule must be covered exactly once.
    let mut b = ExplicitBuilder::new();
    let q0 = b.new_state();
    let q1 = b.new_state();
    let qr = b.new_state();
    // sym(0) and sym(1) both map (q0, q1) -> qr
    b.add_rule(Symbol(0), vec![q0, q1], qr);
    b.add_rule(Symbol(1), vec![q0, q1], qr);
    // sym(2) maps (q1, q0) -> qr  (different children order)
    b.add_rule(Symbol(2), vec![q1, q0], qr);
    let e = b.build();

    let groups: Vec<(Vec<StateId>, SymbolSet, StateId)> = e
        .condensed_rules()
        .into_iter()
        .map(|group| (group.children, group.symbols, group.result))
        .collect();

    // Find the group for (q0, q1) -> qr and verify both symbols are present.
    let shared = groups
        .iter()
        .find(|(c, _, _)| c.as_slice() == [q0, q1])
        .expect("group (q0,q1)->qr must exist");
    assert!(shared.1.contains(Symbol(0)));
    assert!(shared.1.contains(Symbol(1)));
    assert_eq!(shared.2, qr);

    // The (q1, q0) group must exist separately with only sym(2).
    let solo = groups
        .iter()
        .find(|(c, _, _)| c.as_slice() == [q1, q0])
        .expect("group (q1,q0)->qr must exist");
    assert!(solo.1.contains(Symbol(2)));
    assert_eq!(solo.1.len(), 1);
}

#[test]
fn probability_weights_are_checked_rule_by_rule() {
    let mut b = ExplicitBuilder::new();
    let q = b.new_state();
    b.add_weighted_rule(Symbol(0), vec![], q, w(0.5));
    b.add_weighted_rule(Symbol(1), vec![], q, w(1.0));
    b.add_weighted_rule(Symbol(2), vec![], q, w(0.0));
    assert!(b.build().validate_probability_weights().is_ok());

    for weight in [1.5, -0.25, f64::NAN, f64::INFINITY] {
        let mut b = ExplicitBuilder::new();
        let q = b.new_state();
        b.add_weighted_rule(Symbol(0), vec![], q, w(0.5));
        b.add_weighted_rule(Symbol(1), vec![], q, w(weight));
        assert!(b.build().validate_probability_weights().is_err());
    }
}

#[test]
fn language_without_reachable_accepting_state_is_empty() {
    let mut b = ExplicitBuilder::new();
    let leaf = b.new_state();
    let root = b.new_state();
    b.add_rule(Symbol(0), vec![], leaf);
    b.add_accepting(root);
    let e = b.build();
    assert!(e.is_empty());
    let reachable = e.reachable_states();
    assert!(reachable.contains(0));
    assert!(!reachable.contains(1));
}

#[test]
fn rules_with_child_lists_positions_of_the_state() {
    let mut b = ExplicitBuilder::new();
    let p = b.new_state();
    let q = b.new_state();
    b.add_rule(Symbol(1), vec![p, q], q);
    b.add_rule(Symbol(1), vec![q, p], q);
    b.add_rule(Symbol(2), vec![p, p], q);
    let e = b.build();
    assert_eq!(e.rules_with_child(Symbol(1), 0, p), vec![0]);
    assert_eq!(e.rules_with_child(Symbol(1), 1, p), vec![1]);
    assert_eq!(e.rules_with_child(Symbol(2), 1, p), vec![2]);
    assert!(e.rules_with_child(Symbol(3), 0, p).is_empty());
}
