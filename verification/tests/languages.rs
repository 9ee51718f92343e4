//! Tests of language counting and of the enumeration of finite languages.
use num_bigint::BigUint;
use rusty_alto::builder::ExplicitBuilder;
use rusty_alto::finite_language::{FiniteLanguageError, FiniteLanguageIterator, FiniteLanguagePlan};
use rusty_alto::ids::{StateId, Symbol};
use rusty_alto::language_cardinality::{CheckedCount, LanguageCardinality};
use rusty_alto::weight::Weight;

#[derive(Clone, Debug, PartialEq, Eq)]
struct Count(BigUint);

impl CheckedCount for Count {
    fn value(&self) -> vstd::prelude::nat {
        unreachable!()
    }

    fn fits(_n: vstd::prelude::nat) -> bool {
        unreachable!()
    }

    fn fits_downward(_m: vstd::prelude::nat, _n: vstd::prelude::nat) {
        unreachable!()
    }

    fn zero() -> Self {
        Count(BigUint::from(0u8))
    }

    fn one() -> Self {
        Count(BigUint::from(1u8))
    }

    fn checked_add(&self, other: &Self) -> Option<Self> {
        Some(Count(&self.0 + &other.0))
    }

    fn checked_mul(&self, other: &Self) -> Option<Self> {
        Some(Count(&self.0 * &other.0))
    }
}

fn w(value: f64) -> Weight {
    Weight { bits: value.to_bits() }
}

fn symbols(iterator: &FiniteLanguageIterator<'_>) -> Vec<u32> {
    iterator
        .current()
        .unwrap()
        .nodes()
        .iter()
        .map(|node| node.symbol().0)
        .collect()
}

#[test]
fn empty_and_unproductive_languages_have_zero_derivations() {
    assert_eq!(
        ExplicitBuilder::new().build().language_cardinality(),
        LanguageCardinality::Finite(0)
    );

    let mut builder = ExplicitBuilder::new();
    let state = builder.new_state();
    builder.add_accepting(state);
    assert_eq!(
        builder.build().language_cardinality(),
        LanguageCardinality::Finite(0)
    );
}

#[test]
fn counts_rules_accepting_states_repeated_children_and_ambiguity() {
    let mut builder = ExplicitBuilder::new();
    let left = builder.new_state();
    let right = builder.new_state();
    let root = builder.new_state();
    let extra = builder.new_state();
    builder.add_weighted_rule(Symbol(0), vec![], left, w(0.0));
    builder.add_rule(Symbol(0), vec![], right);
    builder.add_rule(Symbol(1), vec![left, left], root);
    builder.add_rule(Symbol(1), vec![right, right], root);
    builder.add_rule(Symbol(2), vec![], extra);
    builder.add_accepting(root);
    builder.add_accepting(extra);
    assert_eq!(
        builder.build().language_cardinality(),
        LanguageCardinality::Finite(3)
    );
}

#[test]
fn classifies_only_relevant_productive_cycles_as_infinite() {
    let mut builder = ExplicitBuilder::new();
    let useful = builder.new_state();
    let irrelevant = builder.new_state();
    let unproductive = builder.new_state();
    builder.add_rule(Symbol(0), vec![], useful);
    builder.add_rule(Symbol(1), vec![], irrelevant);
    builder.add_rule(Symbol(2), vec![irrelevant], irrelevant);
    builder.add_rule(Symbol(3), vec![unproductive], unproductive);
    builder.add_accepting(useful);
    assert_eq!(
        builder.build().language_cardinality(),
        LanguageCardinality::Finite(1)
    );

    let mut builder = ExplicitBuilder::new();
    let first = builder.new_state();
    let second = builder.new_state();
    builder.add_rule(Symbol(0), vec![], first);
    builder.add_rule(Symbol(1), vec![first], second);
    builder.add_rule(Symbol(2), vec![second], first);
    builder.add_accepting(second);
    assert_eq!(
        builder.build().language_cardinality(),
        LanguageCardinality::Infinite
    );
}

#[test]
fn checked_and_arbitrary_precision_counts_agree_until_overflow() {
    let mut builder = ExplicitBuilder::new();
    let mut state = builder.new_state();
    builder.add_rule(Symbol(0), vec![], state);
    builder.add_rule(Symbol(1), vec![], state);
    for depth in 0..7 {
        let parent = builder.new_state();
        builder.add_rule(Symbol(depth + 2), vec![state, state], parent);
        state = parent;
    }
    builder.add_accepting(state);
    let automaton = builder.build();
    assert_eq!(
        automaton.language_cardinality_as::<u8>(),
        LanguageCardinality::TooLarge
    );
    assert_eq!(
        automaton.language_cardinality_as::<Count>(),
        LanguageCardinality::Finite(Count(BigUint::from(2u8).pow(128)))
    );
}

#[test]
fn deep_chain_and_wide_rule_do_not_use_the_call_stack() {
    let mut builder = ExplicitBuilder::new();
    let mut state = builder.new_state();
    builder.add_rule(Symbol(0), vec![], state);
    for _ in 0..20_000 {
        let parent = builder.new_state();
        builder.add_rule(Symbol(1), vec![state], parent);
        state = parent;
    }
    builder.add_accepting(state);
    assert_eq!(
        builder.build().language_cardinality(),
        LanguageCardinality::Finite(1)
    );

    let mut builder = ExplicitBuilder::new();
    let leaf = builder.new_state();
    let root = builder.new_state();
    builder.add_rule(Symbol(0), vec![], leaf);
    builder.add_rule(Symbol(1), vec![leaf; 1_000], root);
    builder.add_accepting(root);
    assert_eq!(
        builder.build().language_cardinality(),
        LanguageCardinality::Finite(1)
    );
}

#[test]
fn empty_protocol_is_stable() {
    let automaton = ExplicitBuilder::new().build();
    let plan = FiniteLanguagePlan::new(&automaton).unwrap();
    let mut iterator = plan.iter();
    assert!(iterator.current().is_none());
    assert_eq!(iterator.changed_from(), None);
    assert!(!iterator.advance());
    assert!(iterator.current().is_none());
    assert_eq!(iterator.changed_from(), None);
    assert!(!iterator.advance());
}

#[test]
fn exposes_preorder_structure_and_rule_identity() {
    let mut builder = ExplicitBuilder::new();
    let left = builder.new_state();
    let right = builder.new_state();
    let root = builder.new_state();
    builder.add_weighted_rule(Symbol(10), vec![], left, w(0.0));
    builder.add_rule(Symbol(11), vec![], right);
    builder.add_weighted_rule(Symbol(12), vec![left, right], root, w(0.25));
    builder.add_accepting(root);
    let automaton = builder.build();
    let plan = FiniteLanguagePlan::new(&automaton).unwrap();
    let mut iterator = plan.iter();
    assert!(iterator.advance());
    assert_eq!(iterator.changed_from(), Some(0));
    let nodes = iterator.current().unwrap();
    assert_eq!(nodes.len(), 3);
    assert_eq!(nodes.nodes()[0].parent(), None);
    assert_eq!(nodes.nodes()[0].arity(), 2);
    assert_eq!(nodes.nodes()[0].rule_index(), 2);
    assert_eq!(nodes.nodes()[1].parent(), Some(0));
    assert_eq!(nodes.nodes()[1].child_position(), Some(0));
    assert_eq!(nodes.nodes()[2].parent(), Some(0));
    assert_eq!(nodes.nodes()[2].child_position(), Some(1));
    assert_eq!(nodes.nodes()[1].weight(), w(0.0));
    assert!(!iterator.advance());
}

#[test]
fn cartesian_repeated_children_and_changed_suffixes_are_exact() {
    let mut builder = ExplicitBuilder::new();
    let leaf = builder.new_state();
    let root = builder.new_state();
    builder.add_rule(Symbol(0), vec![], leaf);
    builder.add_rule(Symbol(1), vec![], leaf);
    builder.add_rule(Symbol(2), vec![leaf, leaf], root);
    builder.add_accepting(root);
    let automaton = builder.build();
    let plan = FiniteLanguagePlan::new(&automaton).unwrap();
    let mut iterator = plan.iter();
    let mut found = Vec::new();
    let mut changes = Vec::new();
    while iterator.advance() {
        changes.push(iterator.changed_from().unwrap());
        found.push(symbols(&iterator));
    }
    assert_eq!(
        found,
        vec![vec![2, 0, 0], vec![2, 0, 1], vec![2, 1, 0], vec![2, 1, 1]]
    );
    assert_eq!(changes, vec![0, 2, 1, 2]);
    assert_eq!(
        automaton.language_cardinality_as::<Count>(),
        LanguageCardinality::Finite(Count(BigUint::from(4u8)))
    );
}

#[test]
fn handles_shape_changes_and_multiple_accepting_states() {
    let mut builder = ExplicitBuilder::new();
    let leaf = builder.new_state();
    let first_root = builder.new_state();
    let second_root = builder.new_state();
    builder.add_rule(Symbol(0), vec![], leaf);
    builder.add_rule(Symbol(1), vec![], first_root);
    builder.add_rule(Symbol(2), vec![leaf], first_root);
    builder.add_rule(Symbol(3), vec![], second_root);
    builder.add_accepting(first_root);
    builder.add_accepting(second_root);
    let automaton = builder.build();
    let plan = FiniteLanguagePlan::new(&automaton).unwrap();
    let mut iterator = plan.iter();
    let mut values = Vec::new();
    let mut changed = Vec::new();
    while iterator.advance() {
        values.push(symbols(&iterator));
        changed.push(iterator.changed_from());
    }
    assert_eq!(values, vec![vec![1], vec![2, 0], vec![3]]);
    assert_eq!(changed, vec![Some(0), Some(0), Some(0)]);
}

#[test]
fn ambiguous_runs_are_not_deduplicated() {
    let mut builder = ExplicitBuilder::new();
    let left = builder.new_state();
    let right = builder.new_state();
    let root = builder.new_state();
    builder.add_rule(Symbol(0), vec![], left);
    builder.add_rule(Symbol(0), vec![], right);
    builder.add_rule(Symbol(1), vec![left], root);
    builder.add_rule(Symbol(1), vec![right], root);
    builder.add_accepting(root);
    let automaton = builder.build();
    let plan = FiniteLanguagePlan::new(&automaton).unwrap();
    let mut iterator = plan.iter();
    let mut rule_runs = Vec::new();
    while iterator.advance() {
        rule_runs.push(
            iterator
                .current()
                .unwrap()
                .nodes()
                .iter()
                .map(|node| node.rule_index())
                .collect::<Vec<_>>(),
        );
    }
    assert_eq!(rule_runs, vec![vec![2, 0], vec![3, 1]]);
}

#[test]
fn ignores_irrelevant_and_unproductive_cycles_but_rejects_relevant_cycle() {
    let mut builder = ExplicitBuilder::new();
    let accepted = builder.new_state();
    let irrelevant = builder.new_state();
    let unproductive = builder.new_state();
    builder.add_rule(Symbol(0), vec![], accepted);
    builder.add_rule(Symbol(1), vec![], irrelevant);
    builder.add_rule(Symbol(2), vec![irrelevant], irrelevant);
    builder.add_rule(Symbol(3), vec![unproductive], unproductive);
    builder.add_accepting(accepted);
    assert!(FiniteLanguagePlan::new(&builder.build()).is_ok());

    let mut builder = ExplicitBuilder::new();
    let state = builder.new_state();
    builder.add_rule(Symbol(0), vec![], state);
    builder.add_rule(Symbol(1), vec![state], state);
    builder.add_accepting(state);
    assert!(matches!(
        FiniteLanguagePlan::new(&builder.build()),
        Err(FiniteLanguageError::InfiniteLanguage)
    ));
}

#[test]
fn iterators_from_one_plan_are_independent() {
    let mut builder = ExplicitBuilder::new();
    let state = builder.new_state();
    builder.add_rule(Symbol(0), vec![], state);
    builder.add_rule(Symbol(1), vec![], state);
    builder.add_accepting(state);
    let automaton = builder.build();
    let plan = FiniteLanguagePlan::new(&automaton).unwrap();
    let mut first = plan.iter();
    let mut second = plan.iter();
    assert!(first.advance());
    assert!(first.advance());
    assert!(second.advance());
    assert_eq!(symbols(&first), vec![1]);
    assert_eq!(symbols(&second), vec![0]);
}

#[test]
fn deep_and_wide_derivations_are_iterative() {
    let mut builder = ExplicitBuilder::new();
    let mut state = builder.new_state();
    builder.add_rule(Symbol(0), vec![], state);
    for _ in 0..20_000 {
        let parent = builder.new_state();
        builder.add_rule(Symbol(1), vec![state], parent);
        state = parent;
    }
    builder.add_accepting(state);
    let automaton = builder.build();
    let plan = FiniteLanguagePlan::new(&automaton).unwrap();
    let mut iterator = plan.iter();
    assert!(iterator.advance());
    assert_eq!(iterator.current().unwrap().len(), 20_001);
    assert!(!iterator.advance());

    let mut builder = ExplicitBuilder::new();
    let leaf = builder.new_state();
    let root = builder.new_state();
    builder.add_rule(Symbol(0), vec![], leaf);
    builder.add_rule(Symbol(1), vec![leaf; 1_000], root);
    builder.add_accepting(root);
    let automaton = builder.build();
    let plan = FiniteLanguagePlan::new(&automaton).unwrap();
    let mut iterator = plan.iter();
    assert!(iterator.advance());
    assert_eq!(iterator.current().unwrap().len(), 1_001);
}

#[test]
fn trimming_cardinality_sorted_language_and_incremental_views_agree() {
    let describe = || {
        let mut builder = ExplicitBuilder::new();
        let dead = builder.new_state();
        let leaf = builder.new_state();
        let root = builder.new_state();
        builder.add_rule(Symbol(9), vec![], dead);
        builder.add_rule(Symbol(0), vec![], leaf);
        builder.add_rule(Symbol(1), vec![], leaf);
        builder.add_rule(Symbol(2), vec![leaf, leaf], root);
        builder.add_accepting(root);
        (builder, dead)
    };

    let original = describe().0.build();
    let (builder, dead) = describe();
    let trimmed = builder.build_trimmed();
    let metadata = ["dead", "leaf", "root"];
    let transferred = (0..trimmed.automaton.num_states())
        .map(|index| metadata[trimmed.state_mapping.old_state(StateId(index)).index()])
        .collect::<Vec<_>>();
    assert_eq!(transferred, vec!["leaf", "root"]);
    assert_eq!(trimmed.state_mapping.new_state(dead), None);

    assert_eq!(
        original.language_cardinality_as::<Count>(),
        trimmed.automaton.language_cardinality_as::<Count>()
    );

    let mut expected = Vec::new();
    let original_plan = FiniteLanguagePlan::new(&original).unwrap();
    let mut original_iterator = original_plan.iter();
    while original_iterator.advance() {
        expected.push(symbols(&original_iterator));
    }
    expected.sort();

    let trimmed_plan = FiniteLanguagePlan::new(&trimmed.automaton).unwrap();
    let mut iterator = trimmed_plan.iter();
    let mut reconstructed = Vec::new();
    let mut actual = Vec::new();
    while iterator.advance() {
        let changed = iterator.changed_from().unwrap();
        reconstructed.truncate(changed);
        reconstructed.extend(
            iterator.current().unwrap().nodes()[changed..]
                .iter()
                .map(|node| node.symbol().0),
        );
        actual.push(reconstructed.clone());
    }
    actual.sort();
    assert_eq!(actual, expected);

    assert_eq!(expected.len(), 4);
}

#[test]
fn generated_small_dags_agree_with_cardinality_and_trimming() {
    for seed in 0u32..64 {
        let describe = || {
            let mut builder = ExplicitBuilder::new();
            let q0 = builder.new_state();
            let q1 = builder.new_state();
            let q2 = builder.new_state();
            let q3 = builder.new_state();
            let dead = builder.new_state();
            builder.add_rule(Symbol(0), vec![], q0);
            if seed & 1 != 0 {
                builder.add_rule(Symbol(1), vec![], q0);
            }
            builder.add_rule(Symbol(2), vec![], q1);
            if seed & 2 != 0 {
                builder.add_rule(Symbol(3), vec![q0, q0], q1);
            }
            builder.add_rule(Symbol(4), vec![q0], q2);
            if seed & 4 != 0 {
                builder.add_rule(Symbol(5), vec![q0, q1], q2);
            }
            builder.add_rule(Symbol(6), vec![q1, q2], q3);
            if seed & 8 != 0 {
                builder.add_rule(Symbol(7), vec![], q3);
            }
            if seed & 16 != 0 {
                builder.add_rule(Symbol(8), vec![], dead);
            }
            builder.add_rule(Symbol(9), vec![dead], dead);
            builder.add_accepting(q2);
            if seed & 32 != 0 {
                builder.add_accepting(q3);
            }
            (builder, dead)
        };

        let original = describe().0.build();
        let expected = match original.language_cardinality_as::<Count>() {
            LanguageCardinality::Finite(value) => value,
            other => panic!("generated DAG must be finite, got {other:?}"),
        };
        let plan = FiniteLanguagePlan::new(&original).unwrap();
        assert_eq!(
            plan.language_cardinality_as::<Count>(),
            LanguageCardinality::Finite(expected.clone()),
            "seed {seed}"
        );
        let mut iterator = plan.iter();
        let mut count = BigUint::from(0u8);
        while iterator.advance() {
            count += 1u8;
        }
        assert_eq!(Count(count), expected, "seed {seed}");

        let (builder, dead) = describe();
        let trimmed = builder.build_trimmed();
        assert_eq!(trimmed.state_mapping.new_state(dead), None, "seed {seed}");
        assert_eq!(
            trimmed.automaton.language_cardinality_as::<Count>(),
            LanguageCardinality::Finite(expected),
            "seed {seed}"
        );
    }
}
