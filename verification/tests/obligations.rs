//! Tests of obligatory leaves.
use packed_term_arena::tree::TreeArena;
use rusty_alto::builder::ExplicitBuilder;
use rusty_alto::homomorphism::{HomLabel, Homomorphism};
use rusty_alto::ids::{StateId, Symbol};
use rusty_alto::obligations::bag::Bag;
use rusty_alto::obligations::filter::{compute_obligatory, ObligationTables};
use rusty_alto::obligations::flatten::extract_flat_rules;
use rusty_alto::obligations::needs::{FlatRule, Tok};
use rusty_alto::obligations::report::{
    obligation_sizes, ranked_leaves, size_summary, verdict, Trait, Verdict,
};

fn sample() -> (usize, Vec<FlatRule>, Vec<usize>) {
    let rules = vec![
        FlatRule { result: 0, tokens: vec![Tok::Child(1), Tok::Child(2)] },
        FlatRule { result: 1, tokens: vec![Tok::Word(10)] },
        FlatRule { result: 2, tokens: vec![Tok::Word(11)] },
        FlatRule { result: 1, tokens: vec![Tok::Word(12)] },
    ];
    (3, rules, vec![0])
}

fn entries(bag: &Option<Bag>) -> Option<Vec<(u32, u32)>> {
    bag.as_ref().map(|bag| {
        let mut list = bag.entries().clone();
        list.sort();
        list
    })
}

fn tables() -> ObligationTables {
    let (n, rules, accepting) = sample();
    compute_obligatory(n, &rules, &accepting).unwrap()
}

#[test]
fn obligatory_fixpoints_match_worked_example() {
    let t = tables();
    assert_eq!(entries(&t.mic[1]), Some(vec![]));
    assert_eq!(entries(&t.mic[2]), Some(vec![(11, 1)]));
    assert_eq!(entries(&t.mic[0]), Some(vec![(11, 1)]));
    assert_eq!(entries(&t.req_right[1]), Some(vec![(11, 1)]));
    assert_eq!(entries(&t.req_left[1]), Some(vec![]));
    assert_eq!(entries(&t.req_left[2]), Some(vec![]));
    assert_eq!(entries(&t.req_right[2]), Some(vec![]));
    assert_eq!(entries(&t.req_left[0]), Some(vec![]));
    assert_eq!(entries(&t.req_right[0]), Some(vec![]));
}

#[test]
fn worked_example() {
    let t = tables();
    assert_eq!(entries(&t.mic[1]), Some(vec![]), "mic[A] should be empty");
    assert_eq!(entries(&t.mic[2]), Some(vec![(11, 1)]), "mic[B] should be {{y:1}}");
    assert_eq!(entries(&t.mic[0]), Some(vec![(11, 1)]), "mic[S] should be {{y:1}}");
    assert_eq!(entries(&t.req_right[1]), Some(vec![(11, 1)]), "req_right[A] should be {{y:1}}");
    assert_eq!(entries(&t.req_left[1]), Some(vec![]), "req_left[A] should be empty");
    assert_eq!(entries(&t.req_left[2]), Some(vec![]), "req_left[B] should be empty");
    assert_eq!(entries(&t.req_right[2]), Some(vec![]), "req_right[B] should be empty");
    assert_eq!(entries(&t.req_left[0]), Some(vec![]), "req_left[S] should be empty");
    assert_eq!(entries(&t.req_right[0]), Some(vec![]), "req_right[S] should be empty");
}

#[test]
fn f_prunes_when_required_leaf_missing_on_side() {
    let t = tables();
    let estimate = |start: usize, end: usize| {
        if t.admits(StateId(1), start, end, &vec![10, 11]) {
            0.0
        } else {
            f64::NEG_INFINITY
        }
    };
    assert_eq!(estimate(0, 1), 0.0);
    assert_eq!(estimate(0, 2), f64::NEG_INFINITY);
}

#[test]
fn repeated_leaves_are_counted() {
    let rules = vec![
        FlatRule {
            result: 0,
            tokens: vec![Tok::Word(1), Tok::Child(1), Tok::Word(1), Tok::Word(2)],
        },
        FlatRule { result: 1, tokens: vec![Tok::Word(1)] },
        FlatRule { result: 1, tokens: vec![Tok::Word(1), Tok::Child(1)] },
    ];
    let t = compute_obligatory(3, &rules, &vec![0]).unwrap();
    assert_eq!(entries(&t.mic[1]), Some(vec![(1, 1)]));
    assert_eq!(entries(&t.mic[0]), Some(vec![(1, 3), (2, 1)]));
    assert_eq!(entries(&t.req_left[1]), Some(vec![(1, 1)]));
    assert_eq!(entries(&t.req_right[1]), Some(vec![(1, 1), (2, 1)]));
    assert_eq!(entries(&t.mic[2]), None);
    assert_eq!(entries(&t.req_left[2]), None);
    assert!(t.admits(StateId(1), 1, 2, &vec![1, 1, 1, 2]));
    assert!(!t.admits(StateId(1), 0, 1, &vec![1, 1, 1, 2]));
}

#[test]
fn rules_are_flattened_through_the_homomorphism() {
    let mut b = ExplicitBuilder::new();
    let s = b.new_state();
    let a = b.new_state();
    b.add_rule(Symbol(0), vec![a, a], s);
    b.add_rule(Symbol(1), vec![], a);
    b.add_accepting(s);
    let grammar = b.build();

    let mut arena = TreeArena::new();
    let v0 = arena.add_node(HomLabel::Var(0), vec![]);
    let word = arena.add_node(HomLabel::Symbol(Symbol(7)), vec![]);
    let v1 = arena.add_node(HomLabel::Var(1), vec![]);
    let right = arena.add_node(HomLabel::Symbol(Symbol(9)), vec![word, v0]);
    let both = arena.add_node(HomLabel::Symbol(Symbol(9)), vec![v1, right]);
    let leaf = arena.add_node(HomLabel::Symbol(Symbol(8)), vec![]);
    let mut hom = Homomorphism::new(&arena);
    hom.add(Symbol(0), 2, both).unwrap();
    hom.add(Symbol(1), 0, leaf).unwrap();

    let (rules, accepting) = extract_flat_rules(&grammar, &hom, 2);
    assert_eq!(accepting, vec![0]);
    assert_eq!(rules.len(), 2);
    assert_eq!(rules[0].result, 0);
    assert_eq!(rules[0].tokens, vec![Tok::Child(1), Tok::Word(7), Tok::Child(1)]);
    assert_eq!(rules[1].tokens, vec![Tok::Word(8)]);
}

#[test]
fn report_counts_states_with_obligations() {
    let t = tables();
    let outside = t.states_with(Trait::Beside);
    assert_eq!(outside, vec![1]);
    assert_eq!(t.states_with(Trait::Inside), vec![0, 2]);
    assert_eq!(t.states_with(Trait::Right), vec![1]);
    assert!(t.states_with(Trait::Left).is_empty());
    assert_eq!(t.states_with(Trait::Eligible), vec![0, 1, 2]);
    assert_eq!(obligation_sizes(&t, &outside, true), vec![1]);
    assert_eq!(ranked_leaves(&t, &outside), vec![(11, 1)]);
    assert_eq!(size_summary(&vec![1, 2, 5]), (1, 2, 5, 5));
    assert_eq!(verdict(3, 10), Verdict::Proceed);
    assert_eq!(verdict(1, 20), Verdict::Stop);
    assert_eq!(verdict(1, 10), Verdict::Inconclusive);
}
