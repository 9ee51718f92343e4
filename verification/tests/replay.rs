//! Tests of the replay of joins.
use rusty_alto::ids::{StateId, Symbol};
use rusty_alto::replay::candidates::Event;
use rusty_alto::replay::data::{ReplayData, RightRules};
use rusty_alto::replay::joins::LeftRules;
use rusty_alto::replay::partners::PartnerSet;
use rusty_alto::replay::products::ProductMap;
use rusty_alto::replay::settings::{
    every_strategy, replay_args, replay_shape, runs, sentence_numbered, ReplayFault,
};
use rusty_alto::replay::strategies::JoinStrategy;
use rusty_alto::replay::tally::Tally;
use rusty_alto::symbol_set::SymbolSet;

const A: Symbol = Symbol(0);
const B: Symbol = Symbol(1);
const F: Symbol = Symbol(2);

fn q(i: u32) -> StateId {
    StateId(i)
}

fn left() -> LeftRules {
    LeftRules {
        symbols: vec![A, F, B, F],
        children: vec![vec![], vec![q(0), q(0)], vec![], vec![q(0), q(2)]],
        results: vec![q(0), q(1), q(2), q(3)],
    }
}

fn right() -> RightRules {
    RightRules {
        symbols: vec![SymbolSet::from_slice(&[A]), SymbolSet::from_slice(&[F])],
        children: vec![vec![], vec![q(0), q(0)]],
        results: vec![q(0), q(1)],
    }
}

fn texts(args: &[&str]) -> Vec<String> {
    args.iter().map(|s| s.to_string()).collect()
}

#[test]
fn products_are_collected_from_the_top_down() {
    let data = ReplayData::collect(left(), right(), &vec![q(1)], 2).unwrap();
    let events = data.events(None);
    assert_eq!(
        events,
        vec![
            Event { product: q(0), left: q(0), right: q(0) },
            Event { product: q(1), left: q(1), right: q(1) },
        ]
    );
    assert_eq!(data.events(Some(1)).len(), 1);
    assert_eq!(data.visits(&events).len(), 2);
}

#[test]
fn nothing_is_collected_below_no_initial_state() {
    let data = ReplayData::collect(left(), right(), &vec![], 2).unwrap();
    assert!(data.events(None).is_empty());
}

#[test]
fn a_state_below_itself_is_visited_once() {
    let mut cyclic = right();
    cyclic.symbols.push(SymbolSet::from_slice(&[F]));
    cyclic.children.push(vec![q(0), q(1)]);
    cyclic.results.push(q(1));
    let data = ReplayData::collect(left(), cyclic, &vec![q(1)], 2).unwrap();
    assert_eq!(data.events(None).len(), 2);
}

#[test]
fn products_are_listed_children_first_also_round_a_cycle() {
    let right = RightRules {
        symbols: vec![
            SymbolSet::from_slice(&[A]),
            SymbolSet::from_slice(&[B]),
            SymbolSet::from_slice(&[F]),
            SymbolSet::from_slice(&[F]),
        ],
        children: vec![vec![], vec![], vec![q(0), q(1)], vec![q(2), q(1)]],
        results: vec![q(0), q(1), q(2), q(2)],
    };
    let data = ReplayData::collect(left(), right, &vec![q(2)], 3).unwrap();
    assert_eq!(
        data.events(None),
        vec![
            Event { product: q(0), left: q(0), right: q(0) },
            Event { product: q(1), left: q(2), right: q(1) },
            Event { product: q(2), left: q(3), right: q(2) },
        ]
    );
}

#[test]
fn every_strategy_counts_what_it_does() {
    let data = ReplayData::collect(left(), right(), &vec![q(1)], 2).unwrap();
    let events = data.events(None);
    for strategy in every_strategy() {
        let stats = data.replay(strategy, &events).unwrap();
        assert_eq!(stats.events, 2);
        assert_eq!(stats.right_rules_scanned, 2);
        let expected = match strategy {
            JoinStrategy::SingletonJoinOnly => {
                Tally { calls: 2, matches: 2, lookups: 0, candidates: 0, rejected: 0, peak: 1 }
            }
            JoinStrategy::ChildNarrow => {
                Tally { calls: 2, matches: 3, lookups: 3, candidates: 1, rejected: 2, peak: 2 }
            }
            _ => Tally { calls: 2, matches: 2, lookups: 2, candidates: 1, rejected: 1, peak: 1 },
        };
        assert_eq!(stats.tally, expected, "{}", strategy.name());
    }
}

#[test]
fn pairs_are_numbered_once() {
    let mut map = ProductMap::new();
    assert_eq!(map.get(q(4), q(7)), None);
    assert_eq!(map.get_or_insert(q(4), q(7)), (q(0), true));
    assert_eq!(map.get_or_insert(q(4), q(8)), (q(1), true));
    assert_eq!(map.get_or_insert(q(4), q(7)), (q(0), false));
    assert_eq!(map.get(q(4), q(8)), Some(q(1)));
    assert_eq!(map.get_right_local(q(4), q(8)), Some(q(1)));
    assert_eq!(map.get_right_local(q(5), q(8)), None);
    assert_eq!(map.get_right_local(q(4), q(100)), None);
    assert_eq!(map.pairs(), &vec![(q(4), q(7)), (q(4), q(8))]);
}

#[test]
fn partners_are_kept_in_the_order_in_which_they_come() {
    let mut set = PartnerSet::new();
    assert!(set.is_empty());
    assert!(set.insert(q(9)));
    assert!(set.insert(q(3)));
    assert!(!set.insert(q(9)));
    assert!(set.contains(q(3)));
    assert!(!set.contains(q(4)));
    assert_eq!(set.len(), 2);
    assert_eq!(set.states(), &vec![q(9), q(3)]);
}

#[test]
fn strategies_are_read_by_name() {
    for strategy in every_strategy() {
        assert_eq!(JoinStrategy::parse(&strategy.name().to_string()), Some(strategy));
    }
    assert_eq!(JoinStrategy::parse(&"fast".to_string()), None);
}

#[test]
fn replay_settings_have_defaults() {
    let found = replay_args(&texts(&["g.irtg", "s.txt"]), &replay_shape()).unwrap();
    assert_eq!(found.grammar, "g.irtg");
    assert_eq!(found.sentences, "s.txt");
    assert_eq!(found.sentence, 1);
    assert_eq!(found.max_events, None);
    assert_eq!(found.strategies, every_strategy());
}

#[test]
fn replay_settings_are_read_from_flags() {
    let args = texts(&[
        "g",
        "s",
        "--sentence",
        "3",
        "--max-events",
        "40",
        "--strategies",
        "batched, singleton ,batched",
    ]);
    let found = replay_args(&args, &replay_shape()).unwrap();
    assert_eq!(found.sentence, 3);
    assert_eq!(found.max_events, Some(40));
    assert_eq!(
        found.strategies,
        vec![JoinStrategy::Batched, JoinStrategy::Singleton, JoinStrategy::Batched]
    );
    assert_eq!(runs(&found.strategies), vec![JoinStrategy::Batched, JoinStrategy::Singleton]);
}

#[test]
fn wrong_replay_settings_are_refused() {
    let shape = replay_shape();
    assert!(matches!(replay_args(&texts(&["g"]), &shape), Err(ReplayFault::MissingPath)));
    for rest in [
        vec!["--sentence"],
        vec!["--sentence", "first"],
        vec!["--strategies", "batched,fast"],
        vec!["--verbose"],
        vec!["more"],
    ] {
        let mut args = vec!["g", "s"];
        args.extend(rest);
        assert!(matches!(replay_args(&texts(&args), &shape), Err(ReplayFault::Arguments(_))));
    }
}

#[test]
fn sentences_are_counted_from_one() {
    let lines = texts(&["first", "second"]);
    assert_eq!(sentence_numbered(&lines, 1), Some(&lines[0]));
    assert_eq!(sentence_numbered(&lines, 2), Some(&lines[1]));
    assert_eq!(sentence_numbered(&lines, 0), None);
    assert_eq!(sentence_numbered(&lines, 3), None);
}
