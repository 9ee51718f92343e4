use rusty_alto::control::{check_point, ParseCancelled, ParseControl};
use rusty_alto::builder::ExplicitBuilder;
use rusty_alto::estimate::inside::{inside_scores, score_rules};
use rusty_alto::estimate::outside::OutsideHeuristic;
use rusty_alto::estimate::probe::{best_goal, probe, ProbeCounts};
use rusty_alto::estimate::scorer::WeightScorer;
use rusty_alto::explicit::Explicit;
use rusty_alto::heuristic::{
    IntersectionHeuristic, MinHeuristic, Score, ScoredZeroHeuristic, ZeroHeuristic,
};
use rusty_alto::ids::{StateId, Symbol};
use rusty_alto::weight::Weight;

#[derive(Clone, Copy, Debug, PartialEq)]
struct Probability(f64);

impl Score for Probability {
    fn at_most(&self, other: &Self) -> bool {
        self.0.total_cmp(&other.0).is_le()
    }

    fn at_most_total(_a: &Self, _b: &Self) {}

    fn at_most_transitive(_a: &Self, _b: &Self, _c: &Self) {}

    fn is_less(&self, other: &Self) -> bool {
        self.0.total_cmp(&other.0).is_lt()
    }
}

struct ProbabilityScorer;

impl WeightScorer for ProbabilityScorer {
    type Value = Probability;

    fn is_score(&self, a: Probability) -> bool {
        (0.0..=1.0).contains(&a.0)
    }

    fn zero_value(&self) -> Probability {
        Probability(0.0)
    }

    fn one_value(&self) -> Probability {
        Probability(1.0)
    }

    fn product(&self, a: Probability, b: Probability) -> Probability {
        Probability(a.0 * b.0)
    }

    fn value_of(&self, weight: Weight) -> Probability {
        Probability(f64::from_bits(weight.bits))
    }

    fn scores_are_closed(&self, _a: Probability, _b: Probability) {}

    fn scores_are_bounded(&self, _a: Probability) {}

    fn product_is_monotone(
        &self,
        _a: Probability,
        _b: Probability,
        _c: Probability,
        _d: Probability,
    ) {
    }

    fn product_shrinks(&self, _a: Probability, _b: Probability) {}

    fn zero(&self) -> Probability {
        Probability(0.0)
    }

    fn one(&self) -> Probability {
        Probability(1.0)
    }

    fn times(&self, a: Probability, b: Probability) -> Probability {
        Probability(a.0 * b.0)
    }

    fn rule_score(&self, weight: Weight) -> Probability {
        Probability(f64::from_bits(weight.bits))
    }
}

fn w(value: f64) -> Weight {
    Weight { bits: value.to_bits() }
}

fn build_grammar() -> (Explicit, [StateId; 5]) {
    let mut b = ExplicitBuilder::new();
    let s0 = b.new_state();
    let s1 = b.new_state();
    let s2 = b.new_state();
    let s3 = b.new_state();
    let s4 = b.new_state();
    let a = Symbol(0);
    let f = Symbol(1);
    let g = Symbol(2);
    b.add_weighted_rule(a, vec![], s0, w(0.5));
    b.add_weighted_rule(a, vec![], s2, w(0.3));
    b.add_weighted_rule(f, vec![s0], s1, w(0.8));
    b.add_weighted_rule(g, vec![s1], s4, w(0.9));
    b.add_accepting(s4);
    (b.build(), [s0, s1, s2, s3, s4])
}

fn estimate(h: &OutsideHeuristic<Probability>, state: StateId) -> f64 {
    IntersectionHeuristic::<StateId, Probability>::outside_estimate(h, state, &StateId(0)).0
}

#[test]
fn inside_weights_are_correct() {
    let (grammar, [s0, s1, s2, s3, s4]) = build_grammar();
    let scores = score_rules(&ProbabilityScorer, &grammar);
    let inside = inside_scores(&ProbabilityScorer, &grammar, &scores);
    assert!((inside[s0.index()].0 - 0.5).abs() < 1e-10);
    assert!((inside[s1.index()].0 - 0.4).abs() < 1e-10);
    assert!((inside[s2.index()].0 - 0.3).abs() < 1e-10);
    assert!(inside[s3.index()].0 == 0.0);
    assert!((inside[s4.index()].0 - 0.36).abs() < 1e-10);
}

#[test]
fn outside_weights_are_correct() {
    let (grammar, [s0, s1, s2, s3, s4]) = build_grammar();
    let h = OutsideHeuristic::from_grammar_with(&grammar, &ProbabilityScorer);
    assert!((h.out[s4.index()].0 - 1.0).abs() < 1e-10);
    assert!((h.out[s1.index()].0 - 0.9).abs() < 1e-10);
    assert!((h.out[s0.index()].0 - 0.72).abs() < 1e-10);
    assert!(h.out[s2.index()].0 == 0.0);
    assert!(h.out[s3.index()].0 == 0.0);
}

#[test]
fn outside_estimate_returns_out_value() {
    let (grammar, [s0, _s1, _s2, _s3, s4]) = build_grammar();
    let h = OutsideHeuristic::from_grammar_with(&grammar, &ProbabilityScorer);
    assert!((estimate(&h, s0) - 0.72).abs() < 1e-10);
    assert!((estimate(&h, s4) - 1.0).abs() < 1e-10);
}

#[test]
fn outside_estimate_out_of_range_returns_zero() {
    let (grammar, _states) = build_grammar();
    let h = OutsideHeuristic::from_grammar_with(&grammar, &ProbabilityScorer);
    assert_eq!(estimate(&h, StateId(9999)), 0.0);
}

#[test]
fn best_choices_win_inside_and_outside() {
    let mut b = ExplicitBuilder::new();
    let x = b.new_state();
    let y = b.new_state();
    let top = b.new_state();
    b.add_weighted_rule(Symbol(0), vec![], x, w(0.5));
    b.add_weighted_rule(Symbol(1), vec![], x, w(0.25));
    b.add_weighted_rule(Symbol(2), vec![], y, w(0.125));
    b.add_weighted_rule(Symbol(3), vec![x], y, w(0.5));
    b.add_weighted_rule(Symbol(4), vec![x, y], top, w(0.5));
    b.add_weighted_rule(Symbol(5), vec![y], top, w(0.25));
    b.add_accepting(top);
    let grammar = b.build();
    let scores = score_rules(&ProbabilityScorer, &grammar);
    let inside = inside_scores(&ProbabilityScorer, &grammar, &scores);
    assert_eq!(inside, vec![Probability(0.5), Probability(0.25), Probability(0.0625)]);
    let h = OutsideHeuristic::from_grammar_with(&grammar, &ProbabilityScorer);
    assert_eq!(h.out, vec![Probability(0.125), Probability(0.25), Probability(1.0)]);
}

#[test]
fn scored_zero_heuristic_takes_the_scorers_one() {
    let h = ScoredZeroHeuristic::new(&ProbabilityScorer);
    let estimate =
        IntersectionHeuristic::<u8, Probability>::outside_estimate(&h, StateId(3), &0);
    assert_eq!(estimate, Probability(1.0));
}

#[test]
fn min_is_numeric_min_in_log_space() {
    // min(SX, F): F=-inf dominates; else SX passes through.
    assert_eq!((-0.5f64).min(f64::NEG_INFINITY), f64::NEG_INFINITY);
    assert_eq!((-0.5f64).min(0.0), -0.5);
}

#[test]
fn zero_heuristic_always_returns_one() {
    let heuristic = ZeroHeuristic { one: ProbabilityScorer.one() };
    let dummy = StateId(0);
    let est =
        IntersectionHeuristic::<StateId, Probability>::outside_estimate(&heuristic, dummy, &dummy);
    assert_eq!(est, Probability(1.0));
}

#[test]
fn outside_scores_count_every_child_of_a_rule() {
    let mut b = ExplicitBuilder::new();
    let q = b.new_state();
    let p = b.new_state();
    let r = b.new_state();
    let s = b.new_state();
    let weight = |w: f64| Weight { bits: w.to_bits() };
    b.add_weighted_rule(Symbol(0), vec![], q, weight(0.5));
    b.add_weighted_rule(Symbol(1), vec![q, q], p, weight(1.0));
    b.add_weighted_rule(Symbol(2), vec![], r, weight(1.0));
    b.add_weighted_rule(Symbol(3), vec![p, r], s, weight(1.0));
    b.add_accepting(s);
    let grammar = b.build();
    let scores = score_rules(&ProbabilityScorer, &grammar);
    let inside = inside_scores(&ProbabilityScorer, &grammar, &scores);
    assert_eq!(inside[p.index()], Probability(0.25));
    let h = OutsideHeuristic::from_grammar_with(&grammar, &ProbabilityScorer);
    assert_eq!(h.out[r.index()], Probability(0.25));
    assert_eq!(h.out[q.index()], Probability(0.5));
}

#[test]
fn the_minimum_of_two_heuristics_is_the_smaller_estimate() {
    let heuristic = MinHeuristic::new(ZeroHeuristic { one: -3i64 }, ZeroHeuristic { one: -7i64 });
    assert_eq!(
        IntersectionHeuristic::<u8, i64>::estimate_if_admitted(&heuristic, StateId(0), &1),
        Some(-7)
    );
}

#[test]
fn cloned_control_observes_cancellation() {
    let control = ParseControl::new();
    let worker_control = control.clone();

    control.cancel();

    assert!(worker_control.is_cancelled());
    assert!(worker_control.check().is_err());
}

#[test]
fn an_uncancelled_control_lets_work_go_on() {
    let control = ParseControl::new();
    assert!(!control.is_cancelled());
    assert!(control.check().is_ok());
    assert_eq!(check_point(true), Err(ParseCancelled));
    assert_eq!(check_point(false), Ok(()));
}

#[test]
fn the_lesser_estimate_finalizes_no_more() {
    let values = |list: &[f64]| list.iter().map(|&v| Probability(v)).collect::<Vec<_>>();
    let inner = values(&[0.5, 0.25, 0.0, 0.125]);
    let sx = values(&[1.0, 0.5, 1.0, 1.0]);
    let f = values(&[0.25, 1.0, 1.0, 1.0]);
    let best = best_goal(&ProbabilityScorer, &inner, &vec![StateId(1), StateId(3)]);
    assert_eq!(best, Probability(0.25));
    let counts = probe(&ProbabilityScorer, &inner, &sx, &f, best);
    assert_eq!(counts, ProbeCounts { reachable: 3, zero: 2, sx: 1, f: 1, min: 0 });
}
