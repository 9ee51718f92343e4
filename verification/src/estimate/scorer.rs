//! How rule weights are turned into scores and scores are combined.
use crate::heuristic::Score;
use crate::weight::Weight;
use vstd::prelude::*;

verus! {

/// A representation of weights as scores that only get worse when they are combined:
/// probabilities with multiplication, or their logarithms with addition.
pub trait WeightScorer {
    type Value: Score + Copy;

    /// Whether a value is the score of a probability.
    spec fn is_score(&self, a: Self::Value) -> bool;

    spec fn zero_value(&self) -> Self::Value;

    spec fn one_value(&self) -> Self::Value;

    spec fn product(&self, a: Self::Value, b: Self::Value) -> Self::Value;

    spec fn value_of(&self, weight: Weight) -> Self::Value;

    /// Zero, one and products of scores are scores.
    proof fn scores_are_closed(&self, a: Self::Value, b: Self::Value)
        ensures
            self.is_score(self.zero_value()),
            self.is_score(self.one_value()),
            self.is_score(a) && self.is_score(b) ==> self.is_score(self.product(a, b)),
    ;

    /// Zero is the worst score and one the best.
    proof fn scores_are_bounded(&self, a: Self::Value)
        requires
            self.is_score(a),
        ensures
            self.zero_value().at_most(&a),
            a.at_most(&self.one_value()),
    ;

    /// A product does not get worse when its factors get better.
    proof fn product_is_monotone(
        &self,
        a: Self::Value,
        b: Self::Value,
        c: Self::Value,
        d: Self::Value,
    )
        requires
            self.is_score(a),
            self.is_score(b),
            self.is_score(c),
            self.is_score(d),
            a.at_most(&c),
            b.at_most(&d),
        ensures
            self.product(a, b).at_most(&self.product(c, d)),
    ;

    /// A product is no better than its factors.
    proof fn product_shrinks(&self, a: Self::Value, b: Self::Value)
        requires
            self.is_score(a),
            self.is_score(b),
        ensures
            self.product(a, b).at_most(&a),
            self.product(a, b).at_most(&b),
    ;

    fn zero(&self) -> (s: Self::Value)
        ensures
            s == self.zero_value(),
    ;

    fn one(&self) -> (s: Self::Value)
        ensures
            s == self.one_value(),
    ;

    fn times(&self, a: Self::Value, b: Self::Value) -> (s: Self::Value)
        ensures
            s == self.product(a, b),
    ;

    fn rule_score(&self, weight: Weight) -> (s: Self::Value)
        ensures
            s == self.value_of(weight),
    ;

    /// Whether `a` is better than `b`.
    fn better(&self, a: Self::Value, b: Self::Value) -> (r: bool)
        ensures
            r == !a.at_most(&b),
    {
        b.is_less(&a)
    }
}

/// Whether all values are scores.
pub open spec fn all_scores<W: WeightScorer>(w: &W, v: Seq<W::Value>) -> bool {
    forall|i: int| 0 <= i < v.len() ==> w.is_score(#[trigger] v[i])
}

/// Whether no value of `v` is better than that of `u` in its place.
pub open spec fn all_at_most<W: WeightScorer>(
    w: &W,
    v: Seq<W::Value>,
    u: Seq<W::Value>,
) -> bool {
    v.len() == u.len() && forall|i: int| 0 <= i < v.len() ==> (#[trigger] v[i]).at_most(&u[i])
}

/// A score is at most itself.
pub proof fn lemma_at_most_itself<S: Score>(a: S)
    ensures
        a.at_most(&a),
{
    S::at_most_total(&a, &a);
}

/// The open state with the best value, if any is better than zero.
pub fn best_open<W: WeightScorer>(w: &W, values: &Vec<W::Value>, closed: &Vec<bool>) -> (r: Option<
    usize,
>)
    requires
        values@.len() == closed@.len(),
    ensures
        match r {
            Some(s) => {
                &&& s < values@.len()
                &&& !closed@[s as int]
                &&& !values@[s as int].at_most(&w.zero_value())
                &&& forall|q: int|
                    0 <= q < values@.len() && !closed@[q] ==> (#[trigger] values@[q]).at_most(
                        &values@[s as int],
                    )
            },
            None => forall|q: int|
                0 <= q < values@.len() && !closed@[q] ==> (#[trigger] values@[q]).at_most(
                    &w.zero_value(),
                ),
        },
{
    let mut best: Option<usize> = None;
    let zero = w.zero();
    let mut i: usize = 0;
    while i < values.len()
        invariant
            i <= values@.len(),
            values@.len() == closed@.len(),
            zero == w.zero_value(),
            match best {
                Some(s) => {
                    &&& s < i
                    &&& !closed@[s as int]
                    &&& !values@[s as int].at_most(&zero)
                    &&& forall|q: int|
                        0 <= q < i && !closed@[q] ==> (#[trigger] values@[q]).at_most(
                            &values@[s as int],
                        )
                },
                None => forall|q: int|
                    0 <= q < i && !closed@[q] ==> (#[trigger] values@[q]).at_most(&zero),
            },
        decreases values@.len() - i,
    {
        if !closed[i] {
            let ghost value = values@[i as int];
            match best {
                Some(s) => {
                    if w.better(values[i], values[s]) {
                        proof {
                            let old_value = values@[s as int];
                            <W::Value as Score>::at_most_total(&value, &old_value);
                            lemma_at_most_itself(value);
                            assert forall|q: int| 0 <= q < i + 1 && !closed@[q] implies (
                            #[trigger] values@[q]).at_most(&value) by {
                                if q < i {
                                    <W::Value as Score>::at_most_transitive(
                                        &values@[q],
                                        &old_value,
                                        &value,
                                    );
                                }
                            }
                            if value.at_most(&zero) {
                                <W::Value as Score>::at_most_transitive(&old_value, &value, &zero);
                            }
                        }
                        best = Some(i);
                    }
                },
                None => {
                    if w.better(values[i], zero) {
                        proof {
                            <W::Value as Score>::at_most_total(&value, &zero);
                            lemma_at_most_itself(value);
                            assert forall|q: int| 0 <= q < i + 1 && !closed@[q] implies (
                            #[trigger] values@[q]).at_most(&value) by {
                                if q < i {
                                    <W::Value as Score>::at_most_transitive(
                                        &values@[q],
                                        &zero,
                                        &value,
                                    );
                                }
                            }
                        }
                        best = Some(i);
                    }
                },
            }
        }
        i += 1;
    }
    best
}

} // verus!
