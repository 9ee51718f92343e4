//! Admissible heuristics: how they are combined and how they filter.
//!
//! A heuristic bounds the outside score of a product state from above. Scores are
//! ordered values of any type, so the same combinators serve probabilities and
//! their logarithms.
use crate::estimate::scorer::WeightScorer;
use crate::ids::StateId;
use vstd::prelude::*;

verus! {

/// A totally ordered score; larger is better.
pub trait Score: Sized {
    /// Whether this score is at most another.
    spec fn at_most(&self, other: &Self) -> bool;

    proof fn at_most_total(a: &Self, b: &Self)
        ensures
            a.at_most(b) || b.at_most(a),
    ;

    proof fn at_most_transitive(a: &Self, b: &Self, c: &Self)
        requires
            a.at_most(b),
            b.at_most(c),
        ensures
            a.at_most(c),
    ;

    /// Whether this score is less than another.
    fn is_less(&self, other: &Self) -> (b: bool)
        ensures
            b == !other.at_most(self),
    ;
}

/// Scores that are kept as whole numbers, such as scaled logarithms.
impl Score for i64 {
    open spec fn at_most(&self, other: &Self) -> bool {
        *self <= *other
    }

    proof fn at_most_total(a: &Self, b: &Self) {
    }

    proof fn at_most_transitive(a: &Self, b: &Self, c: &Self) {
    }

    fn is_less(&self, other: &Self) -> (b: bool) {
        *self < *other
    }
}

/// Upper bound on the outside score of the product of a state on the left with a
/// state of type `R` on the right.
pub trait IntersectionHeuristic<R, S: Score> {
    /// The bound for a product state.
    spec fn bound(&self, left: StateId, right: &R) -> S;

    /// Whether the product state may occur in a completion.
    spec fn possible(&self, left: StateId, right: &R) -> bool;

    /// An upper bound on the outside score of the product state.
    fn outside_estimate(&self, left: StateId, right: &R) -> (s: S)
        ensures
            s == self.bound(left, right),
    ;

    /// Whether the product state may occur in a completion.
    fn admits(&self, left: StateId, right: &R) -> (b: bool)
        ensures
            b == self.possible(left, right),
    ;

    /// The bound of a product state that may occur in a completion.
    fn estimate_if_admitted(&self, left: StateId, right: &R) -> (r: Option<S>)
        ensures
            r == (if self.possible(left, right) {
                Some(self.bound(left, right))
            } else {
                None
            }),
    {
        if self.admits(left, right) {
            Some(self.outside_estimate(left, right))
        } else {
            None
        }
    }
}

/// The lesser of two scores.
pub open spec fn lesser<S: Score>(a: S, b: S) -> S {
    if !a.at_most(&b) {
        b
    } else {
        a
    }
}

/// Combines two heuristics: the bound is the tighter one, and a product state is
/// admitted when both admit it.
#[derive(Debug)]
pub struct MinHeuristic<A, B> {
    pub a: A,
    pub b: B,
}

impl<A, B> MinHeuristic<A, B> {
    /// Combines heuristics `a` and `b`.
    pub fn new(a: A, b: B) -> (r: Self)
        ensures
            r.a == a,
            r.b == b,
    {
        MinHeuristic { a, b }
    }
}

impl<R, S: Score, A: IntersectionHeuristic<R, S>, B: IntersectionHeuristic<R, S>>
    IntersectionHeuristic<R, S> for MinHeuristic<A, B> {
    open spec fn bound(&self, left: StateId, right: &R) -> S {
        lesser(self.a.bound(left, right), self.b.bound(left, right))
    }

    open spec fn possible(&self, left: StateId, right: &R) -> bool {
        self.a.possible(left, right) && self.b.possible(left, right)
    }

    fn outside_estimate(&self, left: StateId, right: &R) -> (s: S) {
        let x = self.a.outside_estimate(left, right);
        let y = self.b.outside_estimate(left, right);
        if y.is_less(&x) {
            y
        } else {
            x
        }
    }

    fn admits(&self, left: StateId, right: &R) -> (b: bool) {
        self.a.admits(left, right) && self.b.admits(left, right)
    }
}

/// Uninformed heuristic: the bound is the score of certainty, and every product
/// state is admitted.
#[derive(Debug)]
pub struct ZeroHeuristic<S> {
    pub one: S,
}

impl<R, S: Score + Copy> IntersectionHeuristic<R, S> for ZeroHeuristic<S> {
    open spec fn bound(&self, left: StateId, right: &R) -> S {
        self.one
    }

    open spec fn possible(&self, left: StateId, right: &R) -> bool {
        true
    }

    fn outside_estimate(&self, left: StateId, right: &R) -> (s: S) {
        self.one
    }

    fn admits(&self, left: StateId, right: &R) -> (b: bool) {
        true
    }
}

/// Uninformed heuristic in the representation of a scorer.
#[derive(Debug)]
pub struct ScoredZeroHeuristic<S> {
    pub one: S,
}

impl<S: Score + Copy> ScoredZeroHeuristic<S> {
    /// The uninformed heuristic whose bound is the scorer's score of certainty.
    pub fn new<W: WeightScorer<Value = S>>(scorer: &W) -> (h: Self)
        ensures
            h.one == scorer.one_value(),
    {
        ScoredZeroHeuristic { one: scorer.one() }
    }
}

impl<R, S: Score + Copy> IntersectionHeuristic<R, S> for ScoredZeroHeuristic<S> {
    open spec fn bound(&self, left: StateId, right: &R) -> S {
        self.one
    }

    open spec fn possible(&self, left: StateId, right: &R) -> bool {
        true
    }

    fn outside_estimate(&self, left: StateId, right: &R) -> (s: S) {
        self.one
    }

    fn admits(&self, left: StateId, right: &R) -> (b: bool) {
        true
    }
}

/// Whether a heuristic never falls below the outside scores `outside` of the product
/// states that have one, and never rules such a state out.
pub open spec fn admissible<R, S: Score, H: IntersectionHeuristic<R, S>>(
    h: H,
    outside: spec_fn(StateId, R) -> Option<S>,
) -> bool {
    forall|left: StateId, right: R| #[trigger]
        outside(left, right) matches Some(s) ==> h.possible(left, &right) && s.at_most(
            &h.bound(left, &right),
        )
}

/// The minimum of two admissible heuristics is admissible.
pub proof fn law_min_is_admissible<
    R,
    S: Score,
    A: IntersectionHeuristic<R, S>,
    B: IntersectionHeuristic<R, S>,
>(h: MinHeuristic<A, B>, outside: spec_fn(StateId, R) -> Option<S>)
    requires
        admissible(h.a, outside),
        admissible(h.b, outside),
    ensures
        admissible(h, outside),
{
    assert forall|left: StateId, right: R| (#[trigger] outside(left, right)) is Some implies ({
        let s = outside(left, right)->0;
        h.possible(left, &right) && s.at_most(&h.bound(left, &right))
    }) by {
        assert(outside(left, right) == Some(outside(left, right)->0));
    }
}

/// The minimum is at least as tight as either heuristic.
pub proof fn law_min_is_tighter<
    R,
    S: Score,
    A: IntersectionHeuristic<R, S>,
    B: IntersectionHeuristic<R, S>,
>(h: MinHeuristic<A, B>, left: StateId, right: R)
    ensures
        h.bound(left, &right).at_most(&h.a.bound(left, &right)),
        h.bound(left, &right).at_most(&h.b.bound(left, &right)),
{
    let x = h.a.bound(left, &right);
    let y = h.b.bound(left, &right);
    S::at_most_total(&x, &y);
    S::at_most_total(&x, &x);
    S::at_most_total(&y, &y);
}

} // verus!
