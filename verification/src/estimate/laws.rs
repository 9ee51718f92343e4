//! Why the estimates are bounds.
use super::derivations;
use super::derivations::{Derived, Descent};
use super::inside;
use super::outside;
use super::outside::Given;
use super::scorer;
use super::scorer::WeightScorer;
use crate::heuristic::Score;
use crate::ids::StateId;
use crate::language_analysis;
use crate::language_analysis::RuleShape;
use vstd::prelude::*;

verus! {

/// Whether scores stay within the values of states.
spec fn within<W: WeightScorer>(
    w: &W,
    list: Seq<W::Value>,
    states: Seq<StateId>,
    v: Seq<W::Value>,
) -> bool {
    list.len() == states.len() && forall|i: int|
        0 <= i < list.len() ==> w.is_score(#[trigger] list[i]) && states[i].0 < v.len()
            && list[i].at_most(&v[states[i].0 as int])
}

/// A product over children is at most that of their values.
proof fn lemma_run_within<W: WeightScorer>(
    w: &W,
    start: W::Value,
    list: Seq<W::Value>,
    states: Seq<StateId>,
    v: Seq<W::Value>,
)
    requires
        w.is_score(start),
        scorer::all_scores(w, v),
        within(w, list, states, v),
    ensures
        w.is_score(derivations::run(w, start, list)),
        w.is_score(inside::folded(w, start, states, v)),
        derivations::run(w, start, list).at_most(&inside::folded(w, start, states, v)),
    decreases list.len(),
{
    if list.len() == 0 {
        scorer::lemma_at_most_itself(start);
    } else {
        let short = list.drop_last();
        let fewer = states.drop_last();
        assert(within(w, short, fewer, v)) by {
            assert forall|i: int| 0 <= i < short.len() implies w.is_score(#[trigger] short[i])
                && fewer[i].0 < v.len() && short[i].at_most(&v[fewer[i].0 as int]) by {
                assert(list[i] == short[i]);
            }
        }
        lemma_run_within(w, start, short, fewer, v);
        let a = derivations::run(w, start, short);
        let b = inside::folded(w, start, fewer, v);
        assert(list[list.len() - 1] == list.last());
        let y = v[states.last().0 as int];
        w.scores_are_closed(a, list.last());
        w.scores_are_closed(b, y);
        w.product_is_monotone(a, list.last(), b, y);
    }
}

/// A product from the right is at most that of the values.
proof fn lemma_run_back_within<W: WeightScorer>(
    w: &W,
    list: Seq<W::Value>,
    states: Seq<StateId>,
    v: Seq<W::Value>,
    i: int,
)
    requires
        0 <= i <= list.len(),
        list.len() == states.len(),
        scorer::all_scores(w, v),
        forall|k: int|
            i <= k < list.len() ==> w.is_score(#[trigger] list[k]) && states[k].0 < v.len()
                && list[k].at_most(&v[states[k].0 as int]),
    ensures
        w.is_score(derivations::run_back(w, list, i)),
        w.is_score(outside::suffix_product(w, states, v, i)),
        derivations::run_back(w, list, i).at_most(&outside::suffix_product(w, states, v, i)),
    decreases list.len() - i,
{
    w.scores_are_closed(w.one_value(), w.one_value());
    if i == list.len() {
        scorer::lemma_at_most_itself(w.one_value());
    } else {
        lemma_run_back_within(w, list, states, v, i + 1);
        let a = derivations::run_back(w, list, i + 1);
        let b = outside::suffix_product(w, states, v, i + 1);
        let y = v[states[i].0 as int];
        assert(w.is_score(list[i]));
        w.scores_are_closed(a, list[i]);
        w.scores_are_closed(b, y);
        w.product_is_monotone(a, list[i], b, y);
    }
}

/// No derivation of a state has a better score than its inside score.
pub proof fn law_inside_bounds_derivations<W: WeightScorer>(
    w: &W,
    shapes: Seq<RuleShape>,
    scores: Seq<W::Value>,
    n: nat,
    v: Seq<W::Value>,
    d: Derived,
    q: StateId,
)
    requires
        shapes.len() == scores.len(),
        language_analysis::shapes_below(shapes, n),
        scorer::all_scores(w, scores),
        inside::is_inside(w, shapes, scores, n, v),
        derivations::is_derivation(shapes, d, q),
    ensures
        w.is_score(derivations::derivation_score(w, scores, d)),
        derivations::derivation_score(w, scores, d).at_most(&v[q.0 as int]),
    decreases d,
{
    let children = shapes[d.rule].children;
    let list = derivations::part_scores(w, scores, d.parts);
    assert(list.take(d.parts.len() as int) =~= list);
    derivations::lemma_first_parts(w, scores, d, d.parts.len());
    assert(language_analysis::shape_below(shapes[d.rule], n));
    assert(within(w, list, children, v)) by {
        assert forall|i: int| 0 <= i < list.len() implies w.is_score(#[trigger] list[i])
            && children[i].0 < v.len() && list[i].at_most(&v[children[i].0 as int]) by {
            assert(derivations::is_derivation(shapes, d.parts[i], children[i]));
            law_inside_bounds_derivations(w, shapes, scores, n, v, d.parts[i], children[i]);
        }
    }
    assert(w.is_score(scores[d.rule]));
    lemma_run_within(w, scores[d.rule], list, children, v);
    let value = inside::rule_value(w, shapes[d.rule], scores[d.rule], v);
    <W::Value as Score>::at_most_transitive(
        &derivations::derivation_score(w, scores, d),
        &value,
        &v[q.0 as int],
    );
}

/// Outside scores are admissible: nothing that stands around a state in a derivation from
/// an accepting state has a better score.
pub proof fn law_outside_is_admissible<W: WeightScorer>(
    w: &W,
    g: Given<W::Value>,
    n: nat,
    out: Seq<W::Value>,
    steps: Seq<Descent>,
    q: StateId,
)
    requires
        outside::is_proper(w, g, n),
        inside::is_inside(w, g.shapes, g.scores, n, g.inner),
        outside::is_outside(w, g, n, out),
        derivations::is_context(g.shapes, g.accepting, steps, q),
    ensures
        w.is_score(derivations::context_score(w, g.scores, steps)),
        derivations::context_score(w, g.scores, steps).at_most(&out[q.0 as int]),
    decreases steps.len(),
{
    w.scores_are_closed(w.one_value(), w.one_value());
    if steps.len() > 0 {
        let step = steps.last();
        let (r, p) = (step.rule, step.position);
        let shape = g.shapes[r];
        let top = shape.result;
        let children = shape.children;
        assert(language_analysis::shape_below(shape, n));
        law_outside_is_admissible(w, g, n, out, steps.drop_last(), top);
        let x = derivations::context_score(w, g.scores, steps.drop_last());
        let list = derivations::part_scores(w, g.scores, step.parts);
        assert forall|i: int| 0 <= i < list.len() && i != p implies w.is_score(#[trigger] list[i])
            && children[i].0 < g.inner.len() && list[i].at_most(&g.inner[children[i].0 as int]) by {
            assert(derivations::is_derivation(g.shapes, step.parts[i], children[i]));
            law_inside_bounds_derivations(
                w,
                g.shapes,
                g.scores,
                n,
                g.inner,
                step.parts[i],
                children[i],
            );
        }
        assert(within(w, list.take(p), children.take(p), g.inner)) by {
            assert forall|i: int| 0 <= i < p implies w.is_score(#[trigger] list.take(p)[i])
                && children.take(p)[i].0 < g.inner.len() && list.take(p)[i].at_most(
                &g.inner[children.take(p)[i].0 as int],
            ) by {
                assert(list[i] == list.take(p)[i]);
            }
        }
        lemma_run_within(w, w.one_value(), list.take(p), children.take(p), g.inner);
        lemma_run_back_within(w, list, children, g.inner, p + 1);
        let a = derivations::run(w, w.one_value(), list.take(p));
        let b = derivations::run_back(w, list, p + 1);
        let a_most = inside::folded(w, w.one_value(), children.take(p), g.inner);
        let b_most = outside::suffix_product(w, children, g.inner, p + 1);
        w.scores_are_closed(a, b);
        w.scores_are_closed(a_most, b_most);
        w.product_is_monotone(a, b, a_most, b_most);
        let y = out[top.0 as int];
        let score = g.scores[r];
        assert(w.is_score(score));
        scorer::lemma_at_most_itself(score);
        w.scores_are_closed(x, score);
        w.scores_are_closed(y, score);
        w.product_is_monotone(x, score, y, score);
        w.scores_are_closed(w.product(x, score), w.product(a, b));
        w.product_is_monotone(
            w.product(x, score),
            w.product(a, b),
            w.product(y, score),
            w.product(a_most, b_most),
        );
        assert(outside::is_satisfied(w, g, out, r, p));
        <W::Value as Score>::at_most_transitive(
            &derivations::context_score(w, g.scores, steps),
            &outside::around_child(w, g, r, p, y),
            &out[q.0 as int],
        );
    }
}

/// Inside scores are exact: one better than zero is the score of some derivation.
pub proof fn law_inside_is_attained<W: WeightScorer>(
    w: &W,
    shapes: Seq<RuleShape>,
    scores: Seq<W::Value>,
    n: nat,
    v: Seq<W::Value>,
    q: StateId,
) -> (d: Derived)
    requires
        inside::is_inside(w, shapes, scores, n, v),
        q.0 < n,
        !v[q.0 as int].at_most(&w.zero_value()),
    ensures
        derivations::is_derivation(shapes, d, q),
        derivations::derivation_score(w, scores, d) == v[q.0 as int],
{
    assert(inside::is_attained(w, shapes, scores, q, v[q.0 as int]));
    inside::attaining(w, shapes, scores, q, v[q.0 as int])
}

/// Outside scores are exact: one better than zero is the score of something that stands
/// around its state in a derivation from an accepting state.
pub proof fn law_outside_is_attained<W: WeightScorer>(
    w: &W,
    g: Given<W::Value>,
    n: nat,
    out: Seq<W::Value>,
    q: StateId,
) -> (steps: Seq<Descent>)
    requires
        outside::is_outside(w, g, n, out),
        q.0 < n,
        !out[q.0 as int].at_most(&w.zero_value()),
    ensures
        derivations::is_context(g.shapes, g.accepting, steps, q),
        derivations::context_score(w, g.scores, steps) == out[q.0 as int],
{
    assert(outside::is_attained(w, g, q, out[q.0 as int]));
    choose|steps: Seq<Descent>| #[trigger]
        derivations::is_context(g.shapes, g.accepting, steps, q) && derivations::context_score(
            w,
            g.scores,
            steps,
        ) == out[q.0 as int]
}

/// Outside scores are consistent: going down a rule, what stands around the child never
/// exceeds the child's own estimate.
pub proof fn law_outside_is_consistent<W: WeightScorer>(
    w: &W,
    g: Given<W::Value>,
    n: nat,
    out: Seq<W::Value>,
    r: int,
    p: int,
)
    requires
        outside::is_outside(w, g, n, out),
        0 <= r < g.shapes.len(),
        0 <= p < g.shapes[r].children.len(),
    ensures
        outside::around_child(w, g, r, p, out[g.shapes[r].result.0 as int]).at_most(
            &out[g.shapes[r].children[p].0 as int],
        ),
{
    assert(outside::is_satisfied(w, g, out, r, p));
}

} // verus!
