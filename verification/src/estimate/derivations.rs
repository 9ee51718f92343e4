//! Derivations, what stands around their nodes, and the scores of both.
use super::scorer::WeightScorer;
use crate::ids::StateId;
use crate::language_analysis::RuleShape;
use vstd::prelude::*;

verus! {

/// A derivation: a rule, and a derivation of each of its children.
pub struct Derived {
    pub rule: int,
    pub parts: Seq<Derived>,
}

/// Whether `d` is a derivation that ends in `q`.
pub open spec fn is_derivation(shapes: Seq<RuleShape>, d: Derived, q: StateId) -> bool
    decreases d,
{
    &&& 0 <= d.rule < shapes.len()
    &&& shapes[d.rule].result == q
    &&& d.parts.len() == shapes[d.rule].children.len()
    &&& forall|i: int|
        0 <= i < d.parts.len() ==> is_derivation(
            shapes,
            #[trigger] d.parts[i],
            shapes[d.rule].children[i],
        )
}

/// A score multiplied by others, one after the other.
pub open spec fn run<W: WeightScorer>(w: &W, start: W::Value, list: Seq<W::Value>) -> W::Value
    decreases list.len(),
{
    if list.len() == 0 {
        start
    } else {
        w.product(run(w, start, list.drop_last()), list.last())
    }
}

/// The product of the scores from `i` on, from the right.
pub open spec fn run_back<W: WeightScorer>(w: &W, list: Seq<W::Value>, i: int) -> W::Value
    decreases list.len() - i,
{
    if i >= list.len() {
        w.one_value()
    } else {
        w.product(run_back(w, list, i + 1), list[i])
    }
}

/// The score of a derivation: that of its rule times those of its parts.
pub open spec fn derivation_score<W: WeightScorer>(
    w: &W,
    scores: Seq<W::Value>,
    d: Derived,
) -> W::Value
    decreases d, d.parts.len() + 1,
{
    first_parts_score(w, scores, d, d.parts.len())
}

/// The score of the rule of a derivation times those of the first `k` parts.
pub open spec fn first_parts_score<W: WeightScorer>(
    w: &W,
    scores: Seq<W::Value>,
    d: Derived,
    k: nat,
) -> W::Value
    decreases d, k,
{
    if k == 0 || k > d.parts.len() {
        scores[d.rule]
    } else {
        w.product(
            first_parts_score(w, scores, d, (k - 1) as nat),
            derivation_score(w, scores, d.parts[k - 1]),
        )
    }
}

/// The scores of derivations.
pub open spec fn part_scores<W: WeightScorer>(
    w: &W,
    scores: Seq<W::Value>,
    parts: Seq<Derived>,
) -> Seq<W::Value> {
    Seq::new(parts.len(), |i: int| derivation_score(w, scores, parts[i]))
}

/// One rule on the way from an accepting state down to a state: its child `position` leads
/// on, and the other children have derivations.
pub struct Descent {
    pub rule: int,
    pub position: int,
    pub parts: Seq<Derived>,
}

/// Whether the rules, from the top down, lead to `q` from an accepting state.
pub open spec fn is_context(
    shapes: Seq<RuleShape>,
    accepting: Set<StateId>,
    steps: Seq<Descent>,
    q: StateId,
) -> bool
    decreases steps.len(),
{
    if steps.len() == 0 {
        accepting.contains(q)
    } else {
        let step = steps.last();
        &&& 0 <= step.rule < shapes.len()
        &&& 0 <= step.position < shapes[step.rule].children.len()
        &&& shapes[step.rule].children[step.position] == q
        &&& step.parts.len() == shapes[step.rule].children.len()
        &&& forall|i: int|
            0 <= i < step.parts.len() && i != step.position ==> is_derivation(
                shapes,
                #[trigger] step.parts[i],
                shapes[step.rule].children[i],
            )
        &&& is_context(shapes, accepting, steps.drop_last(), shapes[step.rule].result)
    }
}

/// The score of what stands around a state: those of the rules on the way and of the
/// derivations beside it.
pub open spec fn context_score<W: WeightScorer>(
    w: &W,
    scores: Seq<W::Value>,
    steps: Seq<Descent>,
) -> W::Value
    decreases steps.len(),
{
    if steps.len() == 0 {
        w.one_value()
    } else {
        let step = steps.last();
        let list = part_scores(w, scores, step.parts);
        w.product(
            w.product(context_score(w, scores, steps.drop_last()), scores[step.rule]),
            w.product(
                run(w, w.one_value(), list.take(step.position)),
                run_back(w, list, step.position + 1),
            ),
        )
    }
}

/// The score of the first parts is a product of their scores.
pub proof fn lemma_first_parts<W: WeightScorer>(w: &W, scores: Seq<W::Value>, d: Derived, k: nat)
    requires
        k <= d.parts.len(),
    ensures
        first_parts_score(w, scores, d, k) == run(
            w,
            scores[d.rule],
            part_scores(w, scores, d.parts).take(k as int),
        ),
    decreases k,
{
    let list = part_scores(w, scores, d.parts);
    if k > 0 {
        lemma_first_parts(w, scores, d, (k - 1) as nat);
        assert(list.take(k as int).drop_last() =~= list.take(k - 1));
        assert(list.take(k as int).last() == list[k - 1]);
    }
}

} // verus!
