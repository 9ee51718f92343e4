//! The best scores of the derivations that end in each state.
use super::derivations;
use super::derivations::Derived;
use super::scorer;
use super::scorer::{best_open, WeightScorer};
use crate::automaton;
use crate::explicit::{Explicit, Rule};
use crate::heuristic::Score;
use crate::ids::StateId;
use crate::language_analysis;
use crate::language_analysis::{child_edges, RuleShape};
use crate::release;
use crate::worklist;
use vstd::prelude::*;

verus! {

/// A score multiplied by the values of states, one after the other.
pub open spec fn folded<W: WeightScorer>(
    w: &W,
    start: W::Value,
    factors: Seq<StateId>,
    v: Seq<W::Value>,
) -> W::Value
    decreases factors.len(),
{
    if factors.len() == 0 {
        start
    } else {
        w.product(folded(w, start, factors.drop_last(), v), v[factors.last().0 as int])
    }
}

/// What a rule makes of the values of its children.
pub open spec fn rule_value<W: WeightScorer>(
    w: &W,
    shape: RuleShape,
    score: W::Value,
    v: Seq<W::Value>,
) -> W::Value {
    folded(w, score, shape.children, v)
}

/// Whether no rule makes more of the values than the value of its result.
pub open spec fn inside_closed<W: WeightScorer>(
    w: &W,
    shapes: Seq<RuleShape>,
    scores: Seq<W::Value>,
    v: Seq<W::Value>,
) -> bool {
    forall|r: int|
        0 <= r < shapes.len() ==> (#[trigger] rule_value(w, shapes[r], scores[r], v)).at_most(
            &v[shapes[r].result.0 as int],
        )
}

/// Whether a value is zero, or the score of some derivation that ends in `q`.
pub open spec fn is_attained<W: WeightScorer>(
    w: &W,
    shapes: Seq<RuleShape>,
    scores: Seq<W::Value>,
    q: StateId,
    value: W::Value,
) -> bool {
    value.at_most(&w.zero_value()) || exists|d: Derived| #[trigger]
        derivations::is_derivation(shapes, d, q) && derivations::derivation_score(w, scores, d)
            == value
}

/// Whether every value better than zero is the score of some derivation.
pub open spec fn all_attained<W: WeightScorer>(
    w: &W,
    shapes: Seq<RuleShape>,
    scores: Seq<W::Value>,
    v: Seq<W::Value>,
) -> bool {
    forall|q: StateId|
        q.0 < v.len() ==> #[trigger] is_attained(w, shapes, scores, q, v[q.0 as int])
}

/// Whether `v` is the inside scores of `n` states: the least values that the rules do not
/// exceed, each that of a derivation where it is better than zero.
pub open spec fn is_inside<W: WeightScorer>(
    w: &W,
    shapes: Seq<RuleShape>,
    scores: Seq<W::Value>,
    n: nat,
    v: Seq<W::Value>,
) -> bool {
    &&& v.len() == n
    &&& scorer::all_scores(w, v)
    &&& inside_closed(w, shapes, scores, v)
    &&& is_below_closed(w, shapes, scores, v)
    &&& all_attained(w, shapes, scores, v)
}

/// Whether no value of `v` exceeds that of values that the rules do not exceed.
pub open spec fn is_below_closed<W: WeightScorer>(
    w: &W,
    shapes: Seq<RuleShape>,
    scores: Seq<W::Value>,
    v: Seq<W::Value>,
) -> bool {
    forall|u: Seq<W::Value>| #[trigger]
        is_bound(w, shapes, scores, v.len(), u) ==> scorer::all_at_most(w, v, u)
}

/// Whether `u` gives each of `n` states a score that the rules do not exceed.
pub open spec fn is_bound<W: WeightScorer>(
    w: &W,
    shapes: Seq<RuleShape>,
    scores: Seq<W::Value>,
    n: nat,
    u: Seq<W::Value>,
) -> bool {
    u.len() == n && scorer::all_scores(w, u) && inside_closed(w, shapes, scores, u)
}

/// Whether all children of a rule are done.
pub open spec fn is_ready(shape: RuleShape, done: Set<usize>) -> bool {
    forall|p: int|
        0 <= p < shape.children.len() ==> done.contains(
            (#[trigger] shape.children[p]).0 as usize,
        )
}

/// Better values make a better product.
pub proof fn lemma_folded_monotone<W: WeightScorer>(
    w: &W,
    start: W::Value,
    factors: Seq<StateId>,
    v: Seq<W::Value>,
    u: Seq<W::Value>,
)
    requires
        w.is_score(start),
        scorer::all_scores(w, v),
        scorer::all_scores(w, u),
        scorer::all_at_most(w, v, u),
        forall|i: int| 0 <= i < factors.len() ==> (#[trigger] factors[i]).0 < v.len(),
    ensures
        w.is_score(folded(w, start, factors, v)),
        w.is_score(folded(w, start, factors, u)),
        folded(w, start, factors, v).at_most(&folded(w, start, factors, u)),
    decreases factors.len(),
{
    if factors.len() == 0 {
        scorer::lemma_at_most_itself(start);
    } else {
        let short = factors.drop_last();
        lemma_folded_monotone(w, start, short, v, u);
        let i = factors.last().0 as int;
        assert(factors[factors.len() - 1].0 < v.len());
        w.scores_are_closed(folded(w, start, short, v), v[i]);
        w.scores_are_closed(folded(w, start, short, u), u[i]);
        w.product_is_monotone(folded(w, start, short, v), v[i], folded(w, start, short, u), u[i]);
    }
}

/// A product is no better than any of its factors.
pub proof fn lemma_folded_shrinks<W: WeightScorer>(
    w: &W,
    start: W::Value,
    factors: Seq<StateId>,
    v: Seq<W::Value>,
    q: StateId,
)
    requires
        w.is_score(start),
        scorer::all_scores(w, v),
        forall|i: int| 0 <= i < factors.len() ==> (#[trigger] factors[i]).0 < v.len(),
    ensures
        w.is_score(folded(w, start, factors, v)),
        factors.contains(q) ==> folded(w, start, factors, v).at_most(&v[q.0 as int]),
    decreases factors.len(),
{
    if factors.len() > 0 {
        let short = factors.drop_last();
        lemma_folded_shrinks(w, start, short, v, q);
        let part = folded(w, start, short, v);
        let last = factors.last();
        assert(factors[factors.len() - 1].0 < v.len());
        w.scores_are_closed(part, v[last.0 as int]);
        w.product_shrinks(part, v[last.0 as int]);
        if factors.contains(q) && q != last {
            let k = choose|k: int| 0 <= k < factors.len() && factors[k] == q;
            assert(short[k] == q);
            <W::Value as Score>::at_most_transitive(
                &folded(w, start, factors, v),
                &part,
                &v[q.0 as int],
            );
        }
    }
}

/// Values that agree on the factors make the same product.
pub proof fn lemma_folded_same<W: WeightScorer>(
    w: &W,
    start: W::Value,
    factors: Seq<StateId>,
    v: Seq<W::Value>,
    u: Seq<W::Value>,
)
    requires
        forall|i: int|
            0 <= i < factors.len() ==> v[(#[trigger] factors[i]).0 as int]
                == u[factors[i].0 as int],
    ensures
        folded(w, start, factors, v) == folded(w, start, factors, u),
    decreases factors.len(),
{
    if factors.len() > 0 {
        lemma_folded_same(w, start, factors.drop_last(), v, u);
        assert(factors[factors.len() - 1] == factors.last());
    }
}

/// A rule is ready when none of its edges is pending.
proof fn lemma_ready(
    shapes: Seq<RuleShape>,
    edges: Seq<(usize, usize)>,
    done: Set<usize>,
    r: usize,
)
    requires
        language_analysis::child_edges_of(shapes, edges),
        r < shapes.len(),
    ensures
        release::pending(edges, done, r) == 0 <==> is_ready(shapes[r as int], done),
{
    let shape = shapes[r as int];
    release::lemma_pending_zero(edges, done, r);
    if release::pending(edges, done, r) == 0 {
        assert forall|p: int| 0 <= p < shape.children.len() implies done.contains(
            (#[trigger] shape.children[p]).0 as usize,
        ) by {
            let e = (shapes[r as int].children[p].0 as usize, r);
            assert(edges.contains(e));
            let k = choose|k: int| 0 <= k < edges.len() && edges[k] == e;
            assert(done.contains(edges[k].0));
        }
    }
    if is_ready(shape, done) {
        assert forall|k: int| 0 <= k < edges.len() && (#[trigger] edges[k]).1 == r implies done.contains(
            edges[k].0,
        ) by {
            let p = choose|p: int|
                0 <= p < shapes[edges[k].1 as int].children.len()
                    && #[trigger] shapes[edges[k].1 as int].children[p].0 == edges[k].0;
            assert(done.contains(shape.children[p].0 as usize));
        }
    }
}

/// What a rule makes of the values of its children.
fn value_of_rule<W: WeightScorer>(
    w: &W,
    children: &[StateId],
    score: W::Value,
    values: &Vec<W::Value>,
) -> (s: W::Value)
    requires
        forall|p: int| 0 <= p < children@.len() ==> (#[trigger] children@[p]).0 < values@.len(),
    ensures
        s == folded(w, score, children@, values@),
{
    let mut s = score;
    let mut i: usize = 0;
    assert(children@.take(0) =~= Seq::empty());
    while i < children.len()
        invariant
            i <= children@.len(),
            forall|k: int| 0 <= k < children@.len() ==> (#[trigger] children@[k]).0 < values@.len(),
            s == folded(w, score, children@.take(i as int), values@),
        decreases children@.len() - i,
    {
        proof {
            assert(children@.take(i + 1).drop_last() =~= children@.take(i as int));
            assert(children@.take(i + 1).last() == children@[i as int]);
        }
        s = w.times(s, values[children[i].index()]);
        i += 1;
    }
    assert(children@.take(i as int) =~= children@);
    s
}

/// What holds of the values while states are closed one after the other, the best first.
pub open spec fn is_settling<W: WeightScorer>(
    w: &W,
    shapes: Seq<RuleShape>,
    scores: Seq<W::Value>,
    v: Seq<W::Value>,
    done: Set<usize>,
) -> bool {
    &&& scorer::all_scores(w, v)
    &&& is_below_closed(w, shapes, scores, v)
    &&& all_attained(w, shapes, scores, v)
    &&& forall|s: usize, q: usize|
        #![trigger v[q as int], v[s as int]]
        done.contains(s) && q < v.len() && !done.contains(q) ==> v[q as int].at_most(
            &v[s as int],
        )
}

/// Whether a rule does not exceed the value of its result.
pub open spec fn is_satisfied<W: WeightScorer>(
    w: &W,
    shapes: Seq<RuleShape>,
    scores: Seq<W::Value>,
    v: Seq<W::Value>,
    r: int,
) -> bool {
    rule_value(w, shapes[r], scores[r], v).at_most(&v[shapes[r].result.0 as int])
}

/// A product of derivation scores is that of the values that they attain.
pub proof fn lemma_run_attained<W: WeightScorer>(
    w: &W,
    start: W::Value,
    list: Seq<W::Value>,
    states: Seq<StateId>,
    v: Seq<W::Value>,
)
    requires
        list.len() == states.len(),
        forall|i: int| 0 <= i < list.len() ==> #[trigger] list[i] == v[states[i].0 as int],
    ensures
        derivations::run(w, start, list) == folded(w, start, states, v),
    decreases list.len(),
{
    if list.len() > 0 {
        let short = list.drop_last();
        let fewer = states.drop_last();
        assert forall|i: int| 0 <= i < short.len() implies #[trigger] short[i]
            == v[fewer[i].0 as int] by {
            assert(list[i] == short[i]);
        }
        lemma_run_attained(w, start, short, fewer, v);
        assert(list[list.len() - 1] == v[states[list.len() - 1].0 as int]);
    }
}

/// A derivation that attains a value.
pub open spec fn attaining<W: WeightScorer>(
    w: &W,
    shapes: Seq<RuleShape>,
    scores: Seq<W::Value>,
    q: StateId,
    value: W::Value,
) -> Derived {
    choose|d: Derived| #[trigger]
        derivations::is_derivation(shapes, d, q) && derivations::derivation_score(w, scores, d)
            == value
}

/// What a rule makes of attained values is attained.
proof fn lemma_rule_attained<W: WeightScorer>(
    w: &W,
    shapes: Seq<RuleShape>,
    scores: Seq<W::Value>,
    v: Seq<W::Value>,
    r: int,
)
    requires
        0 <= r < shapes.len(),
        shapes.len() == scores.len(),
        language_analysis::shapes_below(shapes, v.len()),
        scorer::all_scores(w, scores),
        scorer::all_scores(w, v),
        all_attained(w, shapes, scores, v),
    ensures
        is_attained(
            w,
            shapes,
            scores,
            shapes[r].result,
            rule_value(w, shapes[r], scores[r], v),
        ),
{
    let children = shapes[r].children;
    let value = rule_value(w, shapes[r], scores[r], v);
    assert(language_analysis::shape_below(shapes[r], v.len()));
    if !value.at_most(&w.zero_value()) {
        let parts = Seq::new(
            children.len(),
            |i: int| attaining(w, shapes, scores, children[i], v[children[i].0 as int]),
        );
        assert forall|i: int| 0 <= i < children.len() implies derivations::is_derivation(
            shapes,
            #[trigger] parts[i],
            children[i],
        ) && derivations::derivation_score(w, scores, parts[i]) == v[children[i].0 as int] by {
            let q = children[i];
            assert(children.contains(q));
            lemma_folded_shrinks(w, scores[r], children, v, q);
            if v[q.0 as int].at_most(&w.zero_value()) {
                <W::Value as Score>::at_most_transitive(&value, &v[q.0 as int], &w.zero_value());
            }
            assert(is_attained(w, shapes, scores, q, v[q.0 as int]));
        }
        let d = Derived { rule: r, parts };
        assert(derivations::is_derivation(shapes, d, shapes[r].result));
        let list = derivations::part_scores(w, scores, parts);
        derivations::lemma_first_parts(w, scores, d, parts.len());
        assert(list.take(parts.len() as int) =~= list);
        assert forall|i: int| 0 <= i < list.len() implies #[trigger] list[i]
            == v[children[i].0 as int] by {
            assert(derivations::derivation_score(w, scores, parts[i]) == v[children[i].0 as int]);
        }
        lemma_run_attained(w, scores[r], list, children, v);
    }
}

/// Raising the value of an open result to what a ready rule makes keeps everything.
proof fn lemma_raise<W: WeightScorer>(
    w: &W,
    shapes: Seq<RuleShape>,
    scores: Seq<W::Value>,
    v: Seq<W::Value>,
    done: Set<usize>,
    r: int,
)
    requires
        0 <= r < shapes.len(),
        shapes.len() == scores.len(),
        v.len() <= u32::MAX,
        language_analysis::shapes_below(shapes, v.len()),
        scorer::all_scores(w, scores),
        is_settling(w, shapes, scores, v, done),
        is_ready(shapes[r], done),
        forall|s: usize| #[trigger] done.contains(s) ==> s < v.len(),
        forall|s: usize| #[trigger]
            done.contains(s) ==> rule_value(w, shapes[r], scores[r], v).at_most(&v[s as int]),
        !is_satisfied(w, shapes, scores, v, r),
    ensures
        ({
            let value = rule_value(w, shapes[r], scores[r], v);
            let now = v.update(shapes[r].result.0 as int, value);
            &&& !done.contains(shapes[r].result.0 as usize)
            &&& is_settling(w, shapes, scores, now, done)
            &&& is_satisfied(w, shapes, scores, now, r)
            &&& forall|k: int|
                0 <= k < shapes.len() && is_ready(shapes[k], done) && #[trigger] is_satisfied(
                    w,
                    shapes,
                    scores,
                    v,
                    k,
                ) ==> is_satisfied(w, shapes, scores, now, k)
        }),
{
    let q = shapes[r].result;
    let value = rule_value(w, shapes[r], scores[r], v);
    let now = v.update(q.0 as int, value);
    assert(language_analysis::shape_below(shapes[r], v.len()));
    lemma_folded_shrinks(w, scores[r], shapes[r].children, v, q);
    <W::Value as Score>::at_most_total(&value, &v[q.0 as int]);
    assert(!done.contains(q.0 as usize));
    assert(scorer::all_scores(w, now));
    assert(all_attained(w, shapes, scores, now)) by {
        lemma_rule_attained(w, shapes, scores, v, r);
        assert forall|x: StateId| x.0 < now.len() implies #[trigger] is_attained(
            w,
            shapes,
            scores,
            x,
            now[x.0 as int],
        ) by {
            assert(is_attained(w, shapes, scores, x, v[x.0 as int]));
        }
    }
    assert forall|k: int| 0 <= k < shapes.len() && is_ready(shapes[k], done) implies #[trigger] rule_value(
        w,
        shapes[k],
        scores[k],
        now,
    ) == rule_value(w, shapes[k], scores[k], v) by {
        let factors = shapes[k].children;
        assert forall|i: int| 0 <= i < factors.len() implies now[(#[trigger] factors[i]).0 as int]
            == v[factors[i].0 as int] by {
            assert(done.contains(shapes[k].children[i].0 as usize));
        }
        lemma_folded_same(w, scores[k], factors, now, v);
    }
    assert(is_satisfied(w, shapes, scores, now, r)) by {
        assert(rule_value(w, shapes[r], scores[r], now) == value);
        scorer::lemma_at_most_itself(value);
    }
    assert forall|k: int|
        0 <= k < shapes.len() && is_ready(shapes[k], done) && #[trigger] is_satisfied(
            w,
            shapes,
            scores,
            v,
            k,
        ) implies is_satisfied(w, shapes, scores, now, k) by {
        assert(rule_value(w, shapes[k], scores[k], now) == rule_value(w, shapes[k], scores[k], v));
        if shapes[k].result == q {
            <W::Value as Score>::at_most_transitive(
                &rule_value(w, shapes[k], scores[k], v),
                &v[q.0 as int],
                &value,
            );
        }
    }
    assert(is_below_closed(w, shapes, scores, now)) by {
        assert forall|u: Seq<W::Value>| #[trigger]
            is_bound(w, shapes, scores, now.len(), u) implies scorer::all_at_most(w, now, u) by {
            assert(is_bound(w, shapes, scores, v.len(), u));
            assert(scorer::all_at_most(w, v, u));
            lemma_folded_monotone(w, scores[r], shapes[r].children, v, u);
            assert(rule_value(w, shapes[r], scores[r], u).at_most(&u[q.0 as int]));
            <W::Value as Score>::at_most_transitive(
                &value,
                &rule_value(w, shapes[r], scores[r], u),
                &u[q.0 as int],
            );
            assert forall|i: int| 0 <= i < now.len() implies (#[trigger] now[i]).at_most(&u[i]) by {
                assert(v[i].at_most(&u[i]));
            }
        }
    }
    assert forall|s: usize, t: usize|
        #![trigger now[t as int], now[s as int]]
        done.contains(s) && t < now.len() && !done.contains(t) implies now[t as int].at_most(
        &now[s as int],
    ) by {
        assert(now[s as int] == v[s as int]);
        assert(v[t as int].at_most(&v[s as int]));
    }
}

/// Raises the value of a rule's result to what the rule makes, where that is better.
fn fire<W: WeightScorer>(
    w: &W,
    rules: &Vec<Rule<'_>>,
    scores: &Vec<W::Value>,
    values: &mut Vec<W::Value>,
    r: usize,
    Ghost(shapes): Ghost<Seq<RuleShape>>,
    Ghost(done): Ghost<Set<usize>>,
)
    requires
        r < rules@.len(),
        rules@.len() == scores@.len(),
        shapes.len() == rules@.len(),
        forall|i: int|
            0 <= i < shapes.len() ==> (#[trigger] shapes[i]).children == rules@[i].children@
                && shapes[i].result == rules@[i].result,
        old(values)@.len() <= u32::MAX,
        language_analysis::shapes_below(shapes, old(values)@.len()),
    ensures
        final(values)@.len() == old(values)@.len(),
        scorer::all_scores(w, scores@) && is_settling(
            w,
            shapes,
            scores@,
            old(values)@,
            done,
        ) && is_ready(shapes[r as int], done) && (forall|s: usize| #[trigger]
            done.contains(s) ==> s < old(values)@.len()) && (forall|s: usize| #[trigger]
            done.contains(s) ==> rule_value(
                w,
                shapes[r as int],
                scores@[r as int],
                old(values)@,
            ).at_most(&old(values)@[s as int])) ==> {
            &&& is_settling(w, shapes, scores@, final(values)@, done)
            &&& is_satisfied(w, shapes, scores@, final(values)@, r as int)
            &&& forall|k: int|
                0 <= k < shapes.len() && is_ready(shapes[k], done) && is_satisfied(
                    w,
                    shapes,
                    scores@,
                    old(values)@,
                    k,
                ) ==> #[trigger] is_satisfied(w, shapes, scores@, final(values)@, k)
            &&& forall|s: usize| #[trigger]
                done.contains(s) ==> final(values)@[s as int] == old(values)@[s as int]
        },
{
    let ghost v = values@;
    proof {
        assert(language_analysis::shape_below(shapes[r as int], v.len()));
        assert forall|p: int| 0 <= p < rules@[r as int].children@.len() implies (
        #[trigger] rules@[r as int].children@[p]).0 < v.len() by {
            assert(shapes[r as int].children[p].0 < v.len());
        }
    }
    let q: usize = rules[r].result.index();
    let value = value_of_rule(w, rules[r].children, scores[r], values);
    if w.better(value, values[q]) {
        proof {
            if scorer::all_scores(w, scores@) && is_settling(w, shapes, scores@, v, done)
                && is_ready(shapes[r as int], done) && (forall|s: usize| #[trigger]
                done.contains(s) ==> s < v.len()) && (forall|s: usize| #[trigger]
                done.contains(s) ==> rule_value(
                    w,
                    shapes[r as int],
                    scores@[r as int],
                    v,
                ).at_most(&v[s as int])) {
                lemma_raise(w, shapes, scores@, v, done, r as int);
            }
        }
        values.set(q, value);
    }
}

/// The scores of the rules of an automaton.
pub open spec fn rule_scores<W: WeightScorer>(
    w: &W,
    rules: Seq<automaton::RuleModel>,
) -> Seq<W::Value> {
    Seq::new(rules.len(), |i: int| w.value_of(rules[i].weight))
}

/// Scores the rules of an automaton.
pub fn score_rules<W: WeightScorer>(w: &W, grammar: &Explicit) -> (r: Vec<W::Value>)
    ensures
        r@ == rule_scores(w, grammar@.rules),
{
    let rules = grammar.rules();
    let mut r: Vec<W::Value> = Vec::new();
    let mut i: usize = 0;
    while i < rules.len()
        invariant
            i <= rules@.len(),
            rules@.len() == grammar@.rules.len(),
            forall|k: int| 0 <= k < rules@.len() ==> (#[trigger] rules@[k])@ == grammar@.rules[k],
            r@ == rule_scores(w, grammar@.rules).take(i as int),
        decreases rules@.len() - i,
    {
        assert(rules@[i as int]@ == grammar@.rules[i as int]);
        r.push(w.rule_score(rules[i].weight));
        i += 1;
        assert(r@ =~= rule_scores(w, grammar@.rules).take(i as int));
    }
    assert(r@ =~= rule_scores(w, grammar@.rules));
    r
}

/// Whether the rules that are ready do not exceed the values of their results.
spec fn ready_satisfied<W: WeightScorer>(
    w: &W,
    shapes: Seq<RuleShape>,
    scores: Seq<W::Value>,
    v: Seq<W::Value>,
    done: Set<usize>,
) -> bool {
    forall|k: int|
        0 <= k < shapes.len() && is_ready(shapes[k], done) ==> #[trigger] is_satisfied(
            w,
            shapes,
            scores,
            v,
            k,
        )
}

/// When no open state has a value better than zero, no rule exceeds its result.
proof fn lemma_settled<W: WeightScorer>(
    w: &W,
    shapes: Seq<RuleShape>,
    scores: Seq<W::Value>,
    v: Seq<W::Value>,
    done: Set<usize>,
)
    requires
        shapes.len() == scores.len(),
        v.len() <= u32::MAX,
        language_analysis::shapes_below(shapes, v.len()),
        scorer::all_scores(w, scores),
        is_settling(w, shapes, scores, v, done),
        ready_satisfied(w, shapes, scores, v, done),
        forall|q: usize|
            q < v.len() && !done.contains(q) ==> (#[trigger] v[q as int]).at_most(&w.zero_value()),
    ensures
        is_inside(w, shapes, scores, v.len(), v),
{
    assert forall|r: int| 0 <= r < shapes.len() implies (#[trigger] rule_value(
        w,
        shapes[r],
        scores[r],
        v,
    )).at_most(&v[shapes[r].result.0 as int]) by {
        let shape = shapes[r];
        assert(language_analysis::shape_below(shape, v.len()));
        if is_ready(shape, done) {
            assert(is_satisfied(w, shapes, scores, v, r));
        } else {
            let p = choose|p: int|
                0 <= p < shape.children.len() && !done.contains(
                    (#[trigger] shape.children[p]).0 as usize,
                );
            let q = shape.children[p];
            assert(shape.children.contains(q));
            lemma_folded_shrinks(w, scores[r], shape.children, v, q);
            assert(v[q.0 as usize as int].at_most(&w.zero_value()));
            let value = rule_value(w, shape, scores[r], v);
            <W::Value as Score>::at_most_transitive(&value, &v[q.0 as int], &w.zero_value());
            w.scores_are_bounded(v[shape.result.0 as int]);
            <W::Value as Score>::at_most_transitive(
                &value,
                &w.zero_value(),
                &v[shape.result.0 as int],
            );
        }
    }
}

/// Closing the best open state keeps the order of values.
proof fn lemma_close<W: WeightScorer>(
    w: &W,
    shapes: Seq<RuleShape>,
    scores: Seq<W::Value>,
    v: Seq<W::Value>,
    done: Set<usize>,
    s: usize,
)
    requires
        is_settling(w, shapes, scores, v, done),
        s < v.len(),
        !done.contains(s),
        forall|q: usize|
            q < v.len() && !done.contains(q) ==> (#[trigger] v[q as int]).at_most(&v[s as int]),
    ensures
        is_settling(w, shapes, scores, v, done.insert(s)),
        forall|f: usize| #[trigger]
            done.insert(s).contains(f) ==> v[s as int].at_most(&v[f as int]),
{
    scorer::lemma_at_most_itself(v[s as int]);
    assert forall|f: usize| #[trigger] done.insert(s).contains(f) implies v[s as int].at_most(
        &v[f as int],
    ) by {
        if f != s {
            assert(done.contains(f));
            assert(v[s as int].at_most(&v[f as int]));
        }
    }
    assert forall|f: usize, q: usize|
        #![trigger v[q as int], v[f as int]]
        done.insert(s).contains(f) && q < v.len() && !done.insert(s).contains(q) implies v[q as int].at_most(
        &v[f as int],
    ) by {
        if f != s {
            assert(done.contains(f));
        }
    }
}

/// A rule over a state that was just closed makes no more than any closed value.
proof fn lemma_released<W: WeightScorer>(
    w: &W,
    shapes: Seq<RuleShape>,
    scores: Seq<W::Value>,
    v: Seq<W::Value>,
    done: Set<usize>,
    s: usize,
    r: int,
)
    requires
        0 <= r < shapes.len(),
        shapes.len() == scores.len(),
        language_analysis::shapes_below(shapes, v.len()),
        scorer::all_scores(w, scores),
        scorer::all_scores(w, v),
        forall|f: usize| #[trigger] done.contains(f) ==> v[s as int].at_most(&v[f as int]),
        shapes[r].children.contains(StateId(s as u32)),
        s <= u32::MAX,
    ensures
        forall|f: usize| #[trigger]
            done.contains(f) ==> rule_value(w, shapes[r], scores[r], v).at_most(&v[f as int]),
{
    let q = StateId(s as u32);
    let value = rule_value(w, shapes[r], scores[r], v);
    assert(language_analysis::shape_below(shapes[r], v.len()));
    lemma_folded_shrinks(w, scores[r], shapes[r].children, v, q);
    assert forall|f: usize| #[trigger] done.contains(f) implies value.at_most(&v[f as int]) by {
        <W::Value as Score>::at_most_transitive(&value, &v[s as int], &v[f as int]);
    }
}

/// The inside scores of the states of an automaton.
pub fn inside_scores<W: WeightScorer>(w: &W, grammar: &Explicit, scores: &Vec<W::Value>) -> (v: Vec<
    W::Value,
>)
    requires
        scores@.len() == grammar@.rules.len(),
    ensures
        v@.len() == grammar@.states,
        scorer::all_scores(w, scores@) ==> is_inside(
            w,
            automaton::rule_shapes(grammar@.rules),
            scores@,
            grammar@.states,
            v@,
        ),
{
    proof {
        use_type_invariant(grammar);
        grammar.lemma_well_formed();
    }
    let n: usize = grammar.num_states() as usize;
    let rules = grammar.rules();
    let inputs = grammar.rule_inputs();
    let ghost shapes = automaton::rule_shapes(grammar@.rules);
    let ghost proper = scorer::all_scores(w, scores@);
    proof {
        assert forall|i: int| 0 <= i < shapes.len() implies (#[trigger] shapes[i]).children
            == rules@[i].children@ && shapes[i].result == rules@[i].result by {
            assert(rules@[i]@ == grammar@.rules[i]);
        }
        assert(inputs@.len() == shapes.len());
    }
    let edges = child_edges(&inputs);
    proof {
        assert forall|k: int| 0 <= k < edges@.len() implies (#[trigger] edges@[k]).0 < n by {
            let i = edges@[k].1 as int;
            let p = choose|p: int|
                0 <= p < shapes[i].children.len() && #[trigger] shapes[i].children[p].0
                    == edges@[k].0;
            assert(language_analysis::shape_below(shapes[i], n as nat));
        }
    }
    let out = release::adjacency(n, &edges);
    let mut remaining = release::in_counts(rules.len(), &edges);
    let mut values: Vec<W::Value> = Vec::new();
    let mut closed: Vec<bool> = Vec::new();
    let ghost mut done: Set<usize> = Set::empty();
    let zero = w.zero();
    let mut i: usize = 0;
    while i < n
        invariant
            i <= n,
            zero == w.zero_value(),
            values@.len() == i,
            closed@.len() == i,
            forall|k: int| 0 <= k < i ==> #[trigger] values@[k] == zero,
            forall|k: int| 0 <= k < i ==> !#[trigger] closed@[k],
        decreases n - i,
    {
        values.push(zero);
        closed.push(false);
        i += 1;
    }
    proof {
        if proper {
            w.scores_are_closed(zero, zero);
            assert(is_below_closed(w, shapes, scores@, values@)) by {
                assert forall|u: Seq<W::Value>| #[trigger]
                    is_bound(w, shapes, scores@, values@.len(), u) implies scorer::all_at_most(
                    w,
                    values@,
                    u,
                ) by {
                    assert forall|k: int| 0 <= k < values@.len() implies (
                    #[trigger] values@[k]).at_most(&u[k]) by {
                        w.scores_are_bounded(u[k]);
                    }
                }
            }
            scorer::lemma_at_most_itself(zero);
            assert(all_attained(w, shapes, scores@, values@));
            assert(is_settling(w, shapes, scores@, values@, done));
        }
    }
    let mut r: usize = 0;
    while r < rules.len()
        invariant
            r <= rules@.len(),
            proper == scorer::all_scores(w, scores@),
            n <= u32::MAX,
            values@.len() == n,
            rules@.len() == scores@.len(),
            shapes.len() == rules@.len(),
            language_analysis::shapes_below(shapes, n as nat),
            language_analysis::child_edges_of(shapes, edges@),
            forall|i: int|
                0 <= i < shapes.len() ==> (#[trigger] shapes[i]).children == rules@[i].children@
                    && shapes[i].result == rules@[i].result,
            done == Set::<usize>::empty(),
            remaining@.len() == rules@.len(),
            forall|d: usize|
                d < rules@.len() ==> #[trigger] remaining@[d as int] == release::pending(
                    edges@,
                    done,
                    d,
                ),
            proper ==> is_settling(w, shapes, scores@, values@, done),
            proper ==> forall|k: int|
                0 <= k < r && is_ready(shapes[k], done) ==> #[trigger] is_satisfied(
                    w,
                    shapes,
                    scores@,
                    values@,
                    k,
                ),
        decreases rules@.len() - r,
    {
        proof {
            lemma_ready(shapes, edges@, done, r);
            assert(remaining@[r as int] == release::pending(edges@, done, r));
        }
        if remaining[r] == 0 {
            fire(w, &rules, scores, &mut values, r, Ghost(shapes), Ghost(done));
        }
        r += 1;
    }
    let mut next = best_open(w, &values, &closed);
    while next.is_some()
        invariant
            proper == scorer::all_scores(w, scores@),
            n <= u32::MAX,
            values@.len() == n,
            closed@.len() == n,
            rules@.len() == scores@.len(),
            shapes.len() == rules@.len(),
            language_analysis::shapes_below(shapes, n as nat),
            language_analysis::child_edges_of(shapes, edges@),
            release::targets_below(edges@, rules@.len()),
            forall|i: int|
                0 <= i < shapes.len() ==> (#[trigger] shapes[i]).children == rules@[i].children@
                    && shapes[i].result == rules@[i].result,
            out@.len() == n,
            forall|s: usize| s < n ==> (#[trigger] out@[s as int])@ == release::targets(edges@, s),
            remaining@.len() == rules@.len(),
            forall|d: usize|
                d < rules@.len() ==> #[trigger] remaining@[d as int] == release::pending(
                    edges@,
                    done,
                    d,
                ),
            forall|s: usize| s < n ==> (#[trigger] closed@[s as int] <==> done.contains(s)),
            forall|s: usize| #[trigger] done.contains(s) ==> s < n,
            proper ==> is_settling(w, shapes, scores@, values@, done),
            proper ==> ready_satisfied(w, shapes, scores@, values@, done),
            match next {
                Some(s) => {
                    &&& s < n
                    &&& !closed@[s as int]
                    &&& forall|q: int|
                        0 <= q < n && !closed@[q] ==> (#[trigger] values@[q]).at_most(
                            &values@[s as int],
                        )
                },
                None => forall|q: int|
                    0 <= q < n && !closed@[q] ==> (#[trigger] values@[q]).at_most(&w.zero_value()),
            },
        decreases worklist::unmarked(closed@),
    {
        let s: usize = next.unwrap();
        let ghost before = done;
        let ghost remaining_before = remaining@;
        proof {
            worklist::lemma_unmarked_update(closed@, s as int);
            assert(!done.contains(s));
            release::lemma_targets_below(edges@, s, rules@.len());
            assert forall|d: usize| d < rules@.len() implies release::count_eq(
                out@[s as int]@,
                d,
            ) <= #[trigger] remaining@[d as int] by {
                release::lemma_pending_insert(edges@, done, s, d);
            }
        }
        closed.set(s, true);
        let released = release::discharge(&mut remaining, &out[s]);
        proof {
            assert forall|d: usize| d < rules@.len() implies #[trigger] remaining@[d as int]
                == release::pending(edges@, done.insert(s), d) by {
                release::lemma_pending_insert(edges@, done, s, d);
                assert(remaining_before[d as int] == release::pending(edges@, done, d));
            }
            done = done.insert(s);
            if proper {
                assert forall|q: usize| q < n && !before.contains(q) implies (
                #[trigger] values@[q as int]).at_most(&values@[s as int]) by {
                    assert(values@[q as int as int].at_most(&values@[s as int]));
                }
                lemma_close(w, shapes, scores@, values@, before, s);
            }
            assert forall|k: int| 0 <= k < shapes.len() && is_ready(shapes[k], done) && !is_ready(
                shapes[k],
                before,
            ) implies #[trigger] released@.contains(k as usize) && shapes[k].children.contains(
                StateId(s as u32),
            ) by {
                lemma_ready(shapes, edges@, done, k as usize);
                lemma_ready(shapes, edges@, before, k as usize);
                assert(k < rules.len());
                assert(k as usize == k);
                assert(remaining@[k as usize as int] == release::pending(edges@, done, k as usize));
                assert(remaining_before[k as usize as int] == release::pending(
                    edges@,
                    before,
                    k as usize,
                ));
                assert(released@.contains(k as usize));
                let p = choose|p: int|
                    0 <= p < shapes[k].children.len() && !before.contains(
                        (#[trigger] shapes[k].children[p]).0 as usize,
                    );
                assert(done.contains(shapes[k].children[p].0 as usize));
                assert(shapes[k].children[p] == StateId(s as u32));
            }
            assert forall|j: int| 0 <= j < released@.len() implies (#[trigger] released@[j])
                < rules@.len() && is_ready(shapes[released@[j] as int], done) && !is_ready(
                shapes[released@[j] as int],
                before,
            ) by {
                let d = released@[j];
                assert(released@.contains(d));
                lemma_ready(shapes, edges@, done, d);
                lemma_ready(shapes, edges@, before, d);
                assert(remaining@[d as int] == release::pending(edges@, done, d));
                assert(remaining_before[d as int] == release::pending(edges@, before, d));
            }
            if proper {
                assert forall|k: int|
                    0 <= k < shapes.len() && is_ready(shapes[k], done) && !released@.contains(
                        k as usize,
                    ) implies #[trigger] is_satisfied(w, shapes, scores@, values@, k) by {
                    assert(is_ready(shapes[k], before));
                }
            }
        }
        let ghost top = values@[s as int];
        let rule_count: usize = rules.len();
        let mut j: usize = 0;
        assert(released@.skip(0) =~= released@);
        while j < released.len()
            invariant
                j <= released@.len(),
                rule_count == rules@.len(),
                s < n,
                s <= u32::MAX,
                proper == scorer::all_scores(w, scores@),
                n <= u32::MAX,
                values@.len() == n,
                rules@.len() == scores@.len(),
                shapes.len() == rules@.len(),
                language_analysis::shapes_below(shapes, n as nat),
                forall|i: int|
                    0 <= i < shapes.len() ==> (#[trigger] shapes[i]).children == rules@[i].children@
                        && shapes[i].result == rules@[i].result,
                forall|k: int| 0 <= k < released@.len() ==> (#[trigger] released@[k]) < rules@.len(),
                forall|k: int|
                    0 <= k < released@.len() ==> is_ready(
                        shapes[(#[trigger] released@[k]) as int],
                        done,
                    ) && shapes[released@[k] as int].children.contains(StateId(s as u32)),
                done.contains(s),
                forall|f: usize| #[trigger] done.contains(f) ==> f < n,
                proper ==> values@[s as int] == top,
                proper ==> forall|f: usize| #[trigger]
                    done.contains(f) ==> top.at_most(&values@[f as int]),
                proper ==> is_settling(w, shapes, scores@, values@, done),
                proper ==> forall|k: int|
                    0 <= k < shapes.len() && is_ready(shapes[k], done) && !released@.skip(
                        j as int,
                    ).contains(k as usize) ==> #[trigger] is_satisfied(
                        w,
                        shapes,
                        scores@,
                        values@,
                        k,
                    ),
            decreases released@.len() - j,
        {
            let d: usize = released[j];
            let ghost earlier = values@;
            proof {
                if proper {
                    lemma_released(w, shapes, scores@, values@, done, s, d as int);
                }
            }
            fire(w, &rules, scores, &mut values, d, Ghost(shapes), Ghost(done));
            proof {
                if proper {
                    assert forall|k: int|
                        0 <= k < shapes.len() && is_ready(shapes[k], done) && !released@.skip(
                            j + 1,
                        ).contains(k as usize) implies #[trigger] is_satisfied(
                        w,
                        shapes,
                        scores@,
                        values@,
                        k,
                    ) by {
                        if k != d {
                            if released@.skip(j as int).contains(k as usize) {
                                let x = choose|x: int|
                                    0 <= x < released@.skip(j as int).len()
                                        && released@.skip(j as int)[x] == k as usize;
                                assert(released@[j + x] == k as usize);
                                assert(k as usize == k);
                                assert(x > 0);
                                assert(released@.skip(j + 1)[x - 1] == k as usize);
                            }
                            assert(is_satisfied(w, shapes, scores@, earlier, k));
                        }
                    }
                }
            }
            j += 1;
        }
        proof {
            if proper {
                assert(ready_satisfied(w, shapes, scores@, values@, done)) by {
                    assert(released@.skip(j as int).len() == 0);
                }
            }
        }
        next = best_open(w, &values, &closed);
    }
    proof {
        if proper {
            assert forall|q: usize| q < n && !done.contains(q) implies (
            #[trigger] values@[q as int]).at_most(&w.zero_value()) by {
                assert(!closed@[q as int]);
            }
            lemma_settled(w, shapes, scores@, values@, done);
        }
    }
    values
}

} // verus!
