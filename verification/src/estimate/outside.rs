//! The best scores of what can stand around each state.
use super::derivations;
use super::derivations::Descent;
use super::inside;
use super::inside::{inside_scores, score_rules};
use super::scorer;
use super::scorer::{best_open, WeightScorer};
use crate::automaton;
use crate::automaton::Automaton;
use crate::explicit::{Explicit, Rule};
use crate::heuristic::{IntersectionHeuristic, Score};
use crate::ids::StateId;
use crate::language_analysis;
use crate::language_analysis::{result_index, RuleShape};
use crate::worklist;
use vstd::prelude::*;

verus! {

/// The product of the inside scores of the children from `i` on, from the right.
pub open spec fn suffix_product<W: WeightScorer>(
    w: &W,
    children: Seq<StateId>,
    inner: Seq<W::Value>,
    i: int,
) -> W::Value
    decreases children.len() - i,
{
    if i >= children.len() {
        w.one_value()
    } else {
        w.product(suffix_product(w, children, inner, i + 1), inner[children[i].0 as int])
    }
}

/// The product of the inside scores of all children but child `p`.
pub open spec fn sibling_product<W: WeightScorer>(
    w: &W,
    children: Seq<StateId>,
    inner: Seq<W::Value>,
    p: int,
) -> W::Value {
    w.product(
        inside::folded(w, w.one_value(), children.take(p), inner),
        suffix_product(w, children, inner, p + 1),
    )
}

/// The scores that outside scores depend on.
pub struct Given<V> {
    pub shapes: Seq<RuleShape>,
    pub scores: Seq<V>,
    /// The inside scores.
    pub inner: Seq<V>,
    pub accepting: Set<StateId>,
}

/// What stands around child `p` of a rule, where `x` stands around its result.
pub open spec fn around_child<W: WeightScorer>(
    w: &W,
    g: Given<W::Value>,
    r: int,
    p: int,
    x: W::Value,
) -> W::Value {
    w.product(
        w.product(x, g.scores[r]),
        sibling_product(w, g.shapes[r].children, g.inner, p),
    )
}

/// Whether what stands around child `p` of a rule does not exceed the child's value.
pub open spec fn is_satisfied<W: WeightScorer>(
    w: &W,
    g: Given<W::Value>,
    v: Seq<W::Value>,
    r: int,
    p: int,
) -> bool {
    around_child(w, g, r, p, v[g.shapes[r].result.0 as int]).at_most(
        &v[g.shapes[r].children[p].0 as int],
    )
}

/// Whether accepting states have the best score and no child is exceeded by what stands
/// around it.
pub open spec fn outside_closed<W: WeightScorer>(
    w: &W,
    g: Given<W::Value>,
    v: Seq<W::Value>,
) -> bool {
    &&& forall|q: StateId| #[trigger]
        g.accepting.contains(q) ==> w.one_value().at_most(&v[q.0 as int])
    &&& forall|r: int, p: int|
        0 <= r < g.shapes.len() && 0 <= p < g.shapes[r].children.len() ==> #[trigger] is_satisfied(
            w,
            g,
            v,
            r,
            p,
        )
}

/// Whether `u` gives each of `n` states a score that is not exceeded.
pub open spec fn is_bound<W: WeightScorer>(
    w: &W,
    g: Given<W::Value>,
    n: nat,
    u: Seq<W::Value>,
) -> bool {
    u.len() == n && scorer::all_scores(w, u) && outside_closed(w, g, u)
}

/// Whether no value of `v` exceeds that of values that are not exceeded.
pub open spec fn is_below_closed<W: WeightScorer>(
    w: &W,
    g: Given<W::Value>,
    v: Seq<W::Value>,
) -> bool {
    forall|u: Seq<W::Value>| #[trigger]
        is_bound(w, g, v.len(), u) ==> scorer::all_at_most(w, v, u)
}

/// Whether a value is zero, or the score of something that stands around `q`.
pub open spec fn is_attained<W: WeightScorer>(
    w: &W,
    g: Given<W::Value>,
    q: StateId,
    value: W::Value,
) -> bool {
    value.at_most(&w.zero_value()) || exists|steps: Seq<Descent>| #[trigger]
        derivations::is_context(g.shapes, g.accepting, steps, q) && derivations::context_score(
            w,
            g.scores,
            steps,
        ) == value
}

/// Whether every value better than zero is the score of something that stands around its
/// state.
pub open spec fn all_attained<W: WeightScorer>(
    w: &W,
    g: Given<W::Value>,
    v: Seq<W::Value>,
) -> bool {
    forall|q: StateId| q.0 < v.len() ==> #[trigger] is_attained(w, g, q, v[q.0 as int])
}

/// Whether `v` is the outside scores of `n` states: the least values that are not exceeded,
/// each that of something around its state where it is better than zero.
pub open spec fn is_outside<W: WeightScorer>(
    w: &W,
    g: Given<W::Value>,
    n: nat,
    v: Seq<W::Value>,
) -> bool {
    is_bound(w, g, n, v) && is_below_closed(w, g, v) && all_attained(w, g, v)
}

/// Whether states, rules and scores belong together.
pub open spec fn is_proper<W: WeightScorer>(w: &W, g: Given<W::Value>, n: nat) -> bool {
    &&& n <= u32::MAX
    &&& g.scores.len() == g.shapes.len()
    &&& g.inner.len() == n
    &&& language_analysis::shapes_below(g.shapes, n)
    &&& forall|q: StateId| #[trigger] g.accepting.contains(q) ==> q.0 < n
    &&& scorer::all_scores(w, g.scores)
    &&& scorer::all_scores(w, g.inner)
    &&& inside::all_attained(w, g.shapes, g.scores, g.inner)
}

/// Products of inside scores are scores.
pub proof fn lemma_sibling_product<W: WeightScorer>(
    w: &W,
    children: Seq<StateId>,
    inner: Seq<W::Value>,
    p: int,
)
    requires
        0 <= p < children.len(),
        scorer::all_scores(w, inner),
        forall|i: int| 0 <= i < children.len() ==> (#[trigger] children[i]).0 < inner.len(),
    ensures
        w.is_score(sibling_product(w, children, inner, p)),
{
    w.scores_are_closed(w.one_value(), w.one_value());
    inside::lemma_folded_shrinks(w, w.one_value(), children.take(p), inner, children[0]);
    lemma_suffix(w, children, inner, p + 1);
    w.scores_are_closed(
        inside::folded(w, w.one_value(), children.take(p), inner),
        suffix_product(w, children, inner, p + 1),
    );
}

proof fn lemma_suffix<W: WeightScorer>(
    w: &W,
    children: Seq<StateId>,
    inner: Seq<W::Value>,
    i: int,
)
    requires
        0 <= i <= children.len(),
        scorer::all_scores(w, inner),
        forall|k: int| 0 <= k < children.len() ==> (#[trigger] children[k]).0 < inner.len(),
    ensures
        w.is_score(suffix_product(w, children, inner, i)),
    decreases children.len() - i,
{
    w.scores_are_closed(w.one_value(), w.one_value());
    if i < children.len() {
        lemma_suffix(w, children, inner, i + 1);
        w.scores_are_closed(
            suffix_product(w, children, inner, i + 1),
            inner[children[i].0 as int],
        );
    }
}

/// What stands around a child is a score, no better than what stands around the result,
/// and better where more stands around the result.
pub proof fn lemma_around_child<W: WeightScorer>(
    w: &W,
    g: Given<W::Value>,
    n: nat,
    r: int,
    p: int,
    x: W::Value,
    y: W::Value,
)
    requires
        is_proper(w, g, n),
        0 <= r < g.shapes.len(),
        0 <= p < g.shapes[r].children.len(),
        w.is_score(x),
        w.is_score(y),
        x.at_most(&y),
    ensures
        w.is_score(around_child(w, g, r, p, x)),
        around_child(w, g, r, p, x).at_most(&x),
        around_child(w, g, r, p, x).at_most(&around_child(w, g, r, p, y)),
{
    let children = g.shapes[r].children;
    assert(language_analysis::shape_below(g.shapes[r], n));
    lemma_sibling_product(w, children, g.inner, p);
    let rest = sibling_product(w, children, g.inner, p);
    let score = g.scores[r];
    scorer::lemma_at_most_itself(rest);
    scorer::lemma_at_most_itself(score);
    w.scores_are_closed(x, score);
    w.scores_are_closed(y, score);
    w.scores_are_closed(w.product(x, score), rest);
    w.product_shrinks(x, score);
    w.product_shrinks(w.product(x, score), rest);
    <W::Value as Score>::at_most_transitive(
        &around_child(w, g, r, p, x),
        &w.product(x, score),
        &x,
    );
    w.product_is_monotone(x, score, y, score);
    w.product_is_monotone(w.product(x, score), rest, w.product(y, score), rest);
}

/// What holds of the values while states are closed one after the other, the best first.
pub open spec fn is_settling<W: WeightScorer>(
    w: &W,
    g: Given<W::Value>,
    v: Seq<W::Value>,
    done: Set<usize>,
) -> bool {
    &&& scorer::all_scores(w, v)
    &&& is_below_closed(w, g, v)
    &&& all_attained(w, g, v)
    &&& forall|q: StateId| #[trigger]
        g.accepting.contains(q) ==> w.one_value().at_most(&v[q.0 as int])
    &&& forall|s: usize, q: usize|
        #![trigger v[q as int], v[s as int]]
        done.contains(s) && q < v.len() && !done.contains(q) ==> v[q as int].at_most(
            &v[s as int],
        )
}

/// Products of inside scores are no better than any of them.
proof fn lemma_siblings_shrink<W: WeightScorer>(
    w: &W,
    children: Seq<StateId>,
    inner: Seq<W::Value>,
    p: int,
    i: int,
)
    requires
        0 <= p < children.len(),
        0 <= i < children.len(),
        i != p,
        scorer::all_scores(w, inner),
        forall|i: int| 0 <= i < children.len() ==> (#[trigger] children[i]).0 < inner.len(),
    ensures
        sibling_product(w, children, inner, p).at_most(&inner[children[i].0 as int]),
{
    w.scores_are_closed(w.one_value(), w.one_value());
    let a = inside::folded(w, w.one_value(), children.take(p), inner);
    let b = suffix_product(w, children, inner, p + 1);
    inside::lemma_folded_shrinks(w, w.one_value(), children.take(p), inner, children[i]);
    lemma_suffix(w, children, inner, p + 1);
    w.product_shrinks(a, b);
    let all = sibling_product(w, children, inner, p);
    let x = inner[children[i].0 as int];
    if i < p {
        assert(children.take(p)[i] == children[i]);
        <W::Value as Score>::at_most_transitive(&all, &a, &x);
    } else {
        lemma_suffix_shrinks(w, children, inner, p + 1, i);
        <W::Value as Score>::at_most_transitive(&all, &b, &x);
    }
}

proof fn lemma_suffix_shrinks<W: WeightScorer>(
    w: &W,
    children: Seq<StateId>,
    inner: Seq<W::Value>,
    k: int,
    i: int,
)
    requires
        0 <= k <= i < children.len(),
        scorer::all_scores(w, inner),
        forall|i: int| 0 <= i < children.len() ==> (#[trigger] children[i]).0 < inner.len(),
    ensures
        suffix_product(w, children, inner, k).at_most(&inner[children[i].0 as int]),
    decreases i - k,
{
    lemma_suffix(w, children, inner, k + 1);
    let rest = suffix_product(w, children, inner, k + 1);
    w.product_shrinks(rest, inner[children[k].0 as int]);
    if k < i {
        lemma_suffix_shrinks(w, children, inner, k + 1, i);
        <W::Value as Score>::at_most_transitive(
            &suffix_product(w, children, inner, k),
            &rest,
            &inner[children[i].0 as int],
        );
    }
}

/// A product of derivation scores from the right is that of the values that they attain.
proof fn lemma_run_back_attained<W: WeightScorer>(
    w: &W,
    list: Seq<W::Value>,
    states: Seq<StateId>,
    v: Seq<W::Value>,
    i: int,
)
    requires
        0 <= i,
        list.len() == states.len(),
        forall|k: int| i <= k < list.len() ==> #[trigger] list[k] == v[states[k].0 as int],
    ensures
        derivations::run_back(w, list, i) == suffix_product(w, states, v, i),
    decreases list.len() - i,
{
    if i < list.len() {
        lemma_run_back_attained(w, list, states, v, i + 1);
        assert(list[i] == v[states[i].0 as int]);
    }
}

/// What stands around a child is attained, if what stands around the result is.
proof fn lemma_around_attained<W: WeightScorer>(
    w: &W,
    g: Given<W::Value>,
    v: Seq<W::Value>,
    r: int,
    p: int,
)
    requires
        is_proper(w, g, v.len()),
        0 <= r < g.shapes.len(),
        0 <= p < g.shapes[r].children.len(),
        scorer::all_scores(w, v),
        all_attained(w, g, v),
    ensures
        is_attained(
            w,
            g,
            g.shapes[r].children[p],
            around_child(w, g, r, p, v[g.shapes[r].result.0 as int]),
        ),
{
    let children = g.shapes[r].children;
    let top = g.shapes[r].result;
    let x = v[top.0 as int];
    let zero = w.zero_value();
    assert(language_analysis::shape_below(g.shapes[r], v.len()));
    let value = around_child(w, g, r, p, x);
    if !value.at_most(&zero) {
        scorer::lemma_at_most_itself(x);
        lemma_around_child(w, g, v.len(), r, p, x, x);
        if x.at_most(&zero) {
            <W::Value as Score>::at_most_transitive(&value, &x, &zero);
        }
        assert(is_attained(w, g, top, x));
        let above = choose|steps: Seq<Descent>| #[trigger]
            derivations::is_context(g.shapes, g.accepting, steps, top)
                && derivations::context_score(w, g.scores, steps) == x;
        let rest = sibling_product(w, children, g.inner, p);
        lemma_sibling_product(w, children, g.inner, p);
        w.scores_are_closed(x, g.scores[r]);
        w.product_shrinks(w.product(x, g.scores[r]), rest);
        let parts = Seq::new(
            children.len(),
            |i: int|
                inside::attaining(
                    w,
                    g.shapes,
                    g.scores,
                    children[i],
                    g.inner[children[i].0 as int],
                ),
        );
        assert forall|i: int|
            0 <= i < children.len() && i != p implies derivations::is_derivation(
            g.shapes,
            #[trigger] parts[i],
            children[i],
        ) && derivations::derivation_score(w, g.scores, parts[i])
            == g.inner[children[i].0 as int] by {
            let y = g.inner[children[i].0 as int];
            lemma_siblings_shrink(w, children, g.inner, p, i);
            if y.at_most(&zero) {
                <W::Value as Score>::at_most_transitive(&rest, &y, &zero);
                <W::Value as Score>::at_most_transitive(&value, &rest, &zero);
            }
            assert(inside::is_attained(w, g.shapes, g.scores, children[i], y));
        }
        let step = Descent { rule: r, position: p, parts };
        let steps = above.push(step);
        assert(steps.drop_last() =~= above);
        assert(steps.last() == step);
        assert(derivations::is_context(g.shapes, g.accepting, steps, children[p]));
        let list = derivations::part_scores(w, g.scores, parts);
        assert forall|i: int| 0 <= i < list.len() && i != p implies #[trigger] list[i]
            == g.inner[children[i].0 as int] by {
            assert(derivations::derivation_score(w, g.scores, parts[i])
                == g.inner[children[i].0 as int]);
        }
        assert forall|i: int| 0 <= i < list.take(p).len() implies #[trigger] list.take(p)[i]
            == g.inner[children.take(p)[i].0 as int] by {
            assert(list[i] == g.inner[children[i].0 as int]);
        }
        inside::lemma_run_attained(w, w.one_value(), list.take(p), children.take(p), g.inner);
        lemma_run_back_attained(w, list, children, g.inner, p + 1);
    }
}

/// Raising the value of an open child to what stands around it keeps everything.
proof fn lemma_raise<W: WeightScorer>(
    w: &W,
    g: Given<W::Value>,
    v: Seq<W::Value>,
    done: Set<usize>,
    r: int,
    p: int,
)
    requires
        is_proper(w, g, v.len()),
        0 <= r < g.shapes.len(),
        0 <= p < g.shapes[r].children.len(),
        is_settling(w, g, v, done),
        done.contains(g.shapes[r].result.0 as usize),
        !done.contains(g.shapes[r].children[p].0 as usize),
        forall|f: usize| #[trigger]
            done.contains(f) ==> f < v.len() && v[g.shapes[r].result.0 as int].at_most(
                &v[f as int],
            ),
        !is_satisfied(w, g, v, r, p),
    ensures
        ({
            let value = around_child(w, g, r, p, v[g.shapes[r].result.0 as int]);
            let now = v.update(g.shapes[r].children[p].0 as int, value);
            &&& is_settling(w, g, now, done)
            &&& is_satisfied(w, g, now, r, p)
            &&& forall|k: int, j: int|
                0 <= k < g.shapes.len() && 0 <= j < g.shapes[k].children.len() && done.contains(
                    g.shapes[k].result.0 as usize,
                ) && is_satisfied(w, g, v, k, j) ==> #[trigger] is_satisfied(w, g, now, k, j)
        }),
{
    let c = g.shapes[r].children[p].0 as int;
    let s = g.shapes[r].result.0 as int;
    assert(language_analysis::shape_below(g.shapes[r], v.len()));
    let value = around_child(w, g, r, p, v[s]);
    let now = v.update(c, value);
    scorer::lemma_at_most_itself(v[s]);
    scorer::lemma_at_most_itself(value);
    lemma_around_child(w, g, v.len(), r, p, v[s], v[s]);
    <W::Value as Score>::at_most_total(&value, &v[c]);
    assert(scorer::all_scores(w, now));
    assert(all_attained(w, g, now)) by {
        lemma_around_attained(w, g, v, r, p);
        assert forall|x: StateId| x.0 < now.len() implies #[trigger] is_attained(
            w,
            g,
            x,
            now[x.0 as int],
        ) by {
            assert(is_attained(w, g, x, v[x.0 as int]));
        }
    }
    assert forall|q: StateId| #[trigger] g.accepting.contains(q) implies w.one_value().at_most(
        &now[q.0 as int],
    ) by {
        if q.0 == c {
            <W::Value as Score>::at_most_transitive(&w.one_value(), &v[c], &value);
        }
    }
    assert(is_below_closed(w, g, now)) by {
        assert forall|u: Seq<W::Value>| #[trigger]
            is_bound(w, g, now.len(), u) implies scorer::all_at_most(w, now, u) by {
            assert(is_bound(w, g, v.len(), u));
            assert(scorer::all_at_most(w, v, u));
            assert(v[s].at_most(&u[s]));
            lemma_around_child(w, g, v.len(), r, p, v[s], u[s]);
            assert(is_satisfied(w, g, u, r, p));
            <W::Value as Score>::at_most_transitive(
                &value,
                &around_child(w, g, r, p, u[s]),
                &u[c],
            );
            assert forall|i: int| 0 <= i < now.len() implies (#[trigger] now[i]).at_most(&u[i]) by {
                assert(v[i].at_most(&u[i]));
            }
        }
    }
    assert forall|f: usize, q: usize|
        #![trigger now[q as int], now[f as int]]
        done.contains(f) && q < now.len() && !done.contains(q) implies now[q as int].at_most(
        &now[f as int],
    ) by {
        assert(now[f as int] == v[f as int]);
        if q == c {
            <W::Value as Score>::at_most_transitive(&value, &v[s], &v[f as int]);
        } else {
            assert(v[q as int].at_most(&v[f as int]));
        }
    }
    assert forall|k: int, j: int|
        0 <= k < g.shapes.len() && 0 <= j < g.shapes[k].children.len() && done.contains(
            g.shapes[k].result.0 as usize,
        ) && is_satisfied(w, g, v, k, j) implies #[trigger] is_satisfied(w, g, now, k, j) by {
        let res = g.shapes[k].result.0 as int;
        assert(now[res] == v[res]);
        if g.shapes[k].children[j].0 == c {
            <W::Value as Score>::at_most_transitive(
                &around_child(w, g, k, j, v[res]),
                &v[c],
                &value,
            );
        }
    }
}

/// Closing the best open state keeps the order of values.
proof fn lemma_close<W: WeightScorer>(
    w: &W,
    g: Given<W::Value>,
    v: Seq<W::Value>,
    done: Set<usize>,
    s: usize,
)
    requires
        is_settling(w, g, v, done),
        s < v.len(),
        !done.contains(s),
        forall|q: usize|
            q < v.len() && !done.contains(q) ==> (#[trigger] v[q as int]).at_most(&v[s as int]),
    ensures
        is_settling(w, g, v, done.insert(s)),
        forall|f: usize| #[trigger]
            done.insert(s).contains(f) ==> v[s as int].at_most(&v[f as int]),
{
    scorer::lemma_at_most_itself(v[s as int]);
    assert forall|f: usize| #[trigger] done.insert(s).contains(f) implies v[s as int].at_most(
        &v[f as int],
    ) by {
        if f != s {
            assert(done.contains(f));
            assert(v[s as int].at_most(&v[f as int]));
        }
    }
    assert forall|f: usize, q: usize|
        #![trigger v[q as int], v[f as int]]
        done.insert(s).contains(f) && q < v.len() && !done.insert(s).contains(q) implies v[q as int].at_most(
        &v[f as int],
    ) by {
        if f != s {
            assert(done.contains(f));
        }
    }
}

/// For every child, the products of the inside scores of the children before it and of
/// those after it.
fn partial_products<W: WeightScorer>(w: &W, children: &[StateId], inner: &Vec<W::Value>) -> (r: (
    Vec<W::Value>,
    Vec<W::Value>,
))
    requires
        forall|p: int| 0 <= p < children@.len() ==> (#[trigger] children@[p]).0 < inner@.len(),
    ensures
        r.0@.len() == children@.len(),
        r.1@.len() == children@.len(),
        forall|p: int|
            0 <= p < children@.len() ==> #[trigger] r.0@[p] == inside::folded(
                w,
                w.one_value(),
                children@.take(p),
                inner@,
            ),
        forall|p: int|
            0 <= p < children@.len() ==> #[trigger] r.1@[p] == suffix_product(
                w,
                children@,
                inner@,
                p + 1,
            ),
{
    let count: usize = children.len();
    let one = w.one();
    let mut before: Vec<W::Value> = Vec::new();
    let mut after: Vec<W::Value> = Vec::new();
    let mut product = one;
    let mut i: usize = 0;
    assert(children@.take(0) =~= Seq::empty());
    while i < count
        invariant
            i <= count,
            count == children@.len(),
            forall|p: int| 0 <= p < children@.len() ==> (#[trigger] children@[p]).0 < inner@.len(),
            one == w.one_value(),
            product == inside::folded(w, w.one_value(), children@.take(i as int), inner@),
            before@.len() == i,
            after@.len() == i,
            forall|p: int|
                0 <= p < i ==> #[trigger] before@[p] == inside::folded(
                    w,
                    w.one_value(),
                    children@.take(p),
                    inner@,
                ),
        decreases count - i,
    {
        proof {
            assert(children@.take(i + 1).drop_last() =~= children@.take(i as int));
            assert(children@.take(i + 1).last() == children@[i as int]);
        }
        before.push(product);
        after.push(one);
        product = w.times(product, inner[children[i].index()]);
        i += 1;
    }
    product = one;
    let mut j: usize = count;
    while j > 0
        invariant
            j <= count,
            count == children@.len(),
            forall|p: int| 0 <= p < children@.len() ==> (#[trigger] children@[p]).0 < inner@.len(),
            product == suffix_product(w, children@, inner@, j as int),
            after@.len() == count,
            forall|p: int|
                j <= p < count ==> #[trigger] after@[p] == suffix_product(
                    w,
                    children@,
                    inner@,
                    p + 1,
                ),
        decreases j,
    {
        j -= 1;
        after.set(j, product);
        product = w.times(product, inner[children[j].index()]);
    }
    (before, after)
}

/// What outside scores depend on, of an automaton.
pub open spec fn given_of<W: WeightScorer>(
    w: &W,
    a: Automaton,
    inner: Seq<W::Value>,
) -> Given<W::Value> {
    Given {
        shapes: automaton::rule_shapes(a.rules),
        scores: inside::rule_scores(w, a.rules),
        inner,
        accepting: a.accepting,
    }
}

/// Whether the edges out of closed results are satisfied, but for those of the last rules.
spec fn done_satisfied<W: WeightScorer>(
    w: &W,
    g: Given<W::Value>,
    v: Seq<W::Value>,
    done: Set<usize>,
    waiting: Seq<usize>,
) -> bool {
    forall|k: int, j: int|
        0 <= k < g.shapes.len() && 0 <= j < g.shapes[k].children.len() && done.contains(
            g.shapes[k].result.0 as usize,
        ) && !waiting.contains(k as usize) ==> #[trigger] is_satisfied(w, g, v, k, j)
}

/// Raises the values of the open children of a rule to what stands around them, where that
/// is better.
fn spread<W: WeightScorer>(
    w: &W,
    rule: &Rule<'_>,
    score: W::Value,
    inner: &Vec<W::Value>,
    values: &mut Vec<W::Value>,
    closed: &Vec<bool>,
    Ghost(g): Ghost<Given<W::Value>>,
    Ghost(r): Ghost<int>,
    Ghost(done): Ghost<Set<usize>>,
)
    requires
        0 <= r < g.shapes.len(),
        g.shapes[r].children == rule.children@,
        g.shapes[r].result == rule.result,
        g.scores[r] == score,
        g.inner == inner@,
        language_analysis::shapes_below(g.shapes, old(values)@.len()),
        inner@.len() == old(values)@.len(),
        closed@.len() == old(values)@.len(),
        forall|s: usize|
            s < closed@.len() ==> (#[trigger] closed@[s as int] <==> done.contains(s)),
        done.contains(rule.result.0 as usize),
        forall|f: usize| #[trigger] done.contains(f) ==> f < old(values)@.len(),
    ensures
        final(values)@.len() == old(values)@.len(),
        is_proper(w, g, old(values)@.len()) && is_settling(w, g, old(values)@, done) && (
        forall|f: usize| #[trigger]
            done.contains(f) ==> old(values)@[rule.result.0 as int].at_most(
                &old(values)@[f as int],
            )) ==> {
            &&& is_settling(w, g, final(values)@, done)
            &&& forall|f: usize| #[trigger]
                done.contains(f) ==> final(values)@[f as int] == old(values)@[f as int]
            &&& forall|j: int|
                0 <= j < g.shapes[r].children.len() ==> #[trigger] is_satisfied(
                    w,
                    g,
                    final(values)@,
                    r,
                    j,
                )
            &&& forall|k: int, j: int|
                0 <= k < g.shapes.len() && 0 <= j < g.shapes[k].children.len() && done.contains(
                    g.shapes[k].result.0 as usize,
                ) && is_satisfied(w, g, old(values)@, k, j) ==> #[trigger] is_satisfied(
                    w,
                    g,
                    final(values)@,
                    k,
                    j,
                )
        },
{
    let ghost n = values@.len();
    let ghost start = values@;
    let s: usize = rule.result.index();
    let ghost sound = is_proper(w, g, n) && is_settling(w, g, start, done) && (forall|f: usize|
     #[trigger]
        done.contains(f) ==> start[s as int].at_most(&start[f as int]));
    proof {
        assert(language_analysis::shape_below(g.shapes[r], n));
        assert forall|p: int| 0 <= p < rule.children@.len() implies (
        #[trigger] rule.children@[p]).0 < n by {
            assert(g.shapes[r].children[p].0 < n);
        }
    }
    let (before, after) = partial_products(w, rule.children, inner);
    let top = values[s];
    let scored = w.times(top, score);
    let mut p: usize = 0;
    while p < rule.children.len()
        invariant
            p <= rule.children@.len(),
            n == values@.len(),
            n == start.len(),
            s == rule.result.0,
            0 <= r < g.shapes.len(),
            g.shapes[r].children == rule.children@,
            g.shapes[r].result == rule.result,
            g.scores[r] == score,
            g.inner == inner@,
            closed@.len() == n,
            forall|s: usize|
                s < closed@.len() ==> (#[trigger] closed@[s as int] <==> done.contains(s)),
            done.contains(rule.result.0 as usize),
            forall|f: usize| #[trigger] done.contains(f) ==> f < n,
            forall|p: int| 0 <= p < rule.children@.len() ==> (#[trigger] rule.children@[p]).0 < n,
            before@.len() == rule.children@.len(),
            after@.len() == rule.children@.len(),
            forall|p: int|
                0 <= p < rule.children@.len() ==> #[trigger] before@[p] == inside::folded(
                    w,
                    w.one_value(),
                    rule.children@.take(p),
                    inner@,
                ),
            forall|p: int|
                0 <= p < rule.children@.len() ==> #[trigger] after@[p] == suffix_product(
                    w,
                    rule.children@,
                    inner@,
                    p + 1,
                ),
            top == start[s as int],
            scored == w.product(top, score),
            sound == (is_proper(w, g, n) && is_settling(w, g, start, done) && (forall|f: usize|
             #[trigger]
                done.contains(f) ==> start[s as int].at_most(&start[f as int]))),
            sound ==> is_settling(w, g, values@, done),
            sound ==> forall|f: usize| #[trigger]
                done.contains(f) ==> values@[f as int] == start[f as int],
            sound ==> forall|j: int|
                0 <= j < p ==> #[trigger] is_satisfied(w, g, values@, r, j),
            sound ==> forall|k: int, j: int|
                0 <= k < g.shapes.len() && 0 <= j < g.shapes[k].children.len() && done.contains(
                    g.shapes[k].result.0 as usize,
                ) && is_satisfied(w, g, start, k, j) ==> #[trigger] is_satisfied(
                    w,
                    g,
                    values@,
                    k,
                    j,
                ),
        decreases rule.children@.len() - p,
    {
        let c: usize = rule.children[p].index();
        let ghost earlier = values@;
        if !closed[c] {
            let value = w.times(scored, w.times(before[p], after[p]));
            proof {
                if sound {
                    assert(done.contains(s));
                    assert(value == around_child(w, g, r, p as int, earlier[s as int]));
                }
            }
            if w.better(value, values[c]) {
                proof {
                    if sound {
                        lemma_raise(w, g, earlier, done, r, p as int);
                    }
                }
                values.set(c, value);
            }
        } else {
            proof {
                if sound {
                    assert(done.contains(s));
                    assert(done.contains(c));
                    scorer::lemma_at_most_itself(top);
                    assert(w.is_score(earlier[s as int]));
                    lemma_around_child(w, g, n, r, p as int, top, top);
                    <W::Value as Score>::at_most_transitive(
                        &around_child(w, g, r, p as int, top),
                        &top,
                        &earlier[c as int],
                    );
                }
            }
        }
        p += 1;
    }
}

/// The outside scores of the states of an automaton.
pub fn outside_scores<W: WeightScorer>(
    w: &W,
    grammar: &Explicit,
    scores: &Vec<W::Value>,
    inner: &Vec<W::Value>,
) -> (v: Vec<W::Value>)
    requires
        scores@ == inside::rule_scores(w, grammar@.rules),
        inner@.len() == grammar@.states,
    ensures
        v@.len() == grammar@.states,
        scorer::all_scores(w, scores@) && scorer::all_scores(w, inner@) && inside::all_attained(
            w,
            automaton::rule_shapes(grammar@.rules),
            scores@,
            inner@,
        ) ==> is_outside(
            w,
            given_of(w, grammar@, inner@),
            grammar@.states,
            v@,
        ),
{
    proof {
        use_type_invariant(grammar);
        grammar.lemma_well_formed();
    }
    let n: usize = grammar.num_states() as usize;
    let rules = grammar.rules();
    let inputs = grammar.rule_inputs();
    let ghost g = given_of(w, grammar@, inner@);
    let ghost sound = scorer::all_scores(w, scores@) && scorer::all_scores(w, inner@)
        && inside::all_attained(w, g.shapes, g.scores, inner@);
    let ghost shapes = g.shapes;
    proof {
        assert forall|i: int| 0 <= i < shapes.len() implies (#[trigger] shapes[i]).children
            == rules@[i].children@ && shapes[i].result == rules@[i].result by {
            assert(rules@[i]@ == grammar@.rules[i]);
        }
        assert(sound ==> is_proper(w, g, n as nat));
    }
    let index = result_index(n, &inputs);
    let accepting = grammar.accepting_states();
    let mut values: Vec<W::Value> = Vec::new();
    let mut closed: Vec<bool> = Vec::new();
    let zero = w.zero();
    let one = w.one();
    let mut i: usize = 0;
    while i < n
        invariant
            i <= n,
            zero == w.zero_value(),
            values@.len() == i,
            closed@.len() == i,
            forall|k: int| 0 <= k < i ==> #[trigger] values@[k] == zero,
            forall|k: int| 0 <= k < i ==> !#[trigger] closed@[k],
        decreases n - i,
    {
        values.push(zero);
        closed.push(false);
        i += 1;
    }
    let mut k: usize = 0;
    while k < accepting.len()
        invariant
            k <= accepting@.len(),
            zero == w.zero_value(),
            one == w.one_value(),
            values@.len() == n,
            forall|q: StateId| #[trigger]
                accepting@.contains(q) ==> q.0 < n,
            forall|j: int|
                0 <= j < values@.len() ==> #[trigger] values@[j] == zero || (values@[j] == one
                    && accepting@.contains(StateId(j as u32))),
            n <= u32::MAX,
            forall|j: int| 0 <= j < k ==> one.at_most(&values@[(#[trigger] accepting@[j]).0 as int]),
        decreases accepting@.len() - k,
    {
        let q: usize = accepting[k].index();
        proof {
            assert(accepting@.contains(accepting@[k as int]));
            scorer::lemma_at_most_itself(one);
        }
        let ghost earlier = values@;
        if w.better(one, values[q]) {
            values.set(q, one);
        }
        proof {
            assert forall|j: int| 0 <= j < k + 1 implies one.at_most(
                &values@[(#[trigger] accepting@[j]).0 as int],
            ) by {
                assert(accepting@.contains(accepting@[j]));
                if j < k {
                    assert(one.at_most(&earlier[accepting@[j].0 as int]));
                }
            }
            assert(StateId(q as u32) == accepting@[k as int]);
        }
        k += 1;
    }
    let ghost mut done: Set<usize> = Set::empty();
    proof {
        if sound {
            w.scores_are_closed(zero, one);
            assert(scorer::all_scores(w, values@));
            assert forall|q: StateId| #[trigger] g.accepting.contains(q) implies w.one_value().at_most(
                &values@[q.0 as int],
            ) by {
                assert(accepting@.contains(q));
                let j = choose|j: int| 0 <= j < accepting@.len() && accepting@[j] == q;
                assert(one.at_most(&values@[accepting@[j].0 as int]));
            }
            assert(is_below_closed(w, g, values@)) by {
                assert forall|u: Seq<W::Value>| #[trigger]
                    is_bound(w, g, values@.len(), u) implies scorer::all_at_most(
                    w,
                    values@,
                    u,
                ) by {
                    assert forall|j: int| 0 <= j < values@.len() implies (
                    #[trigger] values@[j]).at_most(&u[j]) by {
                        w.scores_are_bounded(u[j]);
                        if values@[j] != zero {
                            let q = StateId(j as u32);
                            assert(accepting@.contains(q));
                            assert(g.accepting.contains(q));
                            assert(one.at_most(&u[q.0 as int]));
                        }
                    }
                }
            }
            scorer::lemma_at_most_itself(zero);
            assert(all_attained(w, g, values@)) by {
                assert forall|q: StateId| q.0 < values@.len() implies #[trigger] is_attained(
                    w,
                    g,
                    q,
                    values@[q.0 as int],
                ) by {
                    if values@[q.0 as int] != zero {
                        assert(StateId(q.0 as int as u32) == q);
                        assert(accepting@.contains(q));
                        assert(g.accepting.contains(q));
                        let none = Seq::<Descent>::empty();
                        assert(derivations::is_context(g.shapes, g.accepting, none, q));
                    }
                }
            }
            assert(is_settling(w, g, values@, done));
        }
    }
    let mut next = best_open(w, &values, &closed);
    while next.is_some()
        invariant
            n <= u32::MAX,
            sound == (scorer::all_scores(w, scores@) && scorer::all_scores(w, inner@)
                && inside::all_attained(w, g.shapes, g.scores, inner@)),
            sound ==> is_proper(w, g, n as nat),
            g.shapes == shapes,
            g.scores == scores@,
            g.inner == inner@,
            inner@.len() == n,
            values@.len() == n,
            closed@.len() == n,
            rules@.len() == shapes.len(),
            rules@.len() == scores@.len(),
            language_analysis::shapes_below(shapes, n as nat),
            forall|i: int|
                0 <= i < shapes.len() ==> (#[trigger] shapes[i]).children == rules@[i].children@
                    && shapes[i].result == rules@[i].result,
            index@.len() == n,
            forall|s: int|
                0 <= s < n ==> (#[trigger] index@[s])@ == language_analysis::rules_with_result(
                    shapes,
                    StateId(s as u32),
                ),
            forall|s: usize| s < n ==> (#[trigger] closed@[s as int] <==> done.contains(s)),
            forall|s: usize| #[trigger] done.contains(s) ==> s < n,
            sound ==> is_settling(w, g, values@, done),
            sound ==> done_satisfied(w, g, values@, done, Seq::empty()),
            match next {
                Some(s) => {
                    &&& s < n
                    &&& !closed@[s as int]
                    &&& forall|q: int|
                        0 <= q < n && !closed@[q] ==> (#[trigger] values@[q]).at_most(
                            &values@[s as int],
                        )
                },
                None => forall|q: int|
                    0 <= q < n && !closed@[q] ==> (#[trigger] values@[q]).at_most(&w.zero_value()),
            },
        decreases worklist::unmarked(closed@),
    {
        let s: usize = next.unwrap();
        let ghost before = done;
        let rule_count: usize = rules.len();
        proof {
            worklist::lemma_unmarked_update(closed@, s as int);
            assert(!done.contains(s));
            done = done.insert(s);
            if sound {
                assert forall|q: usize| q < n && !before.contains(q) implies (
                #[trigger] values@[q as int]).at_most(&values@[s as int]) by {
                    assert(!closed@[q as int]);
                }
                lemma_close(w, g, values@, before, s);
            }
            assert forall|d: usize| #[trigger] index@[s as int]@.contains(d) <==> (d < shapes.len()
                && shapes[d as int].result == StateId(s as u32)) by {
                language_analysis::lemma_rules_with_result(shapes, StateId(s as u32), d);
            }
            if sound {
                assert(done_satisfied(w, g, values@, done, index@[s as int]@)) by {
                    assert forall|k: int, j: int|
                        0 <= k < g.shapes.len() && 0 <= j < g.shapes[k].children.len()
                            && done.contains(g.shapes[k].result.0 as usize)
                            && !index@[s as int]@.contains(k as usize) implies #[trigger] is_satisfied(
                        w,
                        g,
                        values@,
                        k,
                        j,
                    ) by {
                        assert(k as usize == k);
                        if g.shapes[k].result.0 == s {
                            assert(shapes[k as usize as int].result == StateId(s as u32));
                            assert(index@[s as int]@.contains(k as usize));
                        }
                        assert(before.contains(g.shapes[k].result.0 as usize));
                        assert(!Seq::<usize>::empty().contains(k as usize));
                    }
                }
            }
        }
        closed.set(s, true);
        let ghost top = values@[s as int];
        let listed = &index[s];
        let mut j: usize = 0;
        assert(listed@.skip(0) =~= listed@);
        while j < listed.len()
            invariant
                j <= listed@.len(),
                s < n,
                n <= u32::MAX,
                rule_count == rules@.len(),
                sound == (scorer::all_scores(w, scores@) && scorer::all_scores(w, inner@)
                && inside::all_attained(w, g.shapes, g.scores, inner@)),
                sound ==> is_proper(w, g, n as nat),
                g.shapes == shapes,
                g.scores == scores@,
                g.inner == inner@,
                inner@.len() == n,
                values@.len() == n,
                closed@.len() == n,
                rules@.len() == shapes.len(),
                rules@.len() == scores@.len(),
                language_analysis::shapes_below(shapes, n as nat),
                forall|i: int|
                    0 <= i < shapes.len() ==> (#[trigger] shapes[i]).children == rules@[i].children@
                        && shapes[i].result == rules@[i].result,
                forall|d: usize| #[trigger]
                    listed@.contains(d) <==> (d < shapes.len() && shapes[d as int].result
                        == StateId(s as u32)),
                forall|s: usize| s < n ==> (#[trigger] closed@[s as int] <==> done.contains(s)),
                forall|s: usize| #[trigger] done.contains(s) ==> s < n,
                done.contains(s),
                sound ==> values@[s as int] == top,
                sound ==> forall|f: usize| #[trigger]
                    done.contains(f) ==> top.at_most(&values@[f as int]),
                sound ==> is_settling(w, g, values@, done),
                sound ==> done_satisfied(w, g, values@, done, listed@.skip(j as int)),
            decreases listed@.len() - j,
        {
            let d: usize = listed[j];
            let ghost earlier = values@;
            proof {
                assert(listed@.contains(listed@[j as int]));
                assert(shapes[d as int].result == StateId(s as u32));
                assert(rules@[d as int].result == shapes[d as int].result);
            }
            spread(
                w,
                &rules[d],
                scores[d],
                inner,
                &mut values,
                &closed,
                Ghost(g),
                Ghost(d as int),
                Ghost(done),
            );
            proof {
                if sound {
                    assert forall|k: int, i: int|
                        0 <= k < g.shapes.len() && 0 <= i < g.shapes[k].children.len()
                            && done.contains(g.shapes[k].result.0 as usize) && !listed@.skip(
                            j + 1,
                        ).contains(k as usize) implies #[trigger] is_satisfied(
                        w,
                        g,
                        values@,
                        k,
                        i,
                    ) by {
                        assert(k as usize == k);
                        if k != d {
                            if listed@.skip(j as int).contains(k as usize) {
                                let x = choose|x: int|
                                    0 <= x < listed@.skip(j as int).len() && listed@.skip(
                                        j as int,
                                    )[x] == k as usize;
                                assert(listed@[j + x] == k as usize);
                                assert(x > 0);
                                assert(listed@.skip(j + 1)[x - 1] == k as usize);
                            }
                            assert(is_satisfied(w, g, earlier, k, i));
                        }
                    }
                }
            }
            j += 1;
        }
        proof {
            assert(listed@.skip(j as int) =~= Seq::empty());
        }
        next = best_open(w, &values, &closed);
    }
    proof {
        if sound {
            assert forall|r: int, p: int|
                0 <= r < g.shapes.len() && 0 <= p < g.shapes[r].children.len() implies #[trigger] is_satisfied(
                w,
                g,
                values@,
                r,
                p,
            ) by {
                let q = g.shapes[r].result.0 as usize;
                assert(language_analysis::shape_below(g.shapes[r], n as nat));
                if done.contains(q) {
                    assert(!Seq::<usize>::empty().contains(r as usize));
                } else {
                    assert(!closed@[q as int]);
                    let x = values@[q as int];
                    let c = values@[g.shapes[r].children[p].0 as int];
                    scorer::lemma_at_most_itself(x);
                    lemma_around_child(w, g, n as nat, r, p, x, x);
                    let value = around_child(w, g, r, p, x);
                    <W::Value as Score>::at_most_transitive(&value, &x, &w.zero_value());
                    w.scores_are_bounded(c);
                    <W::Value as Score>::at_most_transitive(&value, &w.zero_value(), &c);
                }
            }
        }
    }
    values
}

/// Bounds the outside score of a product state by the outside score of its left state in
/// the grammar alone.
#[derive(Debug)]
pub struct OutsideHeuristic<S> {
    pub out: Vec<S>,
    pub zero: S,
}

impl<S: Score + Copy> OutsideHeuristic<S> {
    /// Computes the outside scores of the states of `grammar`. Where all rules have scores,
    /// the inside scores that they rest on are those of best derivations, and the outside
    /// scores those of the best that stands around each state.
    pub fn from_grammar_with<W: WeightScorer<Value = S>>(grammar: &Explicit, w: &W) -> (h: Self)
        ensures
            h.zero == w.zero_value(),
            h.out@.len() == grammar@.states,
            scorer::all_scores(w, inside::rule_scores(w, grammar@.rules)) ==> exists|
                inner: Seq<S>,
            |
                inside::is_inside(
                    w,
                    automaton::rule_shapes(grammar@.rules),
                    inside::rule_scores(w, grammar@.rules),
                    grammar@.states,
                    inner,
                ) && #[trigger] is_outside(
                    w,
                    given_of(w, grammar@, inner),
                    grammar@.states,
                    h.out@,
                ),
    {
        let scores = score_rules(w, grammar);
        let inner = inside_scores(w, grammar, &scores);
        let out = outside_scores(w, grammar, &scores, &inner);
        proof {
            if scorer::all_scores(w, scores@) {
                assert(is_outside(w, given_of(w, grammar@, inner@), grammar@.states, out@));
            }
        }
        OutsideHeuristic { out, zero: w.zero() }
    }
}

impl<R, S: Score + Copy> IntersectionHeuristic<R, S> for OutsideHeuristic<S> {
    open spec fn bound(&self, left: StateId, right: &R) -> S {
        if left.0 < self.out@.len() {
            self.out@[left.0 as int]
        } else {
            self.zero
        }
    }

    open spec fn possible(&self, left: StateId, right: &R) -> bool {
        true
    }

    fn outside_estimate(&self, left: StateId, right: &R) -> (s: S) {
        if left.index() < self.out.len() {
            self.out[left.index()]
        } else {
            self.zero
        }
    }

    fn admits(&self, left: StateId, right: &R) -> (b: bool) {
        true
    }
}

} // verus!
