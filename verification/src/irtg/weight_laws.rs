//! Parsing keeps weights: a derivation in a chart weighs what it weighs in the grammar.
use super::explore;
use super::grammar;
use super::parse;
use super::parse::{MaterializationStrategy, ParseInput};
use crate::automaton;
use crate::automaton::Automaton;
use crate::builder;
use crate::combinators::invhom::InvHom;
use crate::combinators::product;
use crate::explicit::Explicit;
use crate::ids::{StateId, Symbol};
use crate::pair_chart;
use crate::runs;
use crate::runs::Run;
use crate::terms::Term;
use crate::traits::BottomUpTa;
use crate::trim_laws;
use vstd::prelude::*;

verus! {

/// Whether a derivation of one automaton has the symbols and weights of a derivation of
/// another.
pub open spec fn weighs_as(
    a: Automaton,
    origin: Run,
    p: StateId,
    b: Automaton,
    run: Run,
) -> bool {
    runs::is_run(automaton::rule_shapes(a.rules), origin, p) && trim_laws::weighted(
        a.rules,
        origin,
    ) == trim_laws::weighted(b.rules, run)
}

/// Whether some derivation of one automaton has the symbols and weights of a derivation of
/// another.
pub open spec fn has_origin(a: Automaton, p: StateId, b: Automaton, run: Run) -> bool {
    exists|origin: Run| #[trigger] weighs_as(a, origin, p, b, run)
}

/// A derivation in a chart of pairs is one in the chart, with its symbols and weights.
proof fn lemma_origin<A: BottomUpTa>(
    chart: &Explicit,
    right: &A,
    both: bool,
    pairs: Seq<(StateId, A::State)>,
    result: Automaton,
    run: Run,
    q: StateId,
) -> (origin: Run)
    requires
        pair_chart::is_pair_chart(chart, right, both, pairs, result),
        runs::is_run(automaton::rule_shapes(result.rules), run, q),
    ensures
        q.0 < pairs.len(),
        weighs_as(chart@, origin, pairs[q.0 as int].0, result, run),
    decreases run,
{
    let shapes = automaton::rule_shapes(result.rules);
    let rule = result.rules[run.rule as int];
    assert(shapes[run.rule as int] == automaton::shape_of(rule));
    assert(pair_chart::sound_rule(chart, right, pairs, rule));
    let i = choose|i: int| #[trigger] pair_chart::drawn_from(chart@.rules, pairs, rule, i);
    let old = chart@.rules[i];
    let old_shapes = automaton::rule_shapes(chart@.rules);
    assert(old_shapes[i] == automaton::shape_of(old));
    assert forall|p: int| 0 <= p < run.children.len() implies has_origin(
        chart@,
        old.children[p],
        result,
        #[trigger] run.children[p],
    ) by {
        let child = rule.children[p];
        assert(runs::is_run(shapes, run.children[p], child));
        let r = lemma_origin(chart, right, both, pairs, result, run.children[p], child);
        assert(product::firsts(pair_chart::pick(pairs, rule.children))[p]
            == pairs[child.0 as int].0);
    }
    let children = Seq::new(
        run.children.len(),
        |p: int|
            choose|r: Run| #[trigger]
                weighs_as(chart@, r, old.children[p], result, run.children[p]),
    );
    let origin = Run { rule: i as nat, children };
    assert(old.children.len() == rule.children.len());
    assert forall|p: int| 0 <= p < children.len() implies weighs_as(
        chart@,
        #[trigger] children[p],
        old.children[p],
        result,
        run.children[p],
    ) by {
        assert(has_origin(chart@, old.children[p], result, run.children[p]));
    }
    assert forall|p: int| 0 <= p < origin.children.len() implies runs::is_run(
        old_shapes,
        #[trigger] origin.children[p],
        old_shapes[i].children[p],
    ) by {
        assert(weighs_as(chart@, children[p], old.children[p], result, run.children[p]));
    }
    assert forall|p: int| 0 <= p < children.len() implies trim_laws::weighted(
        chart@.rules,
        origin,
    ).children[p] == trim_laws::weighted(result.rules, run).children[p] by {
        assert(weighs_as(chart@, children[p], old.children[p], result, run.children[p]));
    }
    assert(trim_laws::weighted(chart@.rules, origin).children =~= trim_laws::weighted(
        result.rules,
        run,
    ).children);
    origin
}

/// Every accepting derivation of an intersection is one of the chart, and weighs what it
/// weighs there.
pub proof fn law_intersection_keeps_weights<A: BottomUpTa>(
    chart: &Explicit,
    right: &A,
    both: bool,
    pairs: Seq<(StateId, A::State)>,
    result: Automaton,
    run: Run,
    q: StateId,
) -> (origin: (Run, StateId))
    requires
        pair_chart::is_pair_chart(chart, right, both, pairs, result),
        trim_laws::is_accepting_run(result, run, q),
    ensures
        trim_laws::is_accepting_run(chart@, origin.0, origin.1),
        trim_laws::weighted(chart@.rules, origin.0) == trim_laws::weighted(result.rules, run),
{
    let r = lemma_origin(chart, right, both, pairs, result, run, q);
    assert(result.accepting.contains(q));
    (r, pairs[q.0 as int].0)
}

/// Every accepting derivation of a restricted chart is one of the chart, and weighs what it
/// weighs there.
pub proof fn law_restriction_keeps_weights<D: BottomUpTa>(
    a: Explicit,
    images: Seq<(Symbol, usize, Term)>,
    value: D,
    strategy: MaterializationStrategy,
    b: Explicit,
    run: Run,
    q: StateId,
) -> (origin: (Run, StateId))
    requires
        parse::restricts(a, images, value, strategy, b),
        trim_laws::is_accepting_run(b@, run, q),
    ensures
        trim_laws::is_accepting_run(a@, origin.0, origin.1),
        trim_laws::weighted(a@.rules, origin.0) == trim_laws::weighted(b@.rules, run),
{
    let (x, pairs, full, kept) = choose|
        x: InvHom<'static, 'static, D>,
        pairs: Seq<(StateId, D::State)>,
        full: Explicit,
        kept: Seq<StateId>,
    |
        x.wrapped() == value && grammar::registered(images, x.model())
            && x.model().well_formed() && #[trigger] parse::is_product(
            a,
            &x,
            strategy,
            b,
            pairs,
            full,
            kept,
        );
    assert(explore::explored(strategy, full@, kept, b@));
    if strategy == MaterializationStrategy::TopDownCondensed {
        trim_laws::law_trimming_adds_no_derivation(full@, false, kept, run, q);
        let marked = builder::kept_rules(full@, false);
        law_intersection_keeps_weights(
            &a,
            &x,
            true,
            pairs,
            full@,
            trim_laws::moved_back(marked, run),
            kept[q.0 as int],
        )
    } else {
        law_intersection_keeps_weights(&a, &x, true, pairs, full@, run, q)
    }
}

/// Every accepting derivation of a chart that parsing makes is one of the grammar, with the
/// weights of the rules of the grammar.
pub proof fn law_parsing_keeps_weights<'i, D: BottomUpTa>(
    grammar: Automaton,
    charts: Seq<Explicit>,
    inputs: Seq<ParseInput<'i, D>>,
    strategy: MaterializationStrategy,
    run: Run,
    q: StateId,
) -> (origin: (Run, StateId))
    requires
        parse::is_run(grammar, charts, inputs, strategy),
        trim_laws::is_accepting_run(charts.last()@, run, q),
    ensures
        trim_laws::is_accepting_run(grammar, origin.0, origin.1),
        trim_laws::weighted(grammar.rules, origin.0) == trim_laws::weighted(
            charts.last()@.rules,
            run,
        ),
    decreases charts.len(),
{
    if charts.len() == 1 {
        (run, q)
    } else {
        let n = charts.len() as int;
        assert(parse::run_step(charts, inputs, strategy, n - 2));
        let (r, p) = law_restriction_keeps_weights(
            charts[n - 2],
            inputs[n - 2].interpretation@.images,
            inputs[n - 2].value->0,
            strategy,
            charts[n - 1],
            run,
            q,
        );
        let front = charts.drop_last();
        assert forall|i: int| 0 <= i < front.len() - 1 implies #[trigger] parse::run_step(
            front,
            inputs,
            strategy,
            i,
        ) by {
            assert(parse::run_step(charts, inputs, strategy, i));
        }
        assert(front.last() == charts[n - 2]);
        law_parsing_keeps_weights(grammar, front, inputs, strategy, r, p)
    }
}

} // verus!
