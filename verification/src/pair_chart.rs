//! Charts whose states are pairs: one state of an explicit automaton and one of
//! another automaton that some tree reaches in both.
use crate::apply::SymbolTree;
use crate::automaton;
use crate::automaton::{Automaton, RuleModel};
use crate::combinators::product;
use crate::explicit::Explicit;
use crate::ids::{StateId, Symbol};
use crate::language_analysis;
use crate::recognition;
use crate::traits::BottomUpTa;
use vstd::prelude::*;

verus! {

/// The values that identifiers stand for.
pub open spec fn pick<T>(list: Seq<T>, ids: Seq<StateId>) -> Seq<T> {
    Seq::new(ids.len(), |i: int| list[ids[i].0 as int])
}

/// Whether every identifier is below `n`.
pub open spec fn below(ids: Seq<StateId>, n: nat) -> bool {
    forall|i: int| 0 <= i < ids.len() ==> (#[trigger] ids[i]).0 < n
}

/// Whether a node labelled `f` over pairs of states may get the pair `q`.
pub open spec fn joins<A: BottomUpTa>(
    chart: &Explicit,
    right: &A,
    f: Symbol,
    children: Seq<(StateId, A::State)>,
    q: (StateId, A::State),
) -> bool {
    chart.steps_to(f, product::firsts(children), q.0) && right.steps_to(
        f,
        product::seconds(children),
        q.1,
    )
}

/// Whether some tree may get both states of a pair.
pub open spec fn common<A: BottomUpTa>(
    chart: &Explicit,
    right: &A,
    p: (StateId, A::State),
) -> bool {
    exists|t: SymbolTree| #[trigger]
        recognition::reaches(chart, t, p.0) && recognition::reaches(right, t, p.1)
}

/// Whether some tree may get both states of each pair.
pub open spec fn all_common<A: BottomUpTa>(
    chart: &Explicit,
    right: &A,
    list: Seq<(StateId, A::State)>,
) -> bool {
    forall|i: int| 0 <= i < list.len() ==> common(chart, right, #[trigger] list[i])
}

/// A transition between pairs of states.
pub struct Firing<S> {
    pub symbol: Symbol,
    pub children: Seq<(StateId, S)>,
    pub result: (StateId, S),
}

/// Whether the list holds every transition between pairs that trees reach.
pub open spec fn covers<A: BottomUpTa>(
    chart: &Explicit,
    right: &A,
    list: Seq<Firing<A::State>>,
) -> bool {
    forall|f: Symbol, children: Seq<(StateId, A::State)>, q: (StateId, A::State)| #[trigger]
        joins(chart, right, f, children, q) && all_common(chart, right, children)
            ==> list.contains(Firing { symbol: f, children, result: q })
}

/// Whether there are few enough transitions between pairs that trees reach for
/// states and rules to be numbered.
pub open spec fn bounded<A: BottomUpTa>(chart: &Explicit, right: &A) -> bool {
    exists|list: Seq<Firing<A::State>>| #[trigger]
        covers(chart, right, list) && list.len() < u32::MAX
}

/// Whether a rule between numbered pairs comes from a rule of the chart.
pub open spec fn drawn_from<S>(
    rules: Seq<RuleModel>,
    pairs: Seq<(StateId, S)>,
    rule: RuleModel,
    i: int,
) -> bool {
    &&& 0 <= i < rules.len()
    &&& rules[i].symbol == rule.symbol
    &&& rules[i].children == product::firsts(pick(pairs, rule.children))
    &&& rules[i].result == pairs[rule.result.0 as int].0
    &&& rules[i].weight == rule.weight
}

/// Whether a rule between numbered pairs is a transition of both automata, with the
/// weight that it has in the chart.
pub open spec fn sound_rule<A: BottomUpTa>(
    chart: &Explicit,
    right: &A,
    pairs: Seq<(StateId, A::State)>,
    rule: RuleModel,
) -> bool {
    &&& rule.result.0 < pairs.len()
    &&& below(rule.children, pairs.len())
    &&& exists|i: int| #[trigger] drawn_from(chart@.rules, pairs, rule, i)
    &&& right.steps_to(
        rule.symbol,
        product::seconds(pick(pairs, rule.children)),
        pairs[rule.result.0 as int].1,
    )
}

/// Whether every rule between numbered pairs is one of both automata.
pub open spec fn sound_rules<A: BottomUpTa>(
    chart: &Explicit,
    right: &A,
    pairs: Seq<(StateId, A::State)>,
    rules: Seq<RuleModel>,
) -> bool {
    forall|k: int| 0 <= k < rules.len() ==> sound_rule(chart, right, pairs, #[trigger] rules[k])
}

/// Whether the transition to the pair `q` is among the rules between numbered pairs.
pub open spec fn emitted<S>(
    pairs: Seq<(StateId, S)>,
    rules: Seq<RuleModel>,
    f: Symbol,
    ids: Seq<StateId>,
    q: (StateId, S),
) -> bool {
    exists|id: StateId|
        id.0 < pairs.len() && pairs[id.0 as int] == q && #[trigger] automaton::has_transition(
            rules,
            f,
            ids,
            id,
        )
}

/// Whether every transition that rule `i` of the chart allows between numbered
/// pairs is among the rules.
pub open spec fn applied<A: BottomUpTa>(
    chart: &Explicit,
    right: &A,
    pairs: Seq<(StateId, A::State)>,
    rules: Seq<RuleModel>,
    i: int,
) -> bool {
    let rule = chart@.rules[i];
    forall|ids: Seq<StateId>, v: A::State|
        below(ids, pairs.len()) && product::firsts(pick(pairs, ids)) == rule.children
            && #[trigger] right.steps_to(rule.symbol, product::seconds(pick(pairs, ids)), v)
            ==> emitted(pairs, rules, rule.symbol, ids, (rule.result, v))
}

/// Whether a pair accepts: its chart state does and, where both have to, its other
/// state does too.
pub open spec fn pair_accepts<A: BottomUpTa>(
    chart: &Explicit,
    right: &A,
    both: bool,
    p: (StateId, A::State),
) -> bool {
    chart@.accepting.contains(p.0) && (both ==> right.accepts(p.1))
}

/// Whether an automaton is the chart of all pairs that trees reach: its states stand
/// for the pairs, its rules are the transitions between them with the weights of
/// the chart, and it accepts the accepting pairs.
pub open spec fn is_pair_chart<A: BottomUpTa>(
    chart: &Explicit,
    right: &A,
    both: bool,
    pairs: Seq<(StateId, A::State)>,
    result: Automaton,
) -> bool {
    &&& result.states == pairs.len()
    &&& pairs.no_duplicates()
    &&& forall|p: (StateId, A::State)| #[trigger] pairs.contains(p) <==> common(chart, right, p)
    &&& sound_rules(chart, right, pairs, result.rules)
    &&& automaton::unique_transitions(result.rules)
    &&& forall|i: int|
        0 <= i < chart@.rules.len() ==> #[trigger] applied(chart, right, pairs, result.rules, i)
    &&& forall|id: StateId| #[trigger]
        result.accepting.contains(id) <==> (id.0 < pairs.len() && pair_accepts(
            chart,
            right,
            both,
            pairs[id.0 as int],
        ))
}

/// A rule of a well-formed automaton mentions only its states.
pub proof fn lemma_rule_states(a: Automaton, i: int)
    requires
        a.well_formed(),
        0 <= i < a.rules.len(),
    ensures
        a.rules[i].result.0 < a.states,
        below(a.rules[i].children, a.states),
{
    let shapes = automaton::rule_shapes(a.rules);
    assert(language_analysis::shape_below(shapes[i], a.states));
    assert(shapes[i] == automaton::shape_of(a.rules[i]));
    assert forall|p: int| 0 <= p < a.rules[i].children.len() implies (
    #[trigger] a.rules[i].children[p]).0 < a.states by {
        assert(shapes[i].children[p].0 < a.states);
    }
}

proof fn lemma_reaches_intro<A: BottomUpTa>(
    a: &A,
    t: SymbolTree,
    states: Seq<A::State>,
    q: A::State,
)
    requires
        recognition::children_reach(a, t, states),
        a.steps_to(t.symbol, states, q),
    ensures
        recognition::reaches(a, t, q),
{
}

/// A pair that pairs with common trees lead to has a common tree.
pub proof fn lemma_common_step<A: BottomUpTa>(
    chart: &Explicit,
    right: &A,
    f: Symbol,
    children: Seq<(StateId, A::State)>,
    q: (StateId, A::State),
)
    requires
        joins(chart, right, f, children, q),
        all_common(chart, right, children),
    ensures
        common(chart, right, q),
{
    let trees = Seq::new(
        children.len(),
        |i: int|
            choose|t: SymbolTree| #[trigger]
                recognition::reaches(chart, t, children[i].0) && recognition::reaches(
                    right,
                    t,
                    children[i].1,
                ),
    );
    let t = SymbolTree { symbol: f, children: trees };
    assert forall|i: int| 0 <= i < trees.len() implies recognition::reaches(
        chart,
        #[trigger] trees[i],
        product::firsts(children)[i],
    ) && recognition::reaches(right, trees[i], product::seconds(children)[i]) by {
        assert(common(chart, right, children[i]));
    }
    assert(recognition::children_reach(chart, t, product::firsts(children)));
    assert(recognition::children_reach(right, t, product::seconds(children)));
    lemma_reaches_intro(chart, t, product::firsts(children), q.0);
    lemma_reaches_intro(right, t, product::seconds(children), q.1);
}

/// A pair with a common tree is the result of a transition between such pairs.
proof fn lemma_common_result<A: BottomUpTa>(
    chart: &Explicit,
    right: &A,
    q: (StateId, A::State),
) -> (r: Firing<A::State>)
    requires
        common(chart, right, q),
    ensures
        r.result == q,
        joins(chart, right, r.symbol, r.children, q),
        all_common(chart, right, r.children),
{
    let t = choose|t: SymbolTree| #[trigger]
        recognition::reaches(chart, t, q.0) && recognition::reaches(right, t, q.1);
    let a = recognition::lemma_reaches(chart, t, q.0);
    let b = recognition::lemma_reaches(right, t, q.1);
    let children = product::zipped(a, b);
    product::lemma_zipped(a, b);
    assert forall|i: int| 0 <= i < children.len() implies common(
        chart,
        right,
        #[trigger] children[i],
    ) by {
        assert(recognition::reaches(chart, t.children[i], a[i]));
        assert(recognition::reaches(right, t.children[i], b[i]));
    }
    Firing { symbol: t.symbol, children, result: q }
}

/// There are no more distinct values than places in a list that holds them all.
pub proof fn lemma_distinct_within<T>(list: Seq<T>, all: Seq<T>)
    requires
        list.no_duplicates(),
        forall|i: int| 0 <= i < list.len() ==> all.contains(#[trigger] list[i]),
    ensures
        list.len() <= all.len(),
{
    list.unique_seq_to_set();
    all.lemma_cardinality_of_set();
    assert(list.to_set().subset_of(all.to_set())) by {
        assert forall|x: T| list.to_set().contains(x) implies all.to_set().contains(x) by {
            let i = choose|i: int| 0 <= i < list.len() && list[i] == x;
            assert(all.contains(list[i]));
        }
    }
    vstd::set_lib::lemma_len_subset(list.to_set(), all.to_set());
}

/// There are no more pairs with common trees than transitions between them.
pub proof fn lemma_pairs_bounded<A: BottomUpTa>(
    chart: &Explicit,
    right: &A,
    list: Seq<Firing<A::State>>,
    pairs: Seq<(StateId, A::State)>,
)
    requires
        covers(chart, right, list),
        pairs.no_duplicates(),
        all_common(chart, right, pairs),
    ensures
        pairs.len() <= list.len(),
{
    let results = Seq::new(list.len(), |i: int| list[i].result);
    assert forall|i: int| 0 <= i < pairs.len() implies results.contains(#[trigger] pairs[i]) by {
        assert(common(chart, right, pairs[i]));
        let r = lemma_common_result(chart, right, pairs[i]);
        assert(list.contains(r));
        let k = choose|k: int| 0 <= k < list.len() && list[k] == r;
        assert(results[k] == pairs[i]);
    }
    lemma_distinct_within(pairs, results);
}

/// The transition between pairs that a rule between numbered pairs stands for.
pub open spec fn firing_of<S>(pairs: Seq<(StateId, S)>, rule: RuleModel) -> Firing<S> {
    Firing {
        symbol: rule.symbol,
        children: pick(pairs, rule.children),
        result: pairs[rule.result.0 as int],
    }
}

/// A sound rule is a transition of both automata.
pub proof fn lemma_sound_joins<A: BottomUpTa>(
    chart: &Explicit,
    right: &A,
    pairs: Seq<(StateId, A::State)>,
    rule: RuleModel,
)
    requires
        sound_rule(chart, right, pairs, rule),
    ensures
        joins(
            chart,
            right,
            rule.symbol,
            pick(pairs, rule.children),
            pairs[rule.result.0 as int],
        ),
{
    let i = choose|i: int| #[trigger] drawn_from(chart@.rules, pairs, rule, i);
    assert(automaton::applies(
        chart@.rules[i],
        rule.symbol,
        product::firsts(pick(pairs, rule.children)),
    ));
}

/// Identifiers of distinct values are distinct.
pub proof fn lemma_pick_injective<T>(list: Seq<T>, a: Seq<StateId>, b: Seq<StateId>)
    requires
        list.no_duplicates(),
        below(a, list.len()),
        below(b, list.len()),
        pick(list, a) == pick(list, b),
    ensures
        a == b,
{
    assert(a.len() == pick(list, a).len() && b.len() == pick(list, b).len());
    assert forall|i: int| 0 <= i < a.len() implies a[i] == b[i] by {
        assert(pick(list, a)[i] == list[a[i].0 as int]);
        assert(pick(list, b)[i] == list[b[i].0 as int]);
        assert(a[i].0 < list.len() && b[i].0 < list.len());
    }
    assert(a =~= b);
}

/// There are no more distinct rules than transitions between pairs.
pub proof fn lemma_rules_bounded<A: BottomUpTa>(
    chart: &Explicit,
    right: &A,
    list: Seq<Firing<A::State>>,
    pairs: Seq<(StateId, A::State)>,
    rules: Seq<RuleModel>,
)
    requires
        covers(chart, right, list),
        pairs.no_duplicates(),
        all_common(chart, right, pairs),
        sound_rules(chart, right, pairs, rules),
        automaton::unique_transitions(rules),
    ensures
        rules.len() <= list.len(),
{
    let firings = Seq::new(rules.len(), |i: int| firing_of(pairs, rules[i]));
    assert forall|i: int| 0 <= i < firings.len() implies list.contains(#[trigger] firings[i]) by {
        let rule = rules[i];
        assert(sound_rule(chart, right, pairs, rule));
        lemma_sound_joins(chart, right, pairs, rule);
        let children = pick(pairs, rule.children);
        assert forall|k: int| 0 <= k < children.len() implies common(
            chart,
            right,
            #[trigger] children[k],
        ) by {
            assert(rule.children[k].0 < pairs.len());
            assert(common(chart, right, pairs[rule.children[k].0 as int]));
        }
    }
    assert forall|i: int, j: int| 0 <= i < j < firings.len() implies firings[i] != firings[j] by {
        if firings[i] == firings[j] {
            assert(sound_rule(chart, right, pairs, rules[i]));
            assert(sound_rule(chart, right, pairs, rules[j]));
            lemma_pick_injective(pairs, rules[i].children, rules[j].children);
            assert(rules[i].result == rules[j].result);
            assert(automaton::same_transition(rules[i], rules[j]));
            assert(automaton::repeats(rules, j));
        }
    }
    assert(firings.no_duplicates());
    lemma_distinct_within(firings, list);
}

/// When every rule of the chart has been applied, every pair with a common tree is
/// numbered.
pub proof fn lemma_closed<A: BottomUpTa>(
    chart: &Explicit,
    right: &A,
    pairs: Seq<(StateId, A::State)>,
    rules: Seq<RuleModel>,
    t: SymbolTree,
    p: (StateId, A::State),
)
    requires
        pairs.len() <= u32::MAX,
        forall|i: int|
            0 <= i < chart@.rules.len() ==> #[trigger] applied(chart, right, pairs, rules, i),
        recognition::reaches(chart, t, p.0),
        recognition::reaches(right, t, p.1),
    ensures
        pairs.contains(p),
    decreases t,
{
    let a = recognition::lemma_reaches(chart, t, p.0);
    let b = recognition::lemma_reaches(right, t, p.1);
    let children = product::zipped(a, b);
    assert forall|i: int| 0 <= i < children.len() implies pairs.contains(#[trigger] children[i]) by {
        assert(recognition::reaches(chart, t.children[i], a[i]));
        assert(recognition::reaches(right, t.children[i], b[i]));
        lemma_closed(chart, right, pairs, rules, t.children[i], children[i]);
    }
    let ids = lemma_numbers(pairs, children);
    product::lemma_zipped(a, b);
    let i = choose|i: int|
        0 <= i < chart@.rules.len() && automaton::applies(#[trigger] chart@.rules[i], t.symbol, a)
            && chart@.rules[i].result == p.0;
    assert(applied(chart, right, pairs, rules, i));
    assert(right.steps_to(t.symbol, product::seconds(pick(pairs, ids)), p.1));
    assert(emitted(pairs, rules, t.symbol, ids, p));
}

/// The identifiers of values that a list holds.
pub proof fn lemma_numbers<T>(list: Seq<T>, values: Seq<T>) -> (ids: Seq<StateId>)
    requires
        list.len() <= u32::MAX,
        forall|i: int| 0 <= i < values.len() ==> list.contains(#[trigger] values[i]),
    ensures
        below(ids, list.len()),
        pick(list, ids) == values,
{
    let ids = Seq::new(
        values.len(),
        |i: int| StateId((choose|k: int| 0 <= k < list.len() && list[k] == values[i]) as u32),
    );
    assert forall|i: int| 0 <= i < ids.len() implies (#[trigger] ids[i]).0 < list.len()
        && list[ids[i].0 as int] == values[i] by {
        assert(list.contains(values[i]));
        let k = choose|k: int| 0 <= k < list.len() && list[k] == values[i];
        assert(ids[i].0 == k);
    }
    assert(pick(list, ids) =~= values);
    ids
}

/// In the chart of pairs, a tree gets a pair exactly when it gets the chart state in
/// the chart and the other state in the other automaton.
pub proof fn law_pair_chart_states<A: BottomUpTa>(
    chart: &Explicit,
    right: &A,
    both: bool,
    pairs: Seq<(StateId, A::State)>,
    result: &Explicit,
    t: SymbolTree,
    id: StateId,
)
    requires
        is_pair_chart(chart, right, both, pairs, result@),
        pairs.len() <= u32::MAX,
        id.0 < pairs.len(),
    ensures
        recognition::reaches(result, t, id) <==> (recognition::reaches(
            chart,
            t,
            pairs[id.0 as int].0,
        ) && recognition::reaches(right, t, pairs[id.0 as int].1)),
    decreases t,
{
    let p = pairs[id.0 as int];
    if recognition::reaches(result, t, id) {
        let ids = recognition::lemma_reaches(result, t, id);
        let k = choose|k: int|
            0 <= k < result@.rules.len() && automaton::applies(
                #[trigger] result@.rules[k],
                t.symbol,
                ids,
            ) && result@.rules[k].result == id;
        assert(sound_rule(chart, right, pairs, result@.rules[k]));
        lemma_sound_joins(chart, right, pairs, result@.rules[k]);
        let children = pick(pairs, ids);
        assert forall|i: int| 0 <= i < t.children.len() implies recognition::reaches(
            chart,
            #[trigger] t.children[i],
            product::firsts(children)[i],
        ) && recognition::reaches(right, t.children[i], product::seconds(children)[i]) by {
            assert(ids[i].0 < pairs.len());
            assert(recognition::reaches(result, t.children[i], ids[i]));
            law_pair_chart_states(chart, right, both, pairs, result, t.children[i], ids[i]);
        }
        lemma_reaches_intro(chart, t, product::firsts(children), p.0);
        lemma_reaches_intro(right, t, product::seconds(children), p.1);
    }
    if recognition::reaches(chart, t, p.0) && recognition::reaches(right, t, p.1) {
        let a = recognition::lemma_reaches(chart, t, p.0);
        let b = recognition::lemma_reaches(right, t, p.1);
        let children = product::zipped(a, b);
        product::lemma_zipped(a, b);
        assert forall|i: int| 0 <= i < children.len() implies pairs.contains(
            #[trigger] children[i],
        ) by {
            assert(recognition::reaches(chart, t.children[i], a[i]));
            assert(recognition::reaches(right, t.children[i], b[i]));
            assert(common(chart, right, children[i]));
        }
        let ids = lemma_numbers(pairs, children);
        let i = choose|i: int|
            0 <= i < chart@.rules.len() && automaton::applies(
                #[trigger] chart@.rules[i],
                t.symbol,
                a,
            ) && chart@.rules[i].result == p.0;
        assert(applied(chart, right, pairs, result@.rules, i));
        assert(right.steps_to(t.symbol, product::seconds(pick(pairs, ids)), p.1));
        assert(emitted(pairs, result@.rules, t.symbol, ids, p));
        let q = choose|q: StateId|
            q.0 < pairs.len() && pairs[q.0 as int] == p && #[trigger] automaton::has_transition(
                result@.rules,
                t.symbol,
                ids,
                q,
            );
        assert(q == id);
        assert forall|k: int| 0 <= k < t.children.len() implies recognition::reaches(
            result,
            #[trigger] t.children[k],
            ids[k],
        ) by {
            assert(pick(pairs, ids)[k] == children[k]);
            assert(ids[k].0 < pairs.len());
            assert(recognition::reaches(chart, t.children[k], a[k]));
            assert(recognition::reaches(right, t.children[k], b[k]));
            law_pair_chart_states(chart, right, both, pairs, result, t.children[k], ids[k]);
        }
        assert(result.steps_to(t.symbol, ids, id));
        lemma_reaches_intro(result, t, ids, id);
    }
}

/// The chart of pairs accepts exactly the trees that the chart accepts and that get
/// some state in the other automaton, an accepting one where both have to accept.
pub proof fn law_pair_chart_recognizes<A: BottomUpTa>(
    chart: &Explicit,
    right: &A,
    both: bool,
    pairs: Seq<(StateId, A::State)>,
    result: &Explicit,
    t: SymbolTree,
)
    requires
        is_pair_chart(chart, right, both, pairs, result@),
        pairs.len() <= u32::MAX,
    ensures
        recognition::recognizes(result, t) <==> (recognition::recognizes(chart, t)
            && exists|v: A::State| #[trigger]
            recognition::reaches(right, t, v) && (both ==> right.accepts(v))),
{
    if recognition::recognizes(result, t) {
        let id = choose|q: StateId| #[trigger]
            recognition::reaches(result, t, q) && result.accepts(q);
        assert(result@.accepting.contains(id));
        law_pair_chart_states(chart, right, both, pairs, result, t, id);
        assert(chart.accepts(pairs[id.0 as int].0));
        assert(recognition::reaches(right, t, pairs[id.0 as int].1));
    }
    if recognition::recognizes(chart, t) && exists|v: A::State| #[trigger]
        recognition::reaches(right, t, v) && (both ==> right.accepts(v)) {
        let q = choose|q: StateId| #[trigger]
            recognition::reaches(chart, t, q) && chart.accepts(q);
        let v = choose|v: A::State| #[trigger]
            recognition::reaches(right, t, v) && (both ==> right.accepts(v));
        assert(recognition::reaches(right, t, v));
        assert(recognition::reaches(chart, t, (q, v).0));
        assert(common(chart, right, (q, v)));
        assert(pairs.contains((q, v)));
        let k = choose|k: int| 0 <= k < pairs.len() && pairs[k] == (q, v);
        let id = StateId(k as u32);
        law_pair_chart_states(chart, right, both, pairs, result, t, id);
        assert(result@.accepting.contains(id));
        assert(result.accepts(id));
    }
}

} // verus!
