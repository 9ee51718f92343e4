//! Parsing: restricting the grammar automaton by inputs.
use super::assemble;
use super::assemble::{Irtg, IrtgError, IrtgModel};
use super::explore;
use super::grammar;
use super::grammar::{Interpretation, InterpretationKind};
use super::ranks;
use crate::alto_ast;
use crate::alto_ast::decimal_text;
use crate::apply;
use crate::automaton::{Automaton, RuleModel};
use crate::builder::ExplicitBuilder;
use crate::apply::SymbolTree;
use crate::chart_filter;
use crate::chart_filter::{filter_chart, intersect_chart, Halt, NonNullFilteredChart};
use crate::codecs::tulipac::compile;
use crate::codecs::tulipac::compile::insert_sorted;
use crate::combinators::invhom;
use crate::combinators::invhom::InvHom;
use crate::control::{NeverStop, Stopper};
use crate::explicit::Explicit;
use crate::homomorphism::HomModel;
use crate::ids::{StateId, Symbol};
use crate::pair_chart;
use crate::recognition;
use crate::terms::Term;
use crate::text;
use crate::traits::BottomUpTa;
use crate::trim_laws;
use crate::weight::Weight;
use vstd::prelude::*;

verus! {

/// An automaton whose states can be written down.
pub trait StateNames: BottomUpTa {
    /// How a state is written.
    spec fn state_text(&self, q: Self::State) -> Seq<char>;

    /// Writes a state.
    fn name_state(&self, q: &Self::State) -> (s: String)
        ensures
            s@ == self.state_text(*q),
    ;

    /// The span of words that a state stands for, in the decompositions of a string.
    spec fn span(&self, q: Self::State) -> (usize, usize);

    /// Finds the span of a state.
    fn span_of(&self, q: &Self::State) -> (s: (usize, usize))
        ensures
            s == self.span(*q),
    ;
}

/// A span as it is written behind the name of a state.
pub open spec fn span_text(span: (usize, usize)) -> Seq<char> {
    "["@ + alto_ast::decimal(span.0 as nat) + ","@ + alto_ast::decimal(span.1 as nat) + "]"@
}

/// Writes a span.
fn write_span(span: (usize, usize)) -> (s: String)
    ensures
        s@ == span_text(span),
{
    let open = text::joined("[", decimal_text(span.0).as_str());
    let comma = text::joined(open.as_str(), ",");
    let both = text::joined(comma.as_str(), decimal_text(span.1).as_str());
    text::joined(both.as_str(), "]")
}

/// What is written of a state of the decompositions: its span for a string, elsewhere its
/// own text.
pub open spec fn right_text<D: StateNames>(
    kind: InterpretationKind,
    value: D,
    q: D::State,
) -> Seq<char> {
    if kind == InterpretationKind::String {
        span_text(value.span(q))
    } else {
        value.state_text(q)
    }
}

/// Heuristic choice for A* search.
#[derive(Clone, Copy, PartialEq, Eq, Structural, Debug)]
pub enum AstarHeuristic {
    /// Uninformed.
    Zero,
    /// Outside weights of the grammar.
    Outside,
    /// Universal span heuristic; for strings only.
    UniversalSx,
    /// Universal span heuristic with the filter by obligatory leaves; for strings only.
    UniversalSxF,
}

/// How an intersection is explored. All strategies recognize the same derivations.
#[derive(Clone, Copy, PartialEq, Eq, Structural, Debug)]
pub enum MaterializationStrategy {
    /// From accepting states downward; the chart holds what occurs in accepting derivations.
    TopDownCondensed,
    /// From leaves upward; the chart holds all that trees reach.
    IndexedCondensed,
    /// Best first; needs rule weights of at most one. The search is not cut short, so that the
    /// chart holds all that trees reach.
    Astar(AstarHeuristic),
}

/// A value to parse in one interpretation: the automaton of its decompositions, or
/// nothing where the value is not one of the interpretation's algebra.
pub struct ParseInput<'i, D> {
    pub interpretation: &'i Interpretation,
    pub value: Option<D>,
}

/// A parse chart with the names of its states.
#[derive(Debug)]
pub struct ParseChart {
    pub automaton: Explicit,
    pub state_names: Vec<String>,
}

/// What keeps an input from being parsed.
pub enum InputFault {
    NotInputable,
    WrongInputType,
    IncompatibleHeuristic,
}

/// What keeps an input from being parsed, if anything does.
pub open spec fn input_fault(
    kind: InterpretationKind,
    has_value: bool,
    strategy: MaterializationStrategy,
) -> Option<InputFault> {
    if kind == InterpretationKind::OutputOnly {
        Some(InputFault::NotInputable)
    } else if !has_value {
        Some(InputFault::WrongInputType)
    } else if kind != InterpretationKind::String && (strategy == MaterializationStrategy::Astar(
        AstarHeuristic::UniversalSx,
    ) || strategy == MaterializationStrategy::Astar(AstarHeuristic::UniversalSxF)) {
        Some(InputFault::IncompatibleHeuristic)
    } else {
        None
    }
}

/// Whether an error says what keeps an input of the named interpretation from being
/// parsed.
pub open spec fn says_fault(name: Seq<char>, fault: InputFault, e: IrtgError) -> bool {
    match fault {
        InputFault::NotInputable => e matches IrtgError::NotInputable { interpretation }
            && interpretation@ == name,
        InputFault::WrongInputType => e matches IrtgError::WrongInputType { interpretation }
            && interpretation@ == name,
        InputFault::IncompatibleHeuristic => e matches IrtgError::IncompatibleHeuristic {
            interpretation,
            message,
        } && interpretation@ == name && message@
            == "SX and SXF heuristics require a StringAlgebra interpretation"@,
    }
}

/// Checks whether an input can be parsed.
pub fn check_input(
    interpretation: &Interpretation,
    has_value: bool,
    strategy: MaterializationStrategy,
) -> (r: Result<(), IrtgError>)
    ensures
        match r {
            Ok(()) => input_fault(interpretation@.kind, has_value, strategy) is None,
            Err(e) => input_fault(interpretation@.kind, has_value, strategy) matches Some(f)
                && says_fault(interpretation@.name, f, e),
        },
{
    let kind = interpretation.kind();
    if kind == InterpretationKind::OutputOnly {
        return Err(
            IrtgError::NotInputable { interpretation: text::copy_text(interpretation.name()) },
        );
    }
    if !has_value {
        return Err(
            IrtgError::WrongInputType { interpretation: text::copy_text(interpretation.name()) },
        );
    }
    let for_strings = match strategy {
        MaterializationStrategy::Astar(AstarHeuristic::UniversalSx) => true,
        MaterializationStrategy::Astar(AstarHeuristic::UniversalSxF) => true,
        _ => false,
    };
    if for_strings && kind != InterpretationKind::String {
        return Err(
            IrtgError::IncompatibleHeuristic {
                interpretation: text::copy_text(interpretation.name()),
                message: "SX and SXF heuristics require a StringAlgebra interpretation".to_owned(),
            },
        );
    }
    Ok(())
}

/// The name of a product state: for strings the span follows the name, elsewhere the
/// two names are joined by a cross; A* search on strings only numbers states.
pub open spec fn product_name(
    kind: InterpretationKind,
    strategy: MaterializationStrategy,
    left: Seq<char>,
    right: Seq<char>,
    id: int,
) -> Seq<char> {
    if kind == InterpretationKind::String {
        if strategy is Astar {
            "q"@ + alto_ast::decimal(id as nat)
        } else {
            left + right
        }
    } else {
        left + " × "@ + right
    }
}

/// The names of product states.
pub open spec fn product_names<D: StateNames>(
    kind: InterpretationKind,
    strategy: MaterializationStrategy,
    left: Seq<Seq<char>>,
    value: D,
    pairs: Seq<(StateId, D::State)>,
) -> Seq<Seq<char>> {
    Seq::new(
        pairs.len(),
        |i: int|
            product_name(
                kind,
                strategy,
                left[pairs[i].0.0 as int],
                right_text(kind, value, pairs[i].1),
                i,
            ),
    )
}

/// Writes the name of a product state.
fn name_product(
    kind: InterpretationKind,
    strategy: MaterializationStrategy,
    left: &String,
    right: &String,
    id: usize,
) -> (s: String)
    ensures
        s@ == product_name(kind, strategy, left@, right@, id as int),
{
    if kind == InterpretationKind::String {
        if let MaterializationStrategy::Astar(_) = strategy {
            text::joined("q", decimal_text(id).as_str())
        } else {
            text::joined(left.as_str(), right.as_str())
        }
    } else {
        let head = text::joined(left.as_str(), " × ");
        text::joined(head.as_str(), right.as_str())
    }
}

/// Whether `b` is what a search keeps of the product of a chart with another automaton: the
/// product has the pairs as its states, and `kept` lists those that are kept.
pub open spec fn is_product<A: BottomUpTa>(
    chart: Explicit,
    right: &A,
    strategy: MaterializationStrategy,
    b: Explicit,
    pairs: Seq<(StateId, A::State)>,
    full: Explicit,
    kept: Seq<StateId>,
) -> bool {
    &&& pair_chart::is_pair_chart(&chart, right, true, pairs, full@)
    &&& full@.well_formed()
    &&& b@.well_formed()
    &&& explore::explored(strategy, full@, kept, b@)
}

/// The names of the states that are kept.
pub open spec fn kept_names(kept: Seq<StateId>, names: Seq<Seq<char>>) -> Seq<Seq<char>> {
    Seq::new(kept.len(), |i: int| names[kept[i].0 as int])
}

/// Restricts a chart to the derivations whose image the input's automaton accepts.
pub fn intersect_input<'h, 'a, D: StateNames, T: Stopper>(
    chart: &ParseChart,
    kind: InterpretationKind,
    right: &InvHom<'h, 'a, D>,
    strategy: MaterializationStrategy,
    stop: &T,
) -> (r: Result<ParseChart, Halt>)
    requires
        chart.state_names@.len() == chart.automaton@.states,
    ensures
        match r {
            Ok(c) => c.state_names@.len() == c.automaton@.states && exists|
                pairs: Seq<(StateId, D::State)>,
                full: Explicit,
                kept: Seq<StateId>,
            | #[trigger]
                is_product(chart.automaton, right, strategy, c.automaton, pairs, full, kept)
                    && text::texts(c.state_names@) == kept_names(
                    kept,
                    product_names(
                        kind,
                        strategy,
                        text::texts(chart.state_names@),
                        right.wrapped(),
                        pairs,
                    ),
                ),
            Err(h) => chart_filter::halted(&chart.automaton, right, stop, h),
        },
        stop.must_stop() ==> r matches Err(Halt::Cancelled),
{
    let (automaton, pairs) = match intersect_chart(&chart.automaton, right, stop) {
        Ok(found) => found,
        Err(h) => {
            return Err(h);
        },
    };
    let ghost names = text::texts(chart.state_names@);
    let ghost all = product_names(kind, strategy, names, right.wrapped(), pairs@);
    proof {
        use_type_invariant(&chart.automaton);
        chart.automaton.lemma_well_formed();
    }
    let n: usize = pairs.len();
    let mut state_names: Vec<String> = Vec::new();
    let mut i: usize = 0;
    while i < n
        invariant
            i <= n,
            n == pairs@.len(),
            n <= u32::MAX,
            names == text::texts(chart.state_names@),
            chart.state_names@.len() == chart.automaton@.states,
            chart.automaton@.well_formed(),
            pair_chart::is_pair_chart(&chart.automaton, right, true, pairs@, automaton@),
            all == product_names(kind, strategy, names, right.wrapped(), pairs@),
            text::texts(state_names@) == all.take(i as int),
        decreases n - i,
    {
        let pair = pairs.resolve(StateId(i as u32));
        proof {
            assert(pairs@.contains(pairs@[i as int]));
            lemma_common_state(&chart.automaton, right, pairs@[i as int]);
        }
        let right_name = if kind == InterpretationKind::String {
            write_span(right.inner().span_of(&pair.1))
        } else {
            right.inner().name_state(&pair.1)
        };
        let name = name_product(
            kind,
            strategy,
            &chart.state_names[pair.0.index()],
            &right_name,
            i,
        );
        let ghost before = state_names@;
        state_names.push(name);
        proof {
            assert(text::texts(state_names@) =~= text::texts(before).push(name@));
            assert(names[pair.0.0 as int] == chart.state_names@[pair.0.0 as int]@);
            assert(all.take(i + 1) =~= all.take(i as int).push(all[i as int]));
        }
        i += 1;
    }
    assert(all.take(i as int) =~= all);
    let ghost full = automaton;
    proof {
        use_type_invariant(&automaton);
        automaton.lemma_well_formed();
    }
    let (automaton, kept) = explore::explore(automaton, strategy);
    proof {
        use_type_invariant(&automaton);
        automaton.lemma_well_formed();
        explore::lemma_explored(strategy, full@, kept@, automaton@);
    }
    let count: usize = kept.len();
    let mut kept_texts: Vec<String> = Vec::new();
    let mut k: usize = 0;
    while k < count
        invariant
            k <= count,
            count == kept@.len(),
            text::texts(state_names@) == all,
            forall|j: int| 0 <= j < kept@.len() ==> (#[trigger] kept@[j]).0 < all.len(),
            text::texts(kept_texts@) == kept_names(kept@, all).take(k as int),
        decreases count - k,
    {
        let q = kept[k];
        assert(text::texts(state_names@).len() == state_names@.len());
        let name = text::copy_text(&state_names[q.index()]);
        let ghost before = kept_texts@;
        kept_texts.push(name);
        proof {
            assert(text::texts(kept_texts@) =~= text::texts(before).push(name@));
            assert(all[q.0 as int] == state_names@[q.0 as int]@);
            assert(kept_names(kept@, all).take(k + 1) =~= kept_names(kept@, all).take(
                k as int,
            ).push(kept_names(kept@, all)[k as int]));
        }
        k += 1;
    }
    assert(kept_names(kept@, all).take(k as int) =~= kept_names(kept@, all));
    let c = ParseChart { automaton, state_names: kept_texts };
    assert(text::texts(c.state_names@).len() == c.state_names@.len());
    assert(is_product(chart.automaton, right, strategy, c.automaton, pairs@, full, kept@));
    Ok(c)
}

/// A state that a tree reaches is a state of the automaton.
proof fn lemma_common_state<A: BottomUpTa>(chart: &Explicit, right: &A, p: (StateId, A::State))
    requires
        chart@.well_formed(),
        pair_chart::common(chart, right, p),
    ensures
        p.0.0 < chart@.states,
{
    let t = choose|t: SymbolTree| #[trigger]
        recognition::reaches(chart, t, p.0) && recognition::reaches(right, t, p.1);
    let states = recognition::lemma_reaches(chart, t, p.0);
    let i = choose|i: int|
        0 <= i < chart@.rules.len() && crate::automaton::applies(
            #[trigger] chart@.rules[i],
            t.symbol,
            states,
        ) && chart@.rules[i].result == p.0;
    pair_chart::lemma_rule_states(chart@, i);
}

/// The homomorphism that registering images makes.
pub open spec fn hom_of(images: Seq<(Symbol, usize, Term)>) -> HomModel {
    choose|m: HomModel| grammar::registered(images, m)
}

/// Whether `b` restricts `a` to the derivations whose image, under the homomorphism
/// that the images make, the given automaton accepts.
pub open spec fn restricts<D: BottomUpTa>(
    a: Explicit,
    images: Seq<(Symbol, usize, Term)>,
    value: D,
    strategy: MaterializationStrategy,
    b: Explicit,
) -> bool {
    exists|
        x: InvHom<'static, 'static, D>,
        pairs: Seq<(StateId, D::State)>,
        full: Explicit,
        kept: Seq<StateId>,
    |
        x.wrapped() == value && grammar::registered(images, x.model())
            && x.model().well_formed() && #[trigger] is_product(
            a,
            &x,
            strategy,
            b,
            pairs,
            full,
            kept,
        )
}

/// Whether restricting `a` needs more states or rules than can be numbered.
pub open spec fn outgrows<D: BottomUpTa>(
    a: Explicit,
    images: Seq<(Symbol, usize, Term)>,
    value: D,
) -> bool {
    exists|x: InvHom<'static, 'static, D>|
        x.wrapped() == value && grammar::registered(images, x.model())
            && !#[trigger] pair_chart::bounded(&a, &x)
}

/// Whether step `i` of a run restricts the chart by input `i`.
pub open spec fn run_step<'i, D: BottomUpTa>(
    charts: Seq<Explicit>,
    inputs: Seq<ParseInput<'i, D>>,
    strategy: MaterializationStrategy,
    i: int,
) -> bool {
    inputs[i].value is Some && restricts(
        charts[i],
        inputs[i].interpretation@.images,
        inputs[i].value->0,
        strategy,
        charts[i + 1],
    )
}

/// Whether the charts are what restricting the grammar by one input after the other
/// makes.
pub open spec fn is_run<'i, D: BottomUpTa>(
    grammar: Automaton,
    charts: Seq<Explicit>,
    inputs: Seq<ParseInput<'i, D>>,
    strategy: MaterializationStrategy,
) -> bool {
    &&& 0 < charts.len() <= inputs.len() + 1
    &&& charts[0]@ == grammar
    &&& forall|i: int|
        0 <= i < charts.len() - 1 ==> #[trigger] run_step(charts, inputs, strategy, i)
}

/// Whether restricting `a` makes `b` and gives its states these names.
pub open spec fn restricts_named<'i, D: StateNames>(
    a: Explicit,
    left: Seq<Seq<char>>,
    input: ParseInput<'i, D>,
    strategy: MaterializationStrategy,
    b: Explicit,
    names: Seq<Seq<char>>,
) -> bool {
    exists|
        x: InvHom<'static, 'static, D>,
        pairs: Seq<(StateId, D::State)>,
        full: Explicit,
        kept: Seq<StateId>,
    |
        x.wrapped() == input.value->0 && grammar::registered(
            input.interpretation@.images,
            x.model(),
        ) && x.model().well_formed() && #[trigger] is_product(
            a,
            &x,
            strategy,
            b,
            pairs,
            full,
            kept,
        ) && names == kept_names(
            kept,
            product_names(
                input.interpretation@.kind,
                strategy,
                left,
                input.value->0,
                pairs,
            ),
        )
}

/// Whether step `i` of a run restricts the chart by input `i` and names its states.
pub open spec fn named_step<'i, D: StateNames>(
    charts: Seq<Explicit>,
    names: Seq<Seq<Seq<char>>>,
    inputs: Seq<ParseInput<'i, D>>,
    strategy: MaterializationStrategy,
    i: int,
) -> bool {
    inputs[i].value is Some && restricts_named(
        charts[i],
        names[i],
        inputs[i],
        strategy,
        charts[i + 1],
        names[i + 1],
    )
}

/// Whether the charts are what restricting the grammar by one input after the other makes,
/// with the names of their states.
pub open spec fn is_named_run<'i, D: StateNames>(
    m: IrtgModel,
    charts: Seq<Explicit>,
    names: Seq<Seq<Seq<char>>>,
    inputs: Seq<ParseInput<'i, D>>,
    strategy: MaterializationStrategy,
) -> bool {
    &&& is_run(m.automaton, charts, inputs, strategy)
    &&& names.len() == charts.len()
    &&& names[0] == m.states
    &&& forall|i: int|
        0 <= i < charts.len() - 1 ==> #[trigger] named_step(charts, names, inputs, strategy, i)
}

/// Whether a derivation has an image in an interpretation, and the input's automaton accepts
/// it.
pub open spec fn image_accepted<D: BottomUpTa>(
    images: Seq<(Symbol, usize, Term)>,
    value: D,
    t: SymbolTree,
) -> bool {
    apply::image_of(hom_of(images), t) matches Ok(u) && recognition::recognizes(&value, u)
}

/// A restricted chart accepts exactly the derivations that the chart accepts and whose
/// image the input's automaton accepts.
pub proof fn law_restriction<D: BottomUpTa>(
    a: Explicit,
    images: Seq<(Symbol, usize, Term)>,
    value: D,
    strategy: MaterializationStrategy,
    b: Explicit,
    t: SymbolTree,
)
    requires
        restricts(a, images, value, strategy, b),
        ranks::fits(hom_of(images), t),
    ensures
        recognition::recognizes(&b, t) <==> (recognition::recognizes(&a, t) && image_accepted(
            images,
            value,
            t,
        )),
{
    let (x, pairs, full, kept) = choose|
        x: InvHom<'static, 'static, D>,
        pairs: Seq<(StateId, D::State)>,
        full: Explicit,
        kept: Seq<StateId>,
    |
        x.wrapped() == value && grammar::registered(images, x.model())
            && x.model().well_formed() && #[trigger] is_product(
            a,
            &x,
            strategy,
            b,
            pairs,
            full,
            kept,
        );
    grammar::law_registration_is_determined(images, x.model(), hom_of(images));
    chart_filter::law_intersection_recognizes(&a, &x, pairs, &full, t);
    explore::law_search_keeps_language(strategy, &full, kept, &b, t);
    lemma_composed(&x, t);
}

/// An inverse homomorphism accepts, of the trees that fit, those with an image that the
/// wrapped automaton accepts.
proof fn lemma_composed<'h, 'a, D: BottomUpTa>(x: &InvHom<'h, 'a, D>, t: SymbolTree)
    requires
        x.model().well_formed(),
        ranks::fits(x.model(), t),
    ensures
        recognition::recognizes(x, t) <==> (apply::image_of(x.model(), t) matches Ok(u)
            && recognition::recognizes(&x.wrapped(), u)),
        forall|v: D::State| #[trigger]
            recognition::reaches(x, t, v) <==> (apply::image_of(x.model(), t) matches Ok(u)
                && recognition::reaches(&x.wrapped(), u, v)),
{
    ranks::lemma_image_ranked(x.model(), t);
    if invhom::ranked(x.model(), t) {
        invhom::law_invhom_recognizes(x, t);
        assert forall|v: D::State| #[trigger]
            recognition::reaches(x, t, v) <==> (apply::image_of(x.model(), t) matches Ok(u)
                && recognition::reaches(&x.wrapped(), u, v)) by {
            invhom::law_invhom_states(x, t, v);
        }
    } else {
        assert forall|v: D::State| !#[trigger] recognition::reaches(x, t, v) by {
            if recognition::reaches(x, t, v) {
                ranks::lemma_reached_mapped(x, t, v);
            }
        }
    }
}

/// A restricted chart accepts only what the chart accepts.
proof fn lemma_restricted_within<D: BottomUpTa>(
    a: Explicit,
    images: Seq<(Symbol, usize, Term)>,
    value: D,
    strategy: MaterializationStrategy,
    b: Explicit,
    t: SymbolTree,
)
    requires
        restricts(a, images, value, strategy, b),
        recognition::recognizes(&b, t),
    ensures
        recognition::recognizes(&a, t),
{
    let (x, pairs, full, kept) = choose|
        x: InvHom<'static, 'static, D>,
        pairs: Seq<(StateId, D::State)>,
        full: Explicit,
        kept: Seq<StateId>,
    |
        x.wrapped() == value && grammar::registered(images, x.model())
            && x.model().well_formed() && #[trigger] is_product(
            a,
            &x,
            strategy,
            b,
            pairs,
            full,
            kept,
        );
    explore::law_search_keeps_language(strategy, &full, kept, &b, t);
    chart_filter::law_intersection_recognizes(&a, &x, pairs, &full, t);
}

/// The parse chart accepts exactly the derivations that the grammar accepts and that have an
/// image in every input's interpretation which the input's automaton accepts. This holds of
/// every tree, whichever strategy explored the chart.
pub proof fn law_parse_chart<'i, D: BottomUpTa>(
    m: IrtgModel,
    charts: Seq<Explicit>,
    inputs: Seq<ParseInput<'i, D>>,
    strategy: MaterializationStrategy,
    t: SymbolTree,
)
    requires
        ranks::ranks_agree(m),
        is_run(m.automaton, charts, inputs, strategy),
        forall|i: int|
            0 <= i < charts.len() - 1 ==> m.interpretations.contains(
                (#[trigger] inputs[i]).interpretation@,
            ),
    ensures
        recognition::recognizes(&charts.last(), t) <==> (recognition::recognizes(&charts[0], t)
            && forall|i: int|
            0 <= i < charts.len() - 1 ==> image_accepted(
                (#[trigger] inputs[i]).interpretation@.images,
                inputs[i].value->0,
                t,
            )),
    decreases charts.len(),
{
    if charts.len() > 1 {
        let n = charts.len() - 1;
        let front = charts.drop_last();
        assert forall|i: int| 0 <= i < front.len() - 1 implies #[trigger] run_step(
            front,
            inputs,
            strategy,
            i,
        ) by {
            assert(run_step(charts, inputs, strategy, i));
        }
        law_parse_chart(m, front, inputs, strategy, t);
        assert(run_step(charts, inputs, strategy, n - 1));
        let last = inputs[n - 1];
        let images = last.interpretation@.images;
        assert(front.last() == charts[n - 1]);
        assert(front[0] == charts[0]);
        if recognition::recognizes(&charts[0], t) {
            let q = choose|q: StateId| #[trigger]
                recognition::reaches(&charts[0], t, q) && charts[0].accepts(q);
            let k = choose|k: int|
                0 <= k < m.interpretations.len() && m.interpretations[k] == last.interpretation@;
            let x = choose|x: InvHom<'static, 'static, D>|
                x.wrapped() == last.value->0 && grammar::registered(images, x.model())
                    && #[trigger] x.model().well_formed();
            assert(grammar::registered(images, hom_of(images)));
            ranks::law_derivations_fit(m, &charts[0], k, hom_of(images), t, q);
            law_restriction(charts[n - 1], images, last.value->0, strategy, charts[n], t);
        } else if recognition::recognizes(&charts[n], t) {
            lemma_restricted_within(
                charts[n - 1],
                images,
                last.value->0,
                strategy,
                charts[n],
                t,
            );
        }
    }
}

/// Parsing the same inputs with two strategies gives charts that accept the same derivations.
pub proof fn law_strategies_agree<'i, D: BottomUpTa>(
    m: IrtgModel,
    charts: Seq<Explicit>,
    others: Seq<Explicit>,
    inputs: Seq<ParseInput<'i, D>>,
    strategy: MaterializationStrategy,
    other: MaterializationStrategy,
    t: SymbolTree,
)
    requires
        ranks::ranks_agree(m),
        is_run(m.automaton, charts, inputs, strategy),
        is_run(m.automaton, others, inputs, other),
        charts.len() == others.len(),
        forall|i: int|
            0 <= i < charts.len() - 1 ==> m.interpretations.contains(
                (#[trigger] inputs[i]).interpretation@,
            ),
    ensures
        recognition::recognizes(&charts.last(), t) <==> recognition::recognizes(
            &others.last(),
            t,
        ),
{
    law_parse_chart(m, charts, inputs, strategy, t);
    law_parse_chart(m, others, inputs, other, t);
    trim_laws::lemma_same_language(&charts[0], &others[0], t);
}

/// Whether rule `i` is the first with a weight above one.
pub open spec fn first_heavy(rules: Seq<RuleModel>, i: int) -> bool {
    &&& 0 <= i < rules.len()
    &&& rules[i].weight.above_one()
    &&& forall|j: int| 0 <= j < i ==> !(#[trigger] rules[j]).weight.above_one()
}

/// Whether no rule has a weight above one.
pub open spec fn none_heavy(rules: Seq<RuleModel>) -> bool {
    forall|i: int| 0 <= i < rules.len() ==> !(#[trigger] rules[i]).weight.above_one()
}

/// How a grammar symbol is written in messages.
pub open spec fn symbol_text(names: crate::signature::NameList, f: Symbol) -> Seq<char> {
    if f.0 < names.len() {
        names[f.0 as int].0
    } else {
        "Symbol("@ + alto_ast::decimal(f.0 as nat) + ")"@
    }
}

/// Whether an error names the first rule with a weight above one.
pub open spec fn names_heavy(m: IrtgModel, weight: Weight, symbol: Seq<char>) -> bool {
    exists|i: int| #[trigger]
        first_heavy(m.automaton.rules, i) && weight == m.automaton.rules[i].weight && symbol
            == symbol_text(m.names, m.automaton.rules[i].symbol)
}

/// Whether input `k` is the first that cannot be parsed.
pub open spec fn first_bad_input<'i, D>(
    inputs: Seq<ParseInput<'i, D>>,
    strategy: MaterializationStrategy,
    k: int,
) -> bool {
    &&& 0 <= k < inputs.len()
    &&& fault_at(inputs, strategy, k) is Some
    &&& forall|j: int| 0 <= j < k ==> #[trigger] fault_at(inputs, strategy, j) is None
}

/// What keeps input `k` from being parsed.
pub open spec fn fault_at<'i, D>(
    inputs: Seq<ParseInput<'i, D>>,
    strategy: MaterializationStrategy,
    k: int,
) -> Option<InputFault> {
    input_fault(inputs[k].interpretation@.kind, inputs[k].value is Some, strategy)
}

/// What parsing owes.
pub open spec fn parse_outcome<'i, D: StateNames, T: Stopper>(
    m: IrtgModel,
    inputs: Seq<ParseInput<'i, D>>,
    strategy: MaterializationStrategy,
    stop: &T,
    r: Result<ParseChart, IrtgError>,
) -> bool {
    let allowed = strategy is Astar ==> none_heavy(m.automaton.rules);
    &&& stop.must_stop() ==> (r matches Err(IrtgError::Cancelled))
    &&& match r {
        Err(IrtgError::Cancelled) => stop.may_stop(),
        Err(IrtgError::AstarWeightPrecondition { weight, symbol }) => strategy is Astar
            && names_heavy(m, weight, symbol@),
        Err(IrtgError::TooLarge) => allowed && exists|charts: Seq<Explicit>| #[trigger]
            is_run(m.automaton, charts, inputs, strategy) && charts.len() <= inputs.len() && outgrows(
                charts.last(),
                inputs[charts.len() - 1].interpretation@.images,
                inputs[charts.len() - 1].value->0,
            ),
        Err(e) => allowed && exists|k: int| #[trigger]
            first_bad_input(inputs, strategy, k) && says_fault(
                inputs[k].interpretation@.name,
                fault_at(inputs, strategy, k)->0,
                e,
            ),
        Ok(c) => {
            &&& allowed
            &&& c.state_names@.len() == c.automaton@.states
            &&& forall|k: int|
                0 <= k < inputs.len() ==> #[trigger] fault_at(inputs, strategy, k) is None
            &&& exists|charts: Seq<Explicit>, names: Seq<Seq<Seq<char>>>| #[trigger]
                is_named_run(m, charts, names, inputs, strategy) && charts.len() == inputs.len()
                    + 1 && charts.last()@ == c.automaton@ && names.last() == text::texts(
                    c.state_names@,
                )
        },
    }
}

/// A copy of an automaton.
pub fn copy_automaton(a: &Explicit) -> (b: Explicit)
    ensures
        b@ == a@,
{
    proof {
        use_type_invariant(a);
        a.lemma_well_formed();
    }
    rebuild(a).build_trusted()
}

/// A builder with the states and rules of an automaton.
pub(super) fn rebuild(a: &Explicit) -> (b: ExplicitBuilder)
    ensures
        b@ == a@,
{
    proof {
        use_type_invariant(a);
        a.lemma_well_formed();
    }
    let mut builder = ExplicitBuilder::new();
    let n: u32 = a.num_states();
    let mut s: u32 = 0;
    while s < n
        invariant
            s <= n,
            n == a@.states,
            builder@.states == s,
            builder@.rules.len() == 0,
            forall|q: StateId| #[trigger] builder@.accepting.contains(q) <==> (q.0 < s
                && a@.accepting.contains(q)),
        decreases n - s,
    {
        let q: StateId = builder.new_state();
        if a.is_accepting(&q) {
            builder.add_accepting(q);
        }
        s += 1;
    }
    let count: usize = a.num_rules();
    let mut i: usize = 0;
    assert(builder@.accepting =~= a@.accepting);
    assert(builder@.rules =~= a@.rules.take(0));
    while i < count
        invariant
            i <= count,
            count == a@.rules.len(),
            a@.well_formed(),
            builder@.states == a@.states,
            builder@.accepting == a@.accepting,
            builder@.rules == a@.rules.take(i as int),
        decreases count - i,
    {
        let rule = a.rule(i);
        proof {
            pair_chart::lemma_rule_states(a@, i as int);
        }
        builder.add_weighted_rule(
            rule.symbol,
            crate::key_index::copy_states(rule.children),
            rule.result,
            rule.weight,
        );
        assert(a@.rules.take(i + 1) =~= a@.rules.take(i as int).push(a@.rules[i as int]));
        i += 1;
    }
    assert(a@.rules.take(i as int) =~= a@.rules);
    builder
}

impl Irtg {
    /// Checks that no rule has a weight above one, as A* needs it.
    pub fn check_astar_weight_precondition(&self) -> (r: Result<(), IrtgError>)
        ensures
            match r {
                Ok(()) => none_heavy(self@.automaton.rules),
                Err(e) => e matches IrtgError::AstarWeightPrecondition { weight, symbol }
                    && names_heavy(self@, weight, symbol@),
            },
    {
        let grammar = self.grammar();
        let names = self.grammar_signature();
        let n: usize = grammar.num_rules();
        let mut i: usize = 0;
        while i < n
            invariant
                i <= n,
                grammar@ == self@.automaton,
                names@ == self@.names,
                n == self@.automaton.rules.len(),
                forall|j: int|
                    0 <= j < i ==> !(#[trigger] self@.automaton.rules[j]).weight.above_one(),
            decreases n - i,
        {
            let rule = grammar.rule(i);
            if rule.weight.exceeds_one() {
                let f = rule.symbol;
                let symbol = if (f.0 as usize) < names.len() {
                    text::copy_text(names.resolve(f))
                } else {
                    let head = text::joined("Symbol(", decimal_text(f.0 as usize).as_str());
                    text::joined(head.as_str(), ")")
                };
                proof {
                    assert(first_heavy(self@.automaton.rules, i as int));
                }
                return Err(IrtgError::AstarWeightPrecondition { weight: rule.weight, symbol });
            }
            i += 1;
        }
        Ok(())
    }

    /// The grammar automaton as a chart.
    fn start_chart(&self) -> (c: ParseChart)
        ensures
            c.automaton@ == self@.automaton,
            text::texts(c.state_names@) == self@.states,
            c.state_names@.len() == c.automaton@.states,
    {
        let automaton = copy_automaton(self.grammar());
        let states = self.states();
        let n: usize = states.len();
        let mut state_names: Vec<String> = Vec::new();
        let mut i: usize = 0;
        while i < n
            invariant
                i <= n,
                n == states@.len(),
                n <= u32::MAX,
                state_names@.len() == i,
                forall|j: int| 0 <= j < i ==> (#[trigger] state_names@[j])@ == states@[j]@,
            decreases n - i,
        {
            let name = states.resolve(StateId(i as u32));
            state_names.push(text::copy_text(name));
            i += 1;
        }
        assert(text::texts(state_names@) =~= self@.states);
        ParseChart { automaton, state_names }
    }

    /// Parses inputs: restricts the grammar by one input after the other.
    pub fn parse_with_control<'i, D: StateNames, T: Stopper>(
        &self,
        inputs: Vec<ParseInput<'i, D>>,
        strategy: MaterializationStrategy,
        stop: &T,
    ) -> (r: Result<ParseChart, IrtgError>)
        ensures
            parse_outcome(self@, inputs@, strategy, stop, r),
    {
        if stop.stop_now() {
            return Err(IrtgError::Cancelled);
        }
        if let MaterializationStrategy::Astar(_) = strategy {
            match self.check_astar_weight_precondition() {
                Ok(()) => {},
                Err(e) => {
                    return Err(e);
                },
            }
        }
        let mut chart = self.start_chart();
        let ghost m = self@;
        let ghost given = inputs@;
        let ghost mut charts = seq![chart.automaton];
        let ghost mut names = seq![text::texts(chart.state_names@)];
        let mut rest = inputs;
        let n: usize = rest.len();
        let mut i: usize = 0;
        assert(given.skip(0) =~= given);
        while i < n
            invariant
                i <= n,
                n == given.len(),
                given == inputs@,
                m == self@,
                rest@ == given.skip(i as int),
                strategy is Astar ==> none_heavy(m.automaton.rules),
                chart.state_names@.len() == chart.automaton@.states,
                is_named_run(m, charts, names, given, strategy),
                names.last() == text::texts(chart.state_names@),
                charts.len() == i + 1,
                charts.last() == chart.automaton,
                forall|k: int| 0 <= k < i ==> #[trigger] fault_at(given, strategy, k) is None,
            decreases n - i,
        {
            if stop.stop_now() {
                return Err(IrtgError::Cancelled);
            }
            let input = rest.remove(0);
            proof {
                assert(input == given[i as int]);
                assert(rest@ =~= given.skip(i + 1));
            }
            let ParseInput { interpretation, value } = input;
            let has_value = value.is_some();
            match check_input(interpretation, has_value, strategy) {
                Ok(()) => {},
                Err(e) => {
                    assert(first_bad_input(given, strategy, i as int));
                    return Err(e);
                },
            }
            assert(fault_at(given, strategy, i as int) is None);
            let value = match value {
                Some(value) => value,
                None => {
                    return Err(IrtgError::Cancelled);
                },
            };
            let ghost kept = value;
            let kind = interpretation.kind();
            let hom = interpretation.homomorphism();
            let right = InvHom::new(value, &hom);
            match intersect_input(&chart, kind, &right, strategy, stop) {
                Ok(next) => {
                    proof {
                        use_type_invariant(&hom);
                        hom.lemma_well_formed();
                        use_type_invariant(&next.automaton);
                        next.automaton.lemma_well_formed();
                        let (pairs, full, kept) = choose|
                            pairs: Seq<(StateId, D::State)>,
                            full: Explicit,
                            kept: Seq<StateId>,
                        | #[trigger]
                            is_product(
                                chart.automaton,
                                &right,
                                strategy,
                                next.automaton,
                                pairs,
                                full,
                                kept,
                            ) && text::texts(next.state_names@) == kept_names(
                                kept,
                                product_names(
                                    kind,
                                    strategy,
                                    text::texts(chart.state_names@),
                                    right.wrapped(),
                                    pairs,
                                ),
                            );
                        let value = given[i as int].value->0;
                        assert(right.wrapped() == value);
                        assert(restricts(
                            chart.automaton,
                            interpretation@.images,
                            value,
                            strategy,
                            next.automaton,
                        ));
                        let before = charts;
                        let earlier = names;
                        assert(restricts_named(
                            chart.automaton,
                            text::texts(chart.state_names@),
                            given[i as int],
                            strategy,
                            next.automaton,
                            text::texts(next.state_names@),
                        ));
                        charts = charts.push(next.automaton);
                        names = names.push(text::texts(next.state_names@));
                        assert forall|k: int|
                            0 <= k < charts.len() - 1 implies #[trigger] named_step(
                            charts,
                            names,
                            given,
                            strategy,
                            k,
                        ) by {
                            if k < i {
                                assert(named_step(before, earlier, given, strategy, k));
                            }
                        }
                        assert forall|k: int|
                            0 <= k < charts.len() - 1 implies #[trigger] run_step(
                            charts,
                            given,
                            strategy,
                            k,
                        ) by {
                            if k < i {
                                assert(run_step(before, given, strategy, k));
                            }
                        }
                    }
                    chart = next;
                },
                Err(Halt::Cancelled) => {
                    return Err(IrtgError::Cancelled);
                },
                Err(Halt::TooLarge) => {
                    proof {
                        assert(outgrows(chart.automaton, interpretation@.images, kept));
                    }
                    return Err(IrtgError::TooLarge);
                },
            }
            i += 1;
        }
        Ok(chart)
    }

    /// Parses inputs with the given strategy.
    pub fn parse_with<'i, D: StateNames>(
        &self,
        inputs: Vec<ParseInput<'i, D>>,
        strategy: MaterializationStrategy,
    ) -> (r: Result<ParseChart, IrtgError>)
        ensures
            parse_outcome(self@, inputs@, strategy, &NeverStop, r),
    {
        self.parse_with_control(inputs, strategy, &NeverStop)
    }

    /// Parses inputs with the default strategy, which keeps of each product what lies below
    /// its accepting states.
    pub fn parse<'i, D: StateNames>(&self, inputs: Vec<ParseInput<'i, D>>) -> (r: Result<
        ParseChart,
        IrtgError,
    >)
        ensures
            parse_outcome(
                self@,
                inputs@,
                MaterializationStrategy::TopDownCondensed,
                &NeverStop,
                r,
            ),
    {
        self.parse_with(inputs, MaterializationStrategy::TopDownCondensed)
    }
}

/// Whether a grammar has an interpretation with the given name.
pub open spec fn has_interpretation(m: IrtgModel, name: Seq<char>) -> bool {
    exists|k: int|
        0 <= k < m.interpretations.len() && (#[trigger] m.interpretations[k]).name == name
}

/// The names of the interpretations for which a condition holds.
pub open spec fn names_where(
    list: Seq<super::grammar::InterpretationModel>,
    holds: spec_fn(InterpretationKind) -> bool,
) -> Seq<Seq<char>>
    decreases list.len(),
{
    if list.len() == 0 {
        Seq::empty()
    } else {
        let earlier = names_where(list.drop_last(), holds);
        if holds(list.last().kind) {
            earlier.push(list.last().name)
        } else {
            earlier
        }
    }
}

/// Whether strings can be parsed in an interpretation of the given kind.
pub open spec fn is_string(kind: InterpretationKind) -> bool {
    kind == InterpretationKind::String
}

/// Whether values can be parsed in an interpretation of the given kind.
pub open spec fn is_input(kind: InterpretationKind) -> bool {
    kind != InterpretationKind::OutputOnly
}

impl Irtg {
    fn collect_names(&self, strings_only: bool) -> (r: Vec<String>)
        ensures
            compile::increasing(text::texts(r@)),
            forall|x: Seq<char>| #[trigger]
                text::texts(r@).contains(x) <==> names_where(
                    self@.interpretations,
                    if strings_only {
                        |k: InterpretationKind| is_string(k)
                    } else {
                        |k: InterpretationKind| is_input(k)
                    },
                ).contains(x),
    {
        let list = self.interpretations();
        let ghost all = self@.interpretations;
        let ghost holds = if strings_only {
            |k: InterpretationKind| is_string(k)
        } else {
            |k: InterpretationKind| is_input(k)
        };
        let mut r: Vec<String> = Vec::new();
        let mut i: usize = 0;
        assert(all.take(0) =~= Seq::empty());
        assert(text::texts(r@) =~= Seq::<Seq<char>>::empty());
        while i < list.len()
            invariant
                i <= list@.len(),
                all == assemble::interpretation_views(list@),
                holds == (if strings_only {
                    |k: InterpretationKind| is_string(k)
                } else {
                    |k: InterpretationKind| is_input(k)
                }),
                compile::increasing(text::texts(r@)),
                forall|x: Seq<char>| #[trigger]
                    text::texts(r@).contains(x) <==> names_where(
                        all.take(i as int),
                        holds,
                    ).contains(x),
            decreases list@.len() - i,
        {
            let kind = list[i].kind();
            let ghost earlier = names_where(all.take(i as int), holds);
            proof {
                let now = all.take(i + 1);
                assert(now.drop_last() =~= all.take(i as int));
                assert(now.last() == list@[i as int]@);
            }
            let wanted = if strings_only {
                kind == InterpretationKind::String
            } else {
                kind != InterpretationKind::OutputOnly
            };
            if wanted {
                let name = text::copy_text(list[i].name());
                let ghost key = name@;
                let ghost before = text::texts(r@);
                insert_sorted(&mut r, name);
                proof {
                    assert forall|x: Seq<char>| #[trigger]
                        text::texts(r@).contains(x) <==> earlier.push(key).contains(x) by {
                        crate::symbol_set::lemma_push_contains(earlier, key, x);
                        assert(before.contains(x) <==> earlier.contains(x));
                    }
                }
            }
            i += 1;
        }
        assert(all.take(i as int) =~= all);
        r
    }

    /// The names of the interpretations in which strings can be parsed, in order.
    pub fn string_interpretation_names(&self) -> (r: Vec<String>)
        ensures
            text::texts(r@) == compile::sorted_texts(
                names_where(self@.interpretations, |k: InterpretationKind| is_string(k)),
            ),
    {
        let r = self.collect_names(true);
        proof {
            compile::lemma_sorted_texts(
                text::texts(r@),
                names_where(self@.interpretations, |k: InterpretationKind| is_string(k)),
            );
        }
        r
    }

    /// The names of all interpretations in which values can be parsed, in order.
    pub fn input_interpretation_names(&self) -> (r: Vec<String>)
        ensures
            text::texts(r@) == compile::sorted_texts(
                names_where(self@.interpretations, |k: InterpretationKind| is_input(k)),
            ),
    {
        let r = self.collect_names(false);
        proof {
            compile::lemma_sorted_texts(
                text::texts(r@),
                names_where(self@.interpretations, |k: InterpretationKind| is_input(k)),
            );
        }
        r
    }

    /// The first of the names that no interpretation has. A corpus that declares such a name
    /// is none of this grammar.
    pub fn first_unknown<'n>(&self, names: &'n Vec<String>) -> (r: Option<&'n String>)
        ensures
            match r {
                Some(name) => exists|k: int|
                    0 <= k < names@.len() && #[trigger] names@[k] == name && !has_interpretation(
                        self@,
                        name@,
                    ) && forall|j: int|
                        0 <= j < k ==> has_interpretation(self@, (#[trigger] names@[j])@),
                None => forall|k: int|
                    0 <= k < names@.len() ==> has_interpretation(self@, (#[trigger] names@[k])@),
            },
    {
        let mut i: usize = 0;
        while i < names.len()
            invariant
                i <= names@.len(),
                forall|j: int| 0 <= j < i ==> has_interpretation(self@, (#[trigger] names@[j])@),
            decreases names@.len() - i,
        {
            if self.interpretation_ref(&names[i]).is_none() {
                assert(names@[i as int]@ == names@[i as int]@);
                return Some(&names[i]);
            }
            i += 1;
        }
        None
    }

    /// The interpretation with the given name.
    pub fn interpretation_ref(&self, name: &String) -> (r: Option<&Interpretation>)
        ensures
            match r {
                Some(i) => exists|k: int|
                    0 <= k < self@.interpretations.len() && #[trigger] self@.interpretations[k]
                        == i@ && i@.name == name@,
                None => forall|k: int|
                    0 <= k < self@.interpretations.len() ==> (
                    #[trigger] self@.interpretations[k]).name != name@,
            },
    {
        let list = self.interpretations();
        let mut i: usize = 0;
        while i < list.len()
            invariant
                i <= list@.len(),
                assemble::interpretation_views(list@) == self@.interpretations,
                forall|k: int| 0 <= k < i ==> (#[trigger] self@.interpretations[k]).name != name@,
            decreases list@.len() - i,
        {
            assert(self@.interpretations[i as int] == list@[i as int]@);
            if text::same_text(list[i].name(), name) {
                return Some(&list[i]);
            }
            i += 1;
        }
        None
    }

    /// Filters a parse chart to the derivations whose image in the named interpretation gets
    /// a state in the filter of its algebra, keeping where the states come from.
    pub fn filter_non_null_with_state_origins_controlled<R: BottomUpTa, T: Stopper>(
        &self,
        chart: &Explicit,
        interpretation_name: &String,
        filter: R,
        stop: &T,
    ) -> (r: Result<NonNullFilteredChart, IrtgError>)
        ensures
            filter_outcome(self@, chart, interpretation_name@, filter, stop, r),
    {
        let interpretation = match self.interpretation_ref(interpretation_name) {
            Some(interpretation) => interpretation,
            None => {
                return Err(
                    IrtgError::UnknownInterpretation(text::copy_text(interpretation_name)),
                );
            },
        };
        proof {
            let k = choose|k: int|
                0 <= k < self@.interpretations.len() && #[trigger] self@.interpretations[k]
                    == interpretation@ && interpretation@.name == interpretation_name@;
            assert(named_at(self@.interpretations, interpretation_name@, k));
        }
        if !interpretation.supports_non_null_filter() {
            return Err(
                IrtgError::NonNullFilterUnsupported {
                    interpretation: text::copy_text(interpretation_name),
                    class_name: text::copy_text(interpretation.class_name()),
                },
            );
        }
        let ghost kept = filter;
        let hom = interpretation.homomorphism();
        let composed = InvHom::new(filter, &hom);
        proof {
            use_type_invariant(&hom);
            hom.lemma_well_formed();
        }
        match filter_chart(chart, &composed, stop) {
            Ok(f) => {
                proof {
                    use_type_invariant(&f.automaton);
                    f.automaton.lemma_well_formed();
                    assert(filters(*chart, interpretation@.images, kept, f));
                }
                Ok(f)
            },
            Err(Halt::Cancelled) => Err(IrtgError::Cancelled),
            Err(Halt::TooLarge) => {
                assert(outgrows(*chart, interpretation@.images, kept));
                Err(IrtgError::TooLarge)
            },
        }
    }

    /// Filters a parse chart, keeping where its states come from.
    pub fn filter_non_null_with_state_origins<R: BottomUpTa>(
        &self,
        chart: &Explicit,
        interpretation_name: &String,
        filter: R,
    ) -> (r: Result<NonNullFilteredChart, IrtgError>)
        ensures
            filter_outcome(self@, chart, interpretation_name@, filter, &NeverStop, r),
    {
        self.filter_non_null_with_state_origins_controlled(
            chart,
            interpretation_name,
            filter,
            &NeverStop,
        )
    }

    /// Filters a parse chart to the derivations whose image in the named interpretation gets
    /// a state in the filter of its algebra.
    pub fn filter_non_null<R: BottomUpTa>(
        &self,
        chart: &Explicit,
        interpretation_name: &String,
        filter: R,
    ) -> (r: Result<Explicit, IrtgError>)
        ensures
            match r {
                Ok(a) => exists|f: NonNullFilteredChart| #[trigger]
                    filter_outcome(
                        self@,
                        chart,
                        interpretation_name@,
                        filter,
                        &NeverStop,
                        Ok::<NonNullFilteredChart, IrtgError>(f),
                    ) && f.automaton == a,
                Err(e) => filter_outcome(
                    self@,
                    chart,
                    interpretation_name@,
                    filter,
                    &NeverStop,
                    Err::<NonNullFilteredChart, IrtgError>(e),
                ),
            },
    {
        match self.filter_non_null_with_state_origins(chart, interpretation_name, filter) {
            Ok(f) => Ok(f.automaton),
            Err(e) => Err(e),
        }
    }
}

/// Whether `f` filters `a` to the derivations whose image, under the homomorphism that the
/// images make, gets a state in the filter.
pub open spec fn filters<R: BottomUpTa>(
    a: Explicit,
    images: Seq<(Symbol, usize, Term)>,
    filter: R,
    f: NonNullFilteredChart,
) -> bool {
    exists|x: InvHom<'static, 'static, R>|
        x.wrapped() == filter && grammar::registered(images, x.model())
            && x.model().well_formed() && f.automaton@.well_formed()
            && #[trigger] chart_filter::filtered(&a, &x, false, f)
}

/// Of the derivations of the grammar, a filtered chart accepts exactly those that the chart
/// accepts and that have an image which gets some state in the filter. Its states accept where the chart's
/// states that they come from do, and each of its rules has the symbol and the weight of a
/// chart rule between the states that its own come from.
pub proof fn law_filter_non_null<R: BottomUpTa>(
    m: IrtgModel,
    g: Explicit,
    a: Explicit,
    k: int,
    filter: R,
    f: NonNullFilteredChart,
    t: SymbolTree,
)
    requires
        ranks::ranks_agree(m),
        g@ == m.automaton,
        recognition::recognizes(&a, t) ==> recognition::recognizes(&g, t),
        0 <= k < m.interpretations.len(),
        filters(a, m.interpretations[k].images, filter, f),
    ensures
        recognition::recognizes(&f.automaton, t) <==> (recognition::recognizes(&a, t) && (
        apply::image_of(hom_of(m.interpretations[k].images), t) matches Ok(u)
            && exists|v: R::State| #[trigger] recognition::reaches(&filter, u, v))),
        f.state_origins@.len() == f.automaton@.states,
        forall|q: StateId|
            q.0 < f.automaton@.states ==> (#[trigger] f.automaton@.accepting.contains(q)
                <==> a@.accepting.contains(f.state_origins@[q.0 as int].0)),
        forall|i: int|
            0 <= i < f.automaton@.rules.len() ==> comes_from_rule(
                a@.rules,
                f.state_origins@,
                #[trigger] f.automaton@.rules[i],
            ),
{
    let images = m.interpretations[k].images;
    let x = choose|x: InvHom<'static, 'static, R>|
        x.wrapped() == filter && grammar::registered(images, x.model())
            && x.model().well_formed() && f.automaton@.well_formed()
            && #[trigger] chart_filter::filtered(&a, &x, false, f);
    grammar::law_registration_is_determined(images, x.model(), hom_of(images));
    chart_filter::law_restricted_chart_recognizes(&a, &x, false, f, t);
    if recognition::recognizes(&a, t) {
        assert(recognition::recognizes(&g, t));
        let q = choose|q: StateId| #[trigger] recognition::reaches(&g, t, q) && g.accepts(q);
        ranks::law_derivations_fit(m, &g, k, x.model(), t, q);
        lemma_composed(&x, t);
        if apply::image_of(x.model(), t) is Ok {
            let u = apply::image_of(x.model(), t)->Ok_0;
            if exists|v: R::State| #[trigger] recognition::reaches(&filter, u, v) {
                let v = choose|v: R::State| #[trigger] recognition::reaches(&filter, u, v);
                assert(recognition::reaches(&x, t, v));
            }
        }
    }
    let (pairs, values) = choose|
        pairs: Seq<(StateId, R::State)>,
        values: Seq<R::State>,
    | #[trigger]
        chart_filter::is_filtered(&a, &x, false, f, pairs, values);
    assert forall|q: StateId| q.0 < f.automaton@.states implies (
    #[trigger] f.automaton@.accepting.contains(q) <==> a@.accepting.contains(
        f.state_origins@[q.0 as int].0,
    )) by {
        assert(f.state_origins@[q.0 as int].0 == pairs[q.0 as int].0);
    }
    assert forall|i: int| 0 <= i < f.automaton@.rules.len() implies comes_from_rule(
        a@.rules,
        f.state_origins@,
        #[trigger] f.automaton@.rules[i],
    ) by {
        lemma_comes_from_rule(&a, &x, f, pairs, values, i);
    }
}

proof fn lemma_comes_from_rule<R: BottomUpTa>(
    a: &Explicit,
    x: &R,
    f: NonNullFilteredChart,
    pairs: Seq<(StateId, R::State)>,
    values: Seq<R::State>,
    i: int,
)
    requires
        chart_filter::is_filtered(a, x, false, f, pairs, values),
        0 <= i < f.automaton@.rules.len(),
    ensures
        comes_from_rule(a@.rules, f.state_origins@, f.automaton@.rules[i]),
{
    let rule = f.automaton@.rules[i];
    assert(pair_chart::sound_rule(a, x, pairs, rule));
    let k = choose|k: int| #[trigger] pair_chart::drawn_from(a@.rules, pairs, rule, k);
    assert(f.state_origins@[rule.result.0 as int].0 == pairs[rule.result.0 as int].0);
    let owed = Seq::new(
        rule.children.len(),
        |c: int| f.state_origins@[rule.children[c].0 as int].0,
    );
    assert forall|c: int| 0 <= c < rule.children.len() implies a@.rules[k].children[c]
        == owed[c] by {
        assert(rule.children[c].0 < pairs.len());
        assert(f.state_origins@[rule.children[c].0 as int].0 == pairs[rule.children[c].0 as int].0);
    }
    assert(a@.rules[k].children =~= owed);
    assert(stands_over(a@.rules, f.state_origins@, rule, k));
}

/// Whether a rule between pairs stands over a chart rule with its symbol and weight.
pub open spec fn comes_from_rule(
    rules: Seq<RuleModel>,
    origins: Seq<(StateId, usize)>,
    rule: RuleModel,
) -> bool {
    exists|k: int| #[trigger] stands_over(rules, origins, rule, k)
}

/// Whether a rule between pairs stands over chart rule `k`.
pub open spec fn stands_over(
    rules: Seq<RuleModel>,
    origins: Seq<(StateId, usize)>,
    rule: RuleModel,
    k: int,
) -> bool {
    &&& 0 <= k < rules.len()
    &&& rules[k].symbol == rule.symbol
    &&& rules[k].weight == rule.weight
    &&& rules[k].result == origins[rule.result.0 as int].0
    &&& rules[k].children == Seq::new(
        rule.children.len(),
        |c: int| origins[rule.children[c].0 as int].0,
    )
}

/// Whether interpretation `k` has the given name.
pub open spec fn named_at(
    list: Seq<super::grammar::InterpretationModel>,
    name: Seq<char>,
    k: int,
) -> bool {
    0 <= k < list.len() && list[k].name == name
}

/// What filtering a chart owes.
pub open spec fn filter_outcome<R: BottomUpTa, T: Stopper>(
    m: IrtgModel,
    chart: &Explicit,
    name: Seq<char>,
    filter: R,
    stop: &T,
    r: Result<NonNullFilteredChart, IrtgError>,
) -> bool {
    if forall|k: int| !#[trigger] named_at(m.interpretations, name, k) {
        r matches Err(IrtgError::UnknownInterpretation(n)) && n@ == name
    } else {
        exists|k: int| #[trigger]
            named_at(m.interpretations, name, k) && (if m.interpretations[k].class_name
                != "de.up.ling.irtg.algebra.FeatureStructureAlgebra"@ {
                r matches Err(
                    IrtgError::NonNullFilterUnsupported { interpretation, class_name },
                ) && interpretation@ == name && class_name@ == m.interpretations[k].class_name
            } else {
                &&& stop.must_stop() ==> (r matches Err(IrtgError::Cancelled))
                &&& match r {
                    Ok(f) => filters(*chart, m.interpretations[k].images, filter, f),
                    Err(IrtgError::Cancelled) => stop.may_stop(),
                    Err(IrtgError::TooLarge) => outgrows(
                        *chart,
                        m.interpretations[k].images,
                        filter,
                    ),
                    Err(_) => false,
                }
            })
    }
}

} // verus!
