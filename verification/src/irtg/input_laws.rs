//! Which inputs are parsed, and how the states of a chart are named.
use super::grammar::{InterpretationKind, InterpretationModel};
use super::parse;
use super::parse::{AstarHeuristic, InputFault, MaterializationStrategy};
use crate::alto_ast;
use vstd::prelude::*;

verus! {

/// An input can be parsed exactly where its interpretation takes inputs, a value of its
/// algebra is given, and the search does not estimate by spans where there are none: only
/// strings have spans.
pub proof fn law_parsable_inputs(
    kind: InterpretationKind,
    has_value: bool,
    strategy: MaterializationStrategy,
)
    ensures
        parse::input_fault(kind, has_value, strategy) is None <==> (kind
            != InterpretationKind::OutputOnly && has_value && (kind == InterpretationKind::String
            || match strategy {
            MaterializationStrategy::Astar(AstarHeuristic::UniversalSx) => false,
            MaterializationStrategy::Astar(AstarHeuristic::UniversalSxF) => false,
            _ => true,
        })),
        parse::input_fault(kind, has_value, strategy) == Some(InputFault::NotInputable) <==> kind
            == InterpretationKind::OutputOnly,
        parse::input_fault(kind, has_value, strategy) == Some(InputFault::WrongInputType)
            <==> kind != InterpretationKind::OutputOnly && !has_value,
{
}

/// The names of interpretations for which a condition holds are those of the
/// interpretations of such a kind, and no other.
pub proof fn law_interpretations_by_kind(
    list: Seq<InterpretationModel>,
    holds: spec_fn(InterpretationKind) -> bool,
)
    ensures
        forall|name: Seq<char>| #[trigger]
            parse::names_where(list, holds).contains(name) <==> exists|k: int|
                0 <= k < list.len() && (#[trigger] list[k]).name == name && holds(list[k].kind),
    decreases list.len(),
{
    if list.len() > 0 {
        let front = list.drop_last();
        law_interpretations_by_kind(front, holds);
        let before = parse::names_where(front, holds);
        let all = parse::names_where(list, holds);
        assert forall|name: Seq<char>| #[trigger] all.contains(name) <==> exists|k: int|
            0 <= k < list.len() && (#[trigger] list[k]).name == name && holds(list[k].kind) by {
            if all.contains(name) {
                let i = choose|i: int| 0 <= i < all.len() && all[i] == name;
                if i < before.len() {
                    assert(before[i] == name);
                    assert(before.contains(name));
                    let k = choose|k: int|
                        0 <= k < front.len() && (#[trigger] front[k]).name == name && holds(
                            front[k].kind,
                        );
                    assert(list[k] == front[k]);
                } else {
                    assert(list[list.len() - 1].name == name);
                }
            }
            if exists|k: int|
                0 <= k < list.len() && (#[trigger] list[k]).name == name && holds(list[k].kind) {
                let k = choose|k: int|
                    0 <= k < list.len() && (#[trigger] list[k]).name == name && holds(list[k].kind);
                if k < front.len() {
                    assert(front[k] == list[k]);
                    assert(before.contains(name));
                    let i = choose|i: int| 0 <= i < before.len() && before[i] == name;
                    assert(all[i] == name);
                } else {
                    assert(all[all.len() - 1] == name);
                }
            }
        }
    }
}

/// Strings are parsed in interpretations of strings; values are parsed in all
/// interpretations but those that only have output.
pub proof fn law_kinds_of_inputs(kind: InterpretationKind)
    ensures
        parse::is_string(kind) <==> kind is String,
        parse::is_input(kind) <==> !(kind is OutputOnly),
{
}

/// The name of a state of a chart starts with the name of the state it stands for on the
/// left, but for a search over a string, which numbers its states; behind it stands what
/// the state stands for on the right: the span of a string.
pub proof fn law_chart_states_are_named(
    kind: InterpretationKind,
    strategy: MaterializationStrategy,
    left: Seq<char>,
    right: Seq<char>,
    id: nat,
    span: (usize, usize),
)
    ensures
        ({
            let name = parse::product_name(kind, strategy, left, right, id as int);
            if kind is String && strategy is Astar {
                name == "q"@ + alto_ast::decimal(id)
            } else {
                &&& name.len() >= left.len() + right.len()
                &&& name.take(left.len() as int) == left
                &&& name.skip(name.len() - right.len()) == right
                &&& kind is String ==> name.len() == left.len() + right.len()
                &&& !(kind is String) ==> name.subrange(
                    left.len() as int,
                    name.len() - right.len(),
                ) == " × "@
            }
        }),
        ({
            let text = parse::span_text(span);
            let start = alto_ast::decimal(span.0 as nat);
            let end = alto_ast::decimal(span.1 as nat);
            let s = start.len() as int;
            let e = end.len() as int;
            &&& text.len() == s + e + 3
            &&& text.subrange(0, 1) == "["@
            &&& text.subrange(1, 1 + s) == start
            &&& text.subrange(1 + s, 2 + s) == ","@
            &&& text.subrange(2 + s, 2 + s + e) == end
            &&& text.skip(2 + s + e) == "]"@
        }),
{
    reveal_strlit("[");
    reveal_strlit(",");
    reveal_strlit("]");
    let name = parse::product_name(kind, strategy, left, right, id as int);
    if !(kind is String && strategy is Astar) {
        assert(name.take(left.len() as int) =~= left);
        assert(name.skip(name.len() - right.len()) =~= right);
        if !(kind is String) {
            assert(name.subrange(left.len() as int, name.len() - right.len()) =~= " × "@);
        }
    }
    let text = parse::span_text(span);
    let start = alto_ast::decimal(span.0 as nat);
    let end = alto_ast::decimal(span.1 as nat);
    let s = start.len() as int;
    let e = end.len() as int;
    assert(text.subrange(0, 1) =~= "["@);
    assert(text.subrange(1, 1 + s) =~= start);
    assert(text.subrange(1 + s, 2 + s) =~= ","@);
    assert(text.subrange(2 + s, 2 + s + e) =~= end);
    assert(text.skip(2 + s + e) =~= "]"@);
}

} // verus!
