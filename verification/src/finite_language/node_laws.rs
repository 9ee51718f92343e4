//! The nodes of an enumerated derivation describe it.
use super::forests;
use super::forests::{Node, Slot};
use super::plan;
use crate::automaton;
use crate::automaton::Automaton;
use crate::ids::StateId;
use crate::runs;
use crate::runs::Run;
use vstd::prelude::*;

verus! {

/// Whether a node says what a rule says: its symbol, weight, arity and result.
pub open spec fn says_rule(a: Automaton, node: Node, rule: nat) -> bool {
    &&& rule < a.rules.len()
    &&& node.rule == rule
    &&& node.symbol == a.rules[rule as int].symbol
    &&& node.weight == a.rules[rule as int].weight
    &&& node.arity == a.rules[rule as int].children.len()
    &&& node.state == a.rules[rule as int].result
}

/// The number of rules that a derivation applies.
pub open spec fn applied(run: Run) -> nat
    decreases run,
{
    1 + all_applied(run.children)
}

/// The number of rules that derivations apply.
pub open spec fn all_applied(list: Seq<Run>) -> nat
    decreases list,
{
    if list.len() == 0 {
        0
    } else {
        applied(list[0]) + all_applied(list.skip(1))
    }
}

/// Whether node `i` describes a derivation: it says what the rule at the root says, and the
/// nodes behind it describe the children from left to right, each naming `i` and the child's
/// position.
pub open spec fn describes(a: Automaton, all: Seq<Node>, i: int, run: Run) -> bool
    decreases run, 0nat,
{
    &&& 0 <= i < all.len()
    &&& says_rule(a, all[i], run.rule)
    &&& all[i].arity == run.children.len()
    &&& forall|c: int|
        0 <= c < run.children.len() ==> is_placed(
            a,
            all,
            i + 1 + all_applied(run.children.take(c)),
            #[trigger] run.children[c],
            Some((i as nat, c as nat)),
        )
}

/// Whether a node describes a derivation and stands in a place.
pub open spec fn is_placed(
    a: Automaton,
    all: Seq<Node>,
    j: int,
    run: Run,
    place: Option<(nat, nat)>,
) -> bool
    decreases run, 1nat,
{
    all[j].place == place && describes(a, all, j, run)
}

/// Whether nodes lie in a list from a place on.
spec fn lies(all: Seq<Node>, from: int, part: Seq<Node>) -> bool {
    0 <= from && from + part.len() <= all.len() && forall|k: int|
        0 <= k < part.len() ==> #[trigger] part[k] == all[from + k]
}

proof fn lemma_split(all: Seq<Node>, from: int, x: Seq<Node>, y: Seq<Node>)
    requires
        lies(all, from, x + y),
    ensures
        lies(all, from, x),
        lies(all, from + x.len(), y),
{
    assert forall|k: int| 0 <= k < x.len() implies #[trigger] x[k] == all[from + k] by {
        assert((x + y)[k] == all[from + k]);
    }
    assert forall|k: int| 0 <= k < y.len() implies #[trigger] y[k] == all[from + x.len() + k] by {
        assert((x + y)[x.len() + k] == all[from + (x.len() + k)]);
    }
}

/// Where child `c` of a list of derivations starts.
spec fn start(list: Seq<Run>, from: int, c: int) -> int {
    from + all_applied(list.take(c))
}

proof fn lemma_nodes(a: Automaton, all: Seq<Node>, run: Run, e: Slot, from: nat)
    requires
        runs::is_run(automaton::rule_shapes(a.rules), run, e.state),
        lies(all, from as int, forests::nodes_of(a, run, e, from)),
    ensures
        describes(a, all, from as int, run),
        all[from as int].place == e.place,
        forests::nodes_of(a, run, e, from).len() == applied(run),
    decreases run,
{
    let shapes = automaton::rule_shapes(a.rules);
    let children = a.rules[run.rule as int].children;
    assert(shapes[run.rule as int] == automaton::shape_of(a.rules[run.rule as int]));
    let slots = forests::siblings(children, from, 0);
    let root = forests::node_for(a, run.rule, e);
    let below = forests::nodes_in(a, run.children, slots, from + 1);
    lemma_split(all, from as int, seq![root], below);
    assert(seq![root][0] == all[from as int + 0]);
    assert forall|p: int| 0 <= p < run.children.len() implies runs::is_run(
        shapes,
        #[trigger] run.children[p],
        slots[p].state,
    ) by {
        assert(slots[p].state == children[0 + p]);
    }
    lemma_nodes_in(a, all, run.children, slots, from + 1);
    assert(all[from as int] == root);
    assert(says_rule(a, all[from as int], run.rule));
    assert(all[from as int].arity == run.children.len());
    assert(from < all.len());
    assert forall|c: int| 0 <= c < run.children.len() implies is_placed(
        a,
        all,
        from as int + 1 + all_applied(run.children.take(c)),
        #[trigger] run.children[c],
        Some((from, c as nat)),
    ) by {
        let j = start(run.children, from as int + 1, c);
        assert(is_placed(a, all, j, run.children[c], slots[c].place));
        assert(slots[c].place == Some((from, c as nat)));
    }
}

proof fn lemma_nodes_in(a: Automaton, all: Seq<Node>, tuple: Seq<Run>, slots: Seq<Slot>, from: nat)
    requires
        tuple.len() == slots.len(),
        forall|p: int|
            0 <= p < tuple.len() ==> runs::is_run(
                automaton::rule_shapes(a.rules),
                #[trigger] tuple[p],
                slots[p].state,
            ),
        lies(all, from as int, forests::nodes_in(a, tuple, slots, from)),
    ensures
        forests::nodes_in(a, tuple, slots, from).len() == all_applied(tuple),
        forall|p: int|
            0 <= p < tuple.len() ==> is_placed(
                a,
                all,
                start(tuple, from as int, p),
                #[trigger] tuple[p],
                slots[p].place,
            ),
    decreases tuple,
{
    if tuple.len() > 0 {
        let first = forests::nodes_of(a, tuple[0], slots[0], from);
        let rest = tuple.skip(1);
        let others = slots.skip(1);
        lemma_split(
            all,
            from as int,
            first,
            forests::nodes_in(a, rest, others, from + first.len()),
        );
        assert(runs::is_run(automaton::rule_shapes(a.rules), tuple[0], slots[0].state));
        lemma_nodes(a, all, tuple[0], slots[0], from);
        assert forall|p: int| 0 <= p < rest.len() implies runs::is_run(
            automaton::rule_shapes(a.rules),
            #[trigger] rest[p],
            others[p].state,
        ) by {
            assert(rest[p] == tuple[p + 1]);
            assert(others[p] == slots[p + 1]);
        }
        lemma_nodes_in(a, all, rest, others, from + first.len());
        assert forall|p: int| 0 <= p < tuple.len() implies is_placed(
            a,
            all,
            start(tuple, from as int, p),
            #[trigger] tuple[p],
            slots[p].place,
        ) by {
            if p > 0 {
                assert(rest[p - 1] == tuple[p]);
                assert(others[p - 1] == slots[p]);
                assert(tuple.take(p).skip(1) =~= rest.take(p - 1));
                assert(tuple.take(p)[0] == tuple[0]);
                assert(all_applied(tuple.take(p)) == applied(tuple[0]) + all_applied(
                    rest.take(p - 1),
                ));
                assert(is_placed(
                    a,
                    all,
                    start(rest, from as int + first.len(), p - 1),
                    rest[p - 1],
                    others[p - 1].place,
                ));
                assert(start(tuple, from as int, p) == start(
                    rest,
                    from as int + first.len(),
                    p - 1,
                ));
            } else {
                assert(all_applied(tuple.take(0)) == 0);
            }
        }
    }
}

/// The nodes of an enumerated derivation describe it, from the root on: every node has the
/// symbol, the weight and the result of its rule, and names its parent and its position.
pub proof fn law_nodes_describe_derivations(a: Automaton, run: Run, q: StateId)
    requires
        runs::is_run(automaton::rule_shapes(a.rules), run, q),
    ensures
        describes(a, plan::derivation_nodes(a, run), 0, run),
        plan::derivation_nodes(a, run)[0].place is None,
{
    let all = plan::derivation_nodes(a, run);
    let shapes = automaton::rule_shapes(a.rules);
    assert(shapes[run.rule as int] == automaton::shape_of(a.rules[run.rule as int]));
    assert(lies(all, 0, all));
    lemma_nodes(a, all, run, plan::root_slot(q), 0);
}

} // verus!
