//! What the enumeration of a finite language guarantees.
use crate::automaton;
use crate::automaton::Automaton;
use crate::finite_language::forests;
use crate::finite_language::forests::{Node, Slot};
use crate::finite_language::plan;
use crate::ids::StateId;
use crate::language_cardinality;
use crate::runs;
use crate::runs::Run;
use vstd::prelude::*;

verus! {

proof fn lemma_taller(run: Run, j: nat, k: nat)
    requires
        runs::height_at_most(run, j),
        j <= k,
    ensures
        runs::height_at_most(run, k),
    decreases run,
{
    assert forall|p: int| 0 <= p < run.children.len() implies runs::height_at_most(
        #[trigger] run.children[p],
        (k - 1) as nat,
    ) by {
        lemma_taller(run.children[p], (j - 1) as nat, (k - 1) as nat);
    }
}

/// Every derivation has some height.
proof fn lemma_some_height(run: Run) -> (k: nat)
    ensures
        runs::height_at_most(run, k),
    decreases run,
{
    lemma_heights(run.children) + 1
}

proof fn lemma_heights(list: Seq<Run>) -> (k: nat)
    ensures
        forall|p: int| 0 <= p < list.len() ==> runs::height_at_most(#[trigger] list[p], k),
    decreases list,
{
    if list.len() == 0 {
        0
    } else {
        let front = list.drop_last();
        let j = lemma_heights(front);
        let h = lemma_some_height(list.last());
        let k = if j <= h { h } else { j };
        assert forall|p: int| 0 <= p < list.len() implies runs::height_at_most(
            #[trigger] list[p],
            k,
        ) by {
            if p < front.len() {
                assert(list[p] == front[p]);
                lemma_taller(front[p], j, k);
            } else {
                lemma_taller(list.last(), h, k);
            }
        }
        k
    }
}

/// Whether the derivations end in the states of the slots.
spec fn runs_for(a: Automaton, list: Seq<Run>, slots: Seq<Slot>) -> bool {
    &&& list.len() == slots.len()
    &&& forall|p: int|
        0 <= p < list.len() ==> runs::is_run(
            automaton::rule_shapes(a.rules),
            #[trigger] list[p],
            slots[p].state,
        )
}

proof fn lemma_nodes_prefix(
    a: Automaton,
    x: Run,
    y: Run,
    e: Slot,
    from: nat,
    u: Seq<Node>,
    v: Seq<Node>,
)
    requires
        runs::is_run(automaton::rule_shapes(a.rules), x, e.state),
        runs::is_run(automaton::rule_shapes(a.rules), y, e.state),
        forests::nodes_of(a, x, e, from) + u == forests::nodes_of(a, y, e, from) + v,
    ensures
        x == y,
        u == v,
    decreases x,
{
    let rules = automaton::rule_shapes(a.rules);
    let slots = forests::siblings(a.rules[x.rule as int].children, from, 0);
    let left = forests::nodes_of(a, x, e, from) + u;
    let right = forests::nodes_of(a, y, e, from) + v;
    assert(left[0] == forests::node_for(a, x.rule, e));
    assert(right[0] == forests::node_for(a, y.rule, e));
    assert(x.rule == y.rule);
    let xs = forests::nodes_in(a, x.children, slots, from + 1);
    let ys = forests::nodes_in(a, y.children, slots, from + 1);
    assert(left.skip(1) =~= xs + u);
    assert(right.skip(1) =~= ys + v);
    assert(runs_for(a, x.children, slots)) by {
        assert forall|p: int| 0 <= p < x.children.len() implies runs::is_run(
            rules,
            #[trigger] x.children[p],
            slots[p].state,
        ) by {
            assert(rules[x.rule as int].children[p] == slots[p].state);
        }
    }
    assert(runs_for(a, y.children, slots)) by {
        assert forall|p: int| 0 <= p < y.children.len() implies runs::is_run(
            rules,
            #[trigger] y.children[p],
            slots[p].state,
        ) by {
            assert(rules[y.rule as int].children[p] == slots[p].state);
        }
    }
    lemma_list_prefix(a, x.children, y.children, slots, from + 1, u, v);
}

proof fn lemma_list_prefix(
    a: Automaton,
    xs: Seq<Run>,
    ys: Seq<Run>,
    slots: Seq<Slot>,
    from: nat,
    u: Seq<Node>,
    v: Seq<Node>,
)
    requires
        runs_for(a, xs, slots),
        runs_for(a, ys, slots),
        forests::nodes_in(a, xs, slots, from) + u == forests::nodes_in(a, ys, slots, from) + v,
    ensures
        xs == ys,
        u == v,
    decreases xs,
{
    if xs.len() == 0 {
        assert(forests::nodes_in(a, xs, slots, from) + u =~= u);
        assert(forests::nodes_in(a, ys, slots, from) + v =~= v);
        assert(xs =~= ys);
    } else {
        let x = forests::nodes_of(a, xs[0], slots[0], from);
        let y = forests::nodes_of(a, ys[0], slots[0], from);
        let more_x = forests::nodes_in(a, xs.skip(1), slots.skip(1), from + x.len());
        let more_y = forests::nodes_in(a, ys.skip(1), slots.skip(1), from + y.len());
        assert((x + more_x) + u =~= x + (more_x + u));
        assert((y + more_y) + v =~= y + (more_y + v));
        lemma_nodes_prefix(a, xs[0], ys[0], slots[0], from, more_x + u, more_y + v);
        assert(runs_for(a, xs.skip(1), slots.skip(1))) by {
            assert forall|p: int| 0 <= p < xs.skip(1).len() implies runs::is_run(
                automaton::rule_shapes(a.rules),
                #[trigger] xs.skip(1)[p],
                slots.skip(1)[p].state,
            ) by {
                assert(xs.skip(1)[p] == xs[p + 1]);
                assert(slots.skip(1)[p] == slots[p + 1]);
            }
        }
        assert(runs_for(a, ys.skip(1), slots.skip(1))) by {
            assert forall|p: int| 0 <= p < ys.skip(1).len() implies runs::is_run(
                automaton::rule_shapes(a.rules),
                #[trigger] ys.skip(1)[p],
                slots.skip(1)[p].state,
            ) by {
                assert(ys.skip(1)[p] == ys[p + 1]);
                assert(slots.skip(1)[p] == slots[p + 1]);
            }
        }
        lemma_list_prefix(a, xs.skip(1), ys.skip(1), slots.skip(1), from + x.len(), u, v);
        assert(xs =~= seq![xs[0]] + xs.skip(1));
        assert(ys =~= seq![ys[0]] + ys.skip(1));
    }
}

/// Every accepting derivation of a finite language is enumerated, and there are as many
/// as the cardinality says.
pub proof fn law_enumeration_is_complete(a: Automaton, order: Seq<StateId>, run: Run, q: StateId)
    requires
        forests::finite(a, order),
        a.accepting.contains(q),
        runs::is_run(automaton::rule_shapes(a.rules), run, q),
    ensures
        plan::derivations(a).len() == language_cardinality::derivation_count(a),
        plan::derivations(a).contains(plan::derivation_nodes(a, run)),
{
    let h = lemma_some_height(run);
    let k = if h <= a.states { a.states } else { h };
    lemma_taller(run, h, k);
    runs::law_accepting_runs_complete(a, k);
    language_cardinality::law_finite_language_is_complete(a, order, k);
    let list = runs::accepting_runs(a, a.states);
    assert(list.contains(run));
    let j = choose|j: int| 0 <= j < list.len() && list[j] == run;
    assert(plan::derivations(a)[j] == plan::derivation_nodes(a, run));
}

/// Nothing but accepting derivations is enumerated.
pub proof fn law_enumerated_derivations_accept(a: Automaton, i: int)
    requires
        a.well_formed(),
        0 <= i < plan::derivations(a).len(),
    ensures
        exists|run: Run, q: StateId|
            a.accepting.contains(q) && #[trigger] runs::is_run(
                automaton::rule_shapes(a.rules),
                run,
                q,
            ) && plan::derivations(a)[i] == plan::derivation_nodes(a, run),
{
    let rules = automaton::rule_shapes(a.rules);
    runs::law_accepting_runs_complete(a, a.states);
    let list = runs::accepting_runs(a, a.states);
    assert(list.contains(list[i]));
    let q = choose|q: StateId|
        a.accepting.contains(q) && #[trigger] runs::is_run(rules, list[i], q);
    assert(runs::is_run(rules, list[i], q));
    assert(plan::derivations(a)[i] == plan::derivation_nodes(a, list[i]));
}

/// No derivation is enumerated twice: two derivations of one tree that differ in a rule
/// are kept apart, and each comes once.
pub proof fn law_enumerated_derivations_differ(a: Automaton, i: int, j: int)
    requires
        a.well_formed(),
        0 <= i < j < plan::derivations(a).len(),
    ensures
        plan::derivations(a)[i] != plan::derivations(a)[j],
{
    let rules = automaton::rule_shapes(a.rules);
    runs::law_accepting_runs_complete(a, a.states);
    let list = runs::accepting_runs(a, a.states);
    let x = list[i];
    let y = list[j];
    assert(list.contains(x));
    assert(list.contains(y));
    let q = choose|q: StateId| a.accepting.contains(q) && #[trigger] runs::is_run(rules, x, q);
    let r = choose|r: StateId| a.accepting.contains(r) && #[trigger] runs::is_run(rules, y, r);
    assert(plan::derivations(a)[i] == plan::derivation_nodes(a, x));
    assert(plan::derivations(a)[j] == plan::derivation_nodes(a, y));
    assert(a.rules[x.rule as int].result == q);
    assert(a.rules[y.rule as int].result == r);
    if plan::derivations(a)[i] == plan::derivations(a)[j] {
        let left = plan::derivation_nodes(a, x);
        let right = plan::derivation_nodes(a, y);
        assert(left[0] == forests::node_for(a, x.rule, plan::root_slot(q)));
        assert(right[0] == forests::node_for(a, y.rule, plan::root_slot(r)));
        assert(q == r);
        let none = Seq::<Node>::empty();
        assert(left + none =~= left);
        assert(right + none =~= right);
        lemma_nodes_prefix(a, x, y, plan::root_slot(q), 0, none, none);
        assert(x != y);
    }
}

/// The rule numbers of nodes.
pub open spec fn rule_numbers(nodes: Seq<Node>) -> Seq<nat> {
    Seq::new(nodes.len(), |k: int| nodes[k].rule)
}

/// The rule numbers of a derivation, root first and from left to right.
spec fn preorder(run: Run) -> Seq<nat>
    decreases run,
{
    seq![run.rule] + preorders(run.children)
}

spec fn preorders(list: Seq<Run>) -> Seq<nat>
    decreases list,
{
    if list.len() == 0 {
        Seq::empty()
    } else {
        preorder(list[0]) + preorders(list.skip(1))
    }
}

/// Whether a derivation ends in some state.
spec fn is_some_run(a: Automaton, run: Run) -> bool {
    exists|s: StateId| #[trigger] runs::is_run(automaton::rule_shapes(a.rules), run, s)
}

proof fn lemma_rule_numbers(a: Automaton, run: Run, e: Slot, from: nat, q: StateId)
    requires
        runs::is_run(automaton::rule_shapes(a.rules), run, q),
    ensures
        rule_numbers(forests::nodes_of(a, run, e, from)) == preorder(run),
    decreases run,
{
    let children = a.rules[run.rule as int].children;
    let slots = forests::siblings(children, from, 0);
    assert forall|p: int| 0 <= p < run.children.len() implies is_some_run(
        a,
        #[trigger] run.children[p],
    ) by {
        assert(runs::is_run(automaton::rule_shapes(a.rules), run.children[p], children[p]));
    }
    lemma_rule_numbers_in(a, run.children, slots, from + 1);
    assert(rule_numbers(forests::nodes_of(a, run, e, from)) =~= preorder(run));
}

proof fn lemma_rule_numbers_in(a: Automaton, tuple: Seq<Run>, slots: Seq<Slot>, from: nat)
    requires
        tuple.len() == slots.len(),
        forall|p: int| 0 <= p < tuple.len() ==> is_some_run(a, #[trigger] tuple[p]),
    ensures
        rule_numbers(forests::nodes_in(a, tuple, slots, from)) == preorders(tuple),
    decreases tuple,
{
    if tuple.len() > 0 {
        assert(is_some_run(a, tuple[0]));
        let q = choose|s: StateId| #[trigger]
            runs::is_run(automaton::rule_shapes(a.rules), tuple[0], s);
        lemma_rule_numbers(a, tuple[0], slots[0], from, q);
        let first = forests::nodes_of(a, tuple[0], slots[0], from);
        let rest = tuple.skip(1);
        assert forall|p: int| 0 <= p < rest.len() implies is_some_run(a, #[trigger] rest[p]) by {
            assert(rest[p] == tuple[p + 1]);
        }
        lemma_rule_numbers_in(a, rest, slots.skip(1), from + first.len());
        assert(rule_numbers(forests::nodes_in(a, tuple, slots, from)) =~= preorders(tuple));
    } else {
        assert(rule_numbers(forests::nodes_in(a, tuple, slots, from)) =~= preorders(tuple));
    }
}

/// Rule numbers in pre-order determine a derivation and where it ends.
proof fn lemma_preorder_prefix(
    a: Automaton,
    x: Run,
    y: Run,
    p: StateId,
    q: StateId,
    s: Seq<nat>,
    t: Seq<nat>,
)
    requires
        runs::is_run(automaton::rule_shapes(a.rules), x, p),
        runs::is_run(automaton::rule_shapes(a.rules), y, q),
        preorder(x) + s == preorder(y) + t,
    ensures
        x == y,
        s == t,
    decreases x,
{
    let left = preorder(x) + s;
    let right = preorder(y) + t;
    assert(left[0] == x.rule);
    assert(right[0] == y.rule);
    assert(left.skip(1) =~= preorders(x.children) + s);
    assert(right.skip(1) =~= preorders(y.children) + t);
    let states = a.rules[x.rule as int].children;
    assert forall|k: int| 0 <= k < x.children.len() implies runs::is_run(
        automaton::rule_shapes(a.rules),
        #[trigger] x.children[k],
        states[k],
    ) by {}
    assert forall|k: int| 0 <= k < y.children.len() implies runs::is_run(
        automaton::rule_shapes(a.rules),
        #[trigger] y.children[k],
        states[k],
    ) by {}
    lemma_preorders_prefix(a, x.children, y.children, states, s, t);
}

proof fn lemma_preorders_prefix(
    a: Automaton,
    xs: Seq<Run>,
    ys: Seq<Run>,
    states: Seq<StateId>,
    s: Seq<nat>,
    t: Seq<nat>,
)
    requires
        xs.len() == states.len(),
        ys.len() == states.len(),
        forall|k: int|
            0 <= k < xs.len() ==> runs::is_run(
                automaton::rule_shapes(a.rules),
                #[trigger] xs[k],
                states[k],
            ),
        forall|k: int|
            0 <= k < ys.len() ==> runs::is_run(
                automaton::rule_shapes(a.rules),
                #[trigger] ys[k],
                states[k],
            ),
        preorders(xs) + s == preorders(ys) + t,
    ensures
        xs == ys,
        s == t,
    decreases xs,
{
    if xs.len() == 0 {
        assert(preorders(xs) + s =~= s);
        assert(preorders(ys) + t =~= t);
        assert(xs =~= ys);
    } else {
        let xr = xs.skip(1);
        let yr = ys.skip(1);
        let sr = states.skip(1);
        assert(preorder(xs[0]) + (preorders(xr) + s) =~= preorders(xs) + s);
        assert(preorder(ys[0]) + (preorders(yr) + t) =~= preorders(ys) + t);
        lemma_preorder_prefix(
            a,
            xs[0],
            ys[0],
            states[0],
            states[0],
            preorders(xr) + s,
            preorders(yr) + t,
        );
        assert forall|k: int| 0 <= k < xr.len() implies runs::is_run(
            automaton::rule_shapes(a.rules),
            #[trigger] xr[k],
            sr[k],
        ) by {
            assert(xr[k] == xs[k + 1]);
        }
        assert forall|k: int| 0 <= k < yr.len() implies runs::is_run(
            automaton::rule_shapes(a.rules),
            #[trigger] yr[k],
            sr[k],
        ) by {
            assert(yr[k] == ys[k + 1]);
        }
        lemma_preorders_prefix(a, xr, yr, sr, s, t);
        assert(xs =~= seq![xs[0]] + xr);
        assert(ys =~= seq![ys[0]] + yr);
    }
}

/// The rule numbers of enumerated derivations, read root first and from left to right, are
/// pairwise different.
pub proof fn law_enumerated_rule_numbers_differ(a: Automaton, i: int, j: int)
    requires
        a.well_formed(),
        0 <= i < j < plan::derivations(a).len(),
    ensures
        rule_numbers(plan::derivations(a)[i]) != rule_numbers(plan::derivations(a)[j]),
{
    let rules = automaton::rule_shapes(a.rules);
    runs::law_accepting_runs_complete(a, a.states);
    let list = runs::accepting_runs(a, a.states);
    let x = list[i];
    let y = list[j];
    assert(list.contains(x));
    assert(list.contains(y));
    let q = choose|q: StateId| a.accepting.contains(q) && #[trigger] runs::is_run(rules, x, q);
    let r = choose|r: StateId| a.accepting.contains(r) && #[trigger] runs::is_run(rules, y, r);
    assert(plan::derivations(a)[i] == plan::derivation_nodes(a, x));
    assert(plan::derivations(a)[j] == plan::derivation_nodes(a, y));
    lemma_rule_numbers(a, x, plan::root_slot(a.rules[x.rule as int].result), 0, q);
    lemma_rule_numbers(a, y, plan::root_slot(a.rules[y.rule as int].result), 0, r);
    if preorder(x) == preorder(y) {
        let none = Seq::<nat>::empty();
        assert(preorder(x) + none =~= preorder(x));
        assert(preorder(y) + none =~= preorder(y));
        lemma_preorder_prefix(a, x, y, q, r, none, none);
        assert(x != y);
    }
}

} // verus!
