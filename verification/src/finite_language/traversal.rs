//! What is left to enumerate while a derivation is being rewritten from right to left.
use crate::automaton;
use crate::automaton::Automaton;
use crate::finite_language::forests;
use crate::finite_language::forests::{Node, Slot};
use crate::ids::StateId;
use crate::language_analysis;
use crate::language_cardinality;
use crate::runs;
use vstd::prelude::*;

verus! {

/// The child states of a node.
pub open spec fn children_of(a: Automaton, node: Node) -> Seq<StateId> {
    a.rules[node.rule as int].children
}

/// The slots that follow the subtree of node `i` in pre-order.
pub open spec fn todo(a: Automaton, nodes: Seq<Node>, i: nat) -> Seq<Slot>
    decreases i,
{
    match nodes[i as int].place {
        None => Seq::empty(),
        Some((p, position)) => if p < i {
            forests::siblings(children_of(a, nodes[p as int]), p, position + 1) + todo(
                a,
                nodes,
                p,
            )
        } else {
            Seq::empty()
        },
    }
}

/// Whether a slot has its place below one of the first `n` nodes, and `rest` is what
/// follows it.
pub open spec fn slot_linked(
    a: Automaton,
    nodes: Seq<Node>,
    n: nat,
    e: Slot,
    rest: Seq<Slot>,
) -> bool {
    match e.place {
        None => rest.len() == 0,
        Some((p, position)) => {
            &&& p < n
            &&& position < children_of(a, nodes[p as int]).len()
            &&& e.state == children_of(a, nodes[p as int])[position as int]
            &&& rest == forests::siblings(
                children_of(a, nodes[p as int]),
                p,
                position + 1,
            ) + todo(a, nodes, p)
        },
    }
}

/// Whether all slots have their places below the first `n` nodes, in pre-order.
pub open spec fn linked(a: Automaton, nodes: Seq<Node>, n: nat, slots: Seq<Slot>) -> bool {
    forall|t: int|
        0 <= t < slots.len() ==> slot_linked(
            a,
            nodes,
            n,
            #[trigger] slots[t],
            slots.skip(t + 1),
        )
}

/// Whether node `j` selects a rule for its state that occurs in accepting derivations,
/// at a place below an earlier node.
pub open spec fn node_tied(a: Automaton, nodes: Seq<Node>, j: int) -> bool {
    let node = nodes[j];
    &&& node.rule < a.rules.len()
    &&& a.live(node.rule as int)
    &&& a.rules[node.rule as int].result == node.state
    &&& node == forests::node_for(
        a,
        node.rule,
        Slot { state: node.state, place: node.place, choice: 0 },
    )
    &&& match node.place {
        None => j == 0,
        Some((p, position)) => p < j && position < children_of(a, nodes[p as int]).len()
            && node.state == children_of(a, nodes[p as int])[position as int],
    }
}

/// Whether all nodes are tied to earlier ones.
pub open spec fn tied(a: Automaton, nodes: Seq<Node>) -> bool {
    forall|j: int| 0 <= j < nodes.len() ==> #[trigger] node_tied(a, nodes, j)
}

/// Whether `choices` says which option every node selects.
pub open spec fn chosen(a: Automaton, nodes: Seq<Node>, choices: Seq<nat>) -> bool {
    &&& choices.len() == nodes.len()
    &&& forall|j: int|
        0 <= j < nodes.len() ==> (#[trigger] choices[j]) < forests::options(
            a,
            nodes[j].state,
        ).len() && forests::options(a, nodes[j].state)[choices[j] as int] == nodes[j].rule
}

/// The slot that leaves node `i` to a later choice.
pub open spec fn later_slot(nodes: Seq<Node>, choices: Seq<nat>, i: int) -> Slot {
    Slot { state: nodes[i].state, place: nodes[i].place, choice: choices[i] + 1 }
}

/// The derivations that agree up to node `i` and choose a later option there.
pub open spec fn later(
    a: Automaton,
    nodes: Seq<Node>,
    choices: Seq<nat>,
    i: nat,
) -> Seq<Seq<Node>> {
    forests::prefixed(
        nodes.take(i as int),
        forests::words(
            a,
            seq![later_slot(nodes, choices, i as int)] + todo(a, nodes, i),
            i,
        ),
    )
}

/// The derivations that choose a later option at one of the listed nodes.
pub open spec fn remaining(
    a: Automaton,
    nodes: Seq<Node>,
    choices: Seq<nat>,
    alternatives: Seq<usize>,
) -> Seq<Seq<Node>>
    decreases alternatives.len(),
{
    if alternatives.len() == 0 {
        Seq::empty()
    } else {
        later(a, nodes, choices, alternatives.last() as nat) + remaining(
            a,
            nodes,
            choices,
            alternatives.drop_last(),
        )
    }
}

/// Whether the listed nodes have later options, and are listed in increasing order.
pub open spec fn open_alternatives(
    a: Automaton,
    nodes: Seq<Node>,
    choices: Seq<nat>,
    alternatives: Seq<usize>,
) -> bool {
    &&& forall|k: int|
        0 <= k < alternatives.len() ==> (#[trigger] alternatives[k]) < nodes.len()
            && choices[alternatives[k] as int] + 1 < forests::options(
            a,
            nodes[alternatives[k] as int].state,
        ).len()
    &&& forall|i: int, j: int|
        0 <= i < j < alternatives.len() ==> alternatives[i] < alternatives[j]
}

pub proof fn lemma_todo_stable(a: Automaton, x: Seq<Node>, y: Seq<Node>, i: nat)
    requires
        i < x.len(),
        i < y.len(),
        x.take(i as int + 1) == y.take(i as int + 1),
    ensures
        todo(a, x, i) == todo(a, y, i),
    decreases i,
{
    assert(x.take(i as int + 1)[i as int] == x[i as int]);
    assert(y.take(i as int + 1)[i as int] == y[i as int]);
    if let Some((p, position)) = x[i as int].place {
        if p < i {
            assert(x.take(p as int + 1) =~= x.take(i as int + 1).take(p as int + 1));
            assert(y.take(p as int + 1) =~= y.take(i as int + 1).take(p as int + 1));
            lemma_todo_stable(a, x, y, p);
            assert(x.take(p as int + 1)[p as int] == x[p as int]);
            assert(y.take(p as int + 1)[p as int] == y[p as int]);
        }
    }
}

pub proof fn lemma_linked_stable(
    a: Automaton,
    x: Seq<Node>,
    y: Seq<Node>,
    n: nat,
    m: nat,
    slots: Seq<Slot>,
)
    requires
        linked(a, x, n, slots),
        n <= m,
        n <= x.len(),
        n <= y.len(),
        x.take(n as int) == y.take(n as int),
    ensures
        linked(a, y, m, slots),
{
    assert forall|t: int| 0 <= t < slots.len() implies slot_linked(
        a,
        y,
        m,
        #[trigger] slots[t],
        slots.skip(t + 1),
    ) by {
        assert(slot_linked(a, x, n, slots[t], slots.skip(t + 1)));
        if let Some((p, position)) = slots[t].place {
            assert(x.take(p as int + 1) =~= x.take(n as int).take(p as int + 1));
            assert(y.take(p as int + 1) =~= y.take(n as int).take(p as int + 1));
            lemma_todo_stable(a, x, y, p);
            assert(x.take(n as int)[p as int] == x[p as int]);
            assert(y.take(n as int)[p as int] == y[p as int]);
        }
    }
}

/// The slots of later siblings, followed by what follows their parent, are linked.
pub proof fn lemma_siblings_linked(
    a: Automaton,
    nodes: Seq<Node>,
    n: nat,
    p: nat,
    from: nat,
    rest: Seq<Slot>,
)
    requires
        p < n,
        rest == todo(a, nodes, p),
        linked(a, nodes, n, rest),
    ensures
        linked(
            a,
            nodes,
            n,
            forests::siblings(children_of(a, nodes[p as int]), p, from) + rest,
        ),
{
    let children = children_of(a, nodes[p as int]);
    let head = forests::siblings(children, p, from);
    let all = head + rest;
    assert forall|t: int| 0 <= t < all.len() implies slot_linked(
        a,
        nodes,
        n,
        #[trigger] all[t],
        all.skip(t + 1),
    ) by {
        if t < head.len() {
            assert(all[t] == head[t]);
            assert(all.skip(t + 1) =~= forests::siblings(children, p, (from + t + 1) as nat) + rest);
        } else {
            let u = t - head.len();
            assert(all[t] == rest[u]);
            assert(all.skip(t + 1) =~= rest.skip(u + 1));
            assert(slot_linked(a, nodes, n, rest[u], rest.skip(u + 1)));
        }
    }
}

/// What follows a node is linked to earlier nodes.
pub proof fn lemma_todo_linked(a: Automaton, nodes: Seq<Node>, i: nat)
    requires
        tied(a, nodes),
        i < nodes.len(),
    ensures
        linked(a, nodes, i, todo(a, nodes, i)),
    decreases i,
{
    assert(node_tied(a, nodes, i as int));
    if let Some((p, position)) = nodes[i as int].place {
        lemma_todo_linked(a, nodes, p);
        lemma_linked_stable(a, nodes, nodes, p, i, todo(a, nodes, p));
        lemma_siblings_linked(a, nodes, i, p, position + 1, todo(a, nodes, p));
    }
}

/// What follows a node can be filled.
pub proof fn lemma_todo_fillable(a: Automaton, order: Seq<StateId>, nodes: Seq<Node>, i: nat)
    requires
        forests::finite(a, order),
        tied(a, nodes),
        i < nodes.len(),
    ensures
        forests::fillable(a, todo(a, nodes, i)),
    decreases i,
{
    assert(node_tied(a, nodes, i as int));
    if let Some((p, position)) = nodes[i as int].place {
        lemma_todo_fillable(a, order, nodes, p);
        assert(node_tied(a, nodes, p as int));
        forests::lemma_children_fillable(a, order, nodes[p as int].rule, p);
        let children = children_of(a, nodes[p as int]);
        let all = forests::siblings(children, p, 0);
        let head = forests::siblings(children, p, position + 1);
        let rest = todo(a, nodes, p);
        let slots = todo(a, nodes, i);
        assert forall|t: int| 0 <= t < slots.len() implies forests::slot_fillable(
            a,
            #[trigger] slots[t],
        ) by {
            if t < head.len() {
                assert(slots[t] == head[t]);
                assert(head[t] == all[position + 1 + t]);
            } else {
                assert(slots[t] == rest[t - head.len()]);
            }
        }
    }
}

proof fn lemma_later_stable(
    a: Automaton,
    x: Seq<Node>,
    cx: Seq<nat>,
    y: Seq<Node>,
    cy: Seq<nat>,
    n: nat,
    i: nat,
)
    requires
        i < n <= x.len(),
        n <= y.len(),
        n <= cx.len(),
        n <= cy.len(),
        x.take(n as int) == y.take(n as int),
        cx.take(n as int) == cy.take(n as int),
    ensures
        later(a, x, cx, i) == later(a, y, cy, i),
{
    assert(x.take(i as int + 1) =~= x.take(n as int).take(i as int + 1));
    assert(y.take(i as int + 1) =~= y.take(n as int).take(i as int + 1));
    lemma_todo_stable(a, x, y, i);
    assert(x.take(i as int) =~= x.take(n as int).take(i as int));
    assert(y.take(i as int) =~= y.take(n as int).take(i as int));
    assert(x.take(n as int)[i as int] == x[i as int]);
    assert(y.take(n as int)[i as int] == y[i as int]);
    assert(cx.take(n as int)[i as int] == cx[i as int]);
    assert(cy.take(n as int)[i as int] == cy[i as int]);
}

/// What remains at the listed nodes depends on the nodes up to the last of them.
pub proof fn lemma_remaining_stable(
    a: Automaton,
    x: Seq<Node>,
    cx: Seq<nat>,
    y: Seq<Node>,
    cy: Seq<nat>,
    n: nat,
    alternatives: Seq<usize>,
)
    requires
        n <= x.len(),
        n <= y.len(),
        n <= cx.len(),
        n <= cy.len(),
        x.take(n as int) == y.take(n as int),
        cx.take(n as int) == cy.take(n as int),
        forall|k: int| 0 <= k < alternatives.len() ==> (#[trigger] alternatives[k]) < n,
    ensures
        remaining(a, x, cx, alternatives) == remaining(a, y, cy, alternatives),
    decreases alternatives.len(),
{
    if alternatives.len() > 0 {
        let fewer = alternatives.drop_last();
        assert forall|k: int| 0 <= k < fewer.len() implies (#[trigger] fewer[k]) < n by {
            assert(fewer[k] == alternatives[k]);
        }
        lemma_remaining_stable(a, x, cx, y, cy, n, fewer);
        assert(alternatives[alternatives.len() - 1] < n);
        lemma_later_stable(a, x, cx, y, cy, n, alternatives.last() as nat);
    }
}

pub proof fn lemma_remaining_add(
    a: Automaton,
    nodes: Seq<Node>,
    choices: Seq<nat>,
    x: Seq<usize>,
    y: Seq<usize>,
)
    ensures
        remaining(a, nodes, choices, x + y) == remaining(a, nodes, choices, y) + remaining(
            a,
            nodes,
            choices,
            x,
        ),
    decreases y.len(),
{
    if y.len() == 0 {
        assert(x + y =~= x);
        assert(remaining(a, nodes, choices, y) + remaining(a, nodes, choices, x) =~= remaining(
            a,
            nodes,
            choices,
            x,
        ));
    } else {
        lemma_remaining_add(a, nodes, choices, x, y.drop_last());
        assert((x + y).drop_last() =~= x + y.drop_last());
        assert((x + y).last() == y.last());
        assert(remaining(a, nodes, choices, x + y) =~= remaining(a, nodes, choices, y) + remaining(
            a,
            nodes,
            choices,
            x,
        ));
    }
}

/// Some derivation fills a slot.
proof fn lemma_slot_run(a: Automaton, order: Seq<StateId>, e: Slot)
    requires
        forests::finite(a, order),
        forests::slot_fillable(a, e),
    ensures
        forests::slot_runs(a, e).len() > 0,
{
    let rules = automaton::rule_shapes(a.rules);
    let list = forests::options(a, e.state);
    let part = list.skip(e.choice as int);
    forests::lemma_options(a, e.state, a.rules.len());
    let i = part.last();
    assert(i == list[list.len() - 1]);
    let children = a.rules[i as int].children;
    language_cardinality::lemma_order_len(rules, a.accepting, order, a.states);
    forests::lemma_runs_by_options(a, order, e.state);
    assert(rules[i as int].children == children);
    assert forall|p: int| 0 <= p < children.len() implies runs::runs_of(
        rules,
        #[trigger] children[p],
        a.states,
    ).len() > 0 by {
        language_cardinality::lemma_child_stable(
            rules,
            a.accepting,
            order,
            i as int,
            p,
            a.states,
        );
        assert(language_analysis::is_productive(rules, rules[i as int].children[p]));
        language_cardinality::lemma_relevant_has_run(
            rules,
            a.accepting,
            order,
            children[p],
            a.states,
        );
    }
    language_cardinality::lemma_tuple_positive(rules, children, a.states);
    runs::lemma_tuple_count(rules, children, a.states);
    assert(forests::rooted(a, i).len() > 0);
}

/// Fillable slots can be filled.
pub proof fn lemma_some_filling(a: Automaton, order: Seq<StateId>, slots: Seq<Slot>, from: nat)
    requires
        forests::finite(a, order),
        forests::fillable(a, slots),
    ensures
        forests::words(a, slots, from).len() > 0,
    decreases slots.len(),
{
    if slots.len() > 0 {
        let rest = slots.skip(1);
        assert forall|j: int| 0 <= j < rest.len() implies forests::slot_fillable(
            a,
            #[trigger] rest[j],
        ) by {
            assert(rest[j] == slots[j + 1]);
        }
        lemma_some_filling(a, order, rest, from);
        assert(forests::slot_fillable(a, slots[0]));
        lemma_slot_run(a, order, slots[0]);
        let xs = forests::slot_runs(a, slots[0]);
        assert(forests::ahead(xs.last(), forests::fillings(a, rest)).len() > 0);
    }
}

/// The first filling of the slots starts with the first choice.
pub proof fn lemma_first_word(a: Automaton, order: Seq<StateId>, slots: Seq<Slot>, from: nat)
    requires
        forests::finite(a, order),
        forests::fillable(a, slots),
        slots.len() > 0,
    ensures
        ({
            let i = forests::options(a, slots[0].state)[slots[0].choice as int];
            forests::words(a, slots, from)[0].len() == 1 + forests::words(
                a,
                forests::siblings(a.rules[i as int].children, from, 0) + slots.skip(1),
                from + 1,
            )[0].len()
        }),
{
    let i = forests::options(a, slots[0].state)[slots[0].choice as int];
    assert(forests::slot_fillable(a, slots[0]));
    forests::lemma_options(a, slots[0].state, a.rules.len());
    forests::lemma_unfold(a, order, slots, from);
    let below = forests::siblings(a.rules[i as int].children, from, 0);
    forests::lemma_children_fillable(a, order, i, from);
    let next = below + slots.skip(1);
    assert forall|j: int| 0 <= j < next.len() implies forests::slot_fillable(
        a,
        #[trigger] next[j],
    ) by {
        if j < below.len() {
            assert(next[j] == below[j]);
        } else {
            assert(next[j] == slots[j - below.len() + 1]);
        }
    }
    lemma_some_filling(a, order, next, from + 1);
    let head = forests::prefixed(
        seq![forests::node_for(a, i, slots[0])],
        forests::words(a, next, from + 1),
    );
    assert(forests::words(a, slots, from)[0] == head[0]);
}

} // verus!
