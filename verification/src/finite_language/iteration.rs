//! Enumerating the derivations of a plan, one after the other.
use crate::automaton::Automaton;
use crate::finite_language::forests;
use crate::finite_language::forests::{Node, Slot};
use crate::finite_language::plan;
use crate::finite_language::plan::{FiniteLanguagePlan, PlannedRule};
use crate::finite_language::traversal;
use crate::ids::{StateId, Symbol};
use crate::weight::Weight;
use vstd::prelude::*;

verus! {

/// One node in the currently selected accepting derivation.
///
/// Rule numbers refer to the rule order of the automaton.
#[derive(Debug)]
pub struct DerivationNode<'a> {
    rule: &'a PlannedRule,
    state: StateId,
    place: Option<(usize, usize)>,
    choice: usize,
}

/// The place of a node or slot.
pub open spec fn place_of(place: Option<(usize, usize)>) -> Option<(nat, nat)> {
    match place {
        Some((p, position)) => Some((p as nat, position as nat)),
        None => None,
    }
}

impl<'a> View for DerivationNode<'a> {
    type V = Node;

    closed spec fn view(&self) -> Node {
        Node {
            state: self.state,
            rule: self.rule.number(),
            symbol: self.rule.label(),
            weight: self.rule.cost(),
            arity: self.rule.below().len(),
            place: place_of(self.place),
        }
    }
}

/// The models of nodes.
pub open spec fn node_models(nodes: Seq<DerivationNode<'_>>) -> Seq<Node> {
    Seq::new(nodes.len(), |j: int| nodes[j]@)
}

impl<'a> DerivationNode<'a> {
    /// State assigned to this occurrence.
    pub fn state(&self) -> (q: StateId)
        ensures
            q == self@.state,
    {
        self.state
    }

    /// Number of the selected rule in the automaton.
    pub fn rule_index(&self) -> (i: usize)
        ensures
            i == self@.rule,
    {
        proof {
            self.rule.lemma_fields();
        }
        self.rule.original_index
    }

    /// Symbol selected at this occurrence.
    pub fn symbol(&self) -> (f: Symbol)
        ensures
            f == self@.symbol,
    {
        proof {
            self.rule.lemma_fields();
        }
        self.rule.symbol
    }

    /// Weight of the selected rule; enumeration itself ignores weights.
    pub fn weight(&self) -> (w: Weight)
        ensures
            w == self@.weight,
    {
        proof {
            self.rule.lemma_fields();
        }
        self.rule.weight
    }

    /// Pre-order number of the parent, or `None` at the root.
    pub fn parent(&self) -> (r: Option<usize>)
        ensures
            match self@.place {
                Some((p, _)) => r matches Some(i) && i == p,
                None => r is None,
            },
    {
        match self.place {
            Some((p, _)) => Some(p),
            None => None,
        }
    }

    /// Left-to-right position below the parent, or `None` at the root.
    pub fn child_position(&self) -> (r: Option<usize>)
        ensures
            match self@.place {
                Some((_, position)) => r matches Some(i) && i == position,
                None => r is None,
            },
    {
        match self.place {
            Some((_, position)) => Some(position),
            None => None,
        }
    }

    /// Number of children of this node.
    pub fn arity(&self) -> (n: usize)
        ensures
            n == self@.arity,
    {
        proof {
            self.rule.lemma_fields();
        }
        self.rule.children.len()
    }
}

/// Borrowed view of the current accepting derivation.
pub struct Derivation<'a> {
    nodes: &'a Vec<DerivationNode<'a>>,
}

impl<'a> View for Derivation<'a> {
    type V = Seq<Node>;

    closed spec fn view(&self) -> Seq<Node> {
        node_models(self.nodes@)
    }
}

impl<'a> Derivation<'a> {
    /// All nodes in root-first, left-to-right pre-order.
    pub fn nodes(&self) -> (r: &'a Vec<DerivationNode<'a>>)
        ensures
            node_models(r@) == self@,
    {
        self.nodes
    }

    /// The number of nodes.
    pub fn len(&self) -> (n: usize)
        ensures
            n == self@.len(),
    {
        self.nodes.len()
    }

    /// Whether there are no nodes.
    pub fn is_empty(&self) -> (b: bool)
        ensures
            b == (self@.len() == 0),
    {
        self.nodes.len() == 0
    }
}

/// A node that is still to be chosen.
#[derive(Clone, Copy, Debug)]
pub(crate) struct ExpectedNode {
    state: StateId,
    place: Option<(usize, usize)>,
    choice: usize,
}

impl ExpectedNode {
    closed spec fn slot(&self) -> Slot {
        Slot { state: self.state, place: place_of(self.place), choice: self.choice as nat }
    }
}

/// The slots of a stack of expected nodes, from the top down.
spec fn slots_of(pending: Seq<ExpectedNode>) -> Seq<Slot> {
    Seq::new(pending.len(), |j: int| pending[pending.len() - 1 - j].slot())
}

/// The slots of expected nodes in the order in which they are listed.
spec fn listed_slots(pending: Seq<ExpectedNode>) -> Seq<Slot> {
    Seq::new(pending.len(), |j: int| pending[j].slot())
}

/// Which options the nodes select.
spec fn choices_of(nodes: Seq<DerivationNode<'_>>) -> Seq<nat> {
    Seq::new(nodes.len(), |j: int| nodes[j].choice as nat)
}

/// Whether the nodes make a consistent beginning of a derivation of `a`.
spec fn sound(a: Automaton, nodes: Seq<DerivationNode<'_>>) -> bool {
    &&& traversal::tied(a, node_models(nodes))
    &&& traversal::chosen(a, node_models(nodes), choices_of(nodes))
    &&& forall|j: int| 0 <= j < nodes.len() ==> (#[trigger] nodes[j]).rule.stands_for(a)
}

/// Whether the alternatives are nodes with later options.
spec fn alternatives_open(
    a: Automaton,
    nodes: Seq<DerivationNode<'_>>,
    alternatives: Seq<usize>,
) -> bool {
    traversal::open_alternatives(a, node_models(nodes), choices_of(nodes), alternatives)
}

/// What remains at the alternatives.
spec fn rest_of(
    a: Automaton,
    nodes: Seq<DerivationNode<'_>>,
    alternatives: Seq<usize>,
) -> Seq<Seq<Node>> {
    traversal::remaining(a, node_models(nodes), choices_of(nodes), alternatives)
}

/// Whether `pending` is what the nodes still need.
spec fn awaits(a: Automaton, nodes: Seq<DerivationNode<'_>>, pending: Seq<ExpectedNode>) -> bool {
    &&& traversal::linked(a, node_models(nodes), nodes.len(), slots_of(pending))
    &&& forests::fillable(a, slots_of(pending))
}

/// A state of the automaton that occurs in accepting derivations is one of its states.
proof fn lemma_state_below(a: Automaton, order: Seq<StateId>, q: StateId)
    requires
        forests::finite(a, order),
        a.relevant(q),
    ensures
        q.0 < a.states,
{
    let rules = crate::automaton::rule_shapes(a.rules);
    crate::language_cardinality::lemma_order_len(rules, a.accepting, order, a.states);
    assert(order.contains(q));
    let b = choose|b: int| 0 <= b < order.len() && order[b] == q;
    assert(order[b].0 < a.states);
}

/// Pushes the slots of the children of the last node, the first child on top.
fn push_children(
    children: &Vec<StateId>,
    parent: usize,
    from: usize,
    pending: &mut Vec<ExpectedNode>,
)
    requires
        from <= children@.len(),
    ensures
        slots_of(final(pending)@) == forests::siblings(
            children@,
            parent as nat,
            from as nat,
        ) + slots_of(old(pending)@),
{
    let ghost start = slots_of(pending@);
    let mut i: usize = children.len();
    assert(forests::siblings(children@, parent as nat, i as nat) + start =~= start);
    while i > from
        invariant
            from <= i <= children@.len(),
            slots_of(pending@) == forests::siblings(children@, parent as nat, i as nat) + start,
        decreases i,
    {
        let ghost before = pending@;
        i -= 1;
        pending.push(
            ExpectedNode { state: children[i], place: Some((parent, i)), choice: 0 },
        );
        proof {
            let now = slots_of(pending@);
            let wanted = forests::siblings(children@, parent as nat, i as nat) + start;
            let here = forests::siblings(children@, parent as nat, i as nat);
            let after = forests::siblings(children@, parent as nat, (i + 1) as nat);
            assert(slots_of(before) == after + start);
            assert(slots_of(before).len() == before.len());
            assert(here.len() == after.len() + 1);
            assert(now.len() == before.len() + 1);
            assert forall|j: int| 0 <= j < now.len() implies now[j] == wanted[j] by {
                if j == 0 {
                    assert(now[0] == pending@.last().slot());
                    assert(wanted[0] == here[0]);
                } else {
                    assert(now[j] == slots_of(before)[j - 1]);
                    if j - 1 < after.len() {
                        assert(slots_of(before)[j - 1] == after[j - 1]);
                        assert(wanted[j] == here[j]);
                    } else {
                        assert(slots_of(before)[j - 1] == start[j - 1 - after.len()]);
                        assert(wanted[j] == start[j - here.len()]);
                    }
                }
            }
            assert(now =~= wanted);
        }
    }
}

proof fn lemma_step(
    a: Automaton,
    order: Seq<StateId>,
    nodes: Seq<Node>,
    choices: Seq<nat>,
    slots: Seq<Slot>,
    node: Node,
)
    requires
        forests::finite(a, order),
        traversal::tied(a, nodes),
        traversal::chosen(a, nodes, choices),
        traversal::linked(a, nodes, nodes.len(), slots),
        forests::fillable(a, slots),
        slots.len() > 0,
        slots[0].place is None ==> nodes.len() == 0,
        node == forests::node_for(
            a,
            forests::options(a, slots[0].state)[slots[0].choice as int],
            slots[0],
        ),
    ensures
        traversal::tied(a, nodes.push(node)),
        traversal::chosen(a, nodes.push(node), choices.push(slots[0].choice)),
        traversal::todo(a, nodes.push(node), nodes.len()) == slots.skip(1),
        traversal::linked(
            a,
            nodes.push(node),
            nodes.len() + 1,
            forests::siblings(a.rules[node.rule as int].children, nodes.len(), 0) + slots.skip(1),
        ),
        forests::fillable(
            a,
            forests::siblings(a.rules[node.rule as int].children, nodes.len(), 0) + slots.skip(1),
        ),
        forall|t: int|
            0 <= t < (forests::siblings(a.rules[node.rule as int].children, nodes.len(), 0)
                + slots.skip(1)).len() ==> (#[trigger] (forests::siblings(
                a.rules[node.rule as int].children,
                nodes.len(),
                0,
            ) + slots.skip(1))[t]).place is Some,
{
    let e = slots[0];
    let n = nodes.len();
    let all = nodes.push(node);
    let picked = choices.push(e.choice);
    let rest = slots.skip(1);
    let children = a.rules[node.rule as int].children;
    let below = forests::siblings(children, n, 0);
    let next = below + rest;
    forests::lemma_options(a, e.state, a.rules.len());
    assert(forests::slot_fillable(a, e));
    assert(traversal::slot_linked(a, nodes, n, e, slots.skip(1)));
    assert(all.take(n as int) =~= nodes);
    assert(nodes.take(n as int) =~= nodes);
    assert(traversal::tied(a, all)) by {
        assert forall|j: int| 0 <= j < all.len() implies #[trigger] traversal::node_tied(
            a,
            all,
            j,
        ) by {
            if j < n {
                assert(traversal::node_tied(a, nodes, j));
                assert(all[j] == nodes[j]);
                if let Some((p, position)) = nodes[j].place {
                    assert(all[p as int] == nodes[p as int]);
                }
            } else {
                if let Some((p, position)) = e.place {
                    assert(all[p as int] == nodes[p as int]);
                }
            }
        }
    }
    assert(traversal::chosen(a, all, picked)) by {
        assert forall|j: int| 0 <= j < all.len() implies (#[trigger] picked[j]) < forests::options(
            a,
            all[j].state,
        ).len() && forests::options(a, all[j].state)[picked[j] as int] == all[j].rule by {
            if j < n {
                assert(picked[j] == choices[j]);
                assert(all[j] == nodes[j]);
            }
        }
    }
    if let Some((p, position)) = e.place {
        assert(all.take(p as int + 1) =~= nodes.take(p as int + 1));
        traversal::lemma_todo_stable(a, all, nodes, p);
        assert(all[p as int] == nodes[p as int]);
    }
    assert(traversal::todo(a, all, n) =~= rest);
    assert forall|t: int| 0 <= t < rest.len() implies traversal::slot_linked(
        a,
        nodes,
        n,
        #[trigger] rest[t],
        rest.skip(t + 1),
    ) by {
        assert(rest[t] == slots[t + 1]);
        assert(rest.skip(t + 1) =~= slots.skip(t + 2));
    }
    traversal::lemma_linked_stable(a, nodes, all, n, n + 1, rest);
    traversal::lemma_siblings_linked(a, all, n + 1, n, 0, rest);
    forests::lemma_children_fillable(a, order, node.rule, n);
    assert forall|t: int| 0 <= t < next.len() implies forests::slot_fillable(
        a,
        #[trigger] next[t],
    ) by {
        if t < below.len() {
            assert(next[t] == below[t]);
        } else {
            assert(next[t] == slots[t - below.len() + 1]);
        }
    }
    assert forall|t: int| 0 <= t < next.len() implies (#[trigger] next[t]).place is Some by {
        if t >= below.len() {
            let u = t - below.len();
            assert(next[t] == rest[u]);
            assert(slots[u + 1] == rest[u]);
            assert(traversal::slot_linked(a, nodes, n, slots[u + 1], slots.skip(u + 2)));
            // Only the last slot can be without a place, and only where there is no node.
            lemma_root_alone(a, nodes, slots, u + 1);
        }
    }
}

/// A slot without a place stands alone.
proof fn lemma_root_alone(a: Automaton, nodes: Seq<Node>, slots: Seq<Slot>, t: int)
    requires
        traversal::linked(a, nodes, nodes.len(), slots),
        traversal::tied(a, nodes),
        0 < t < slots.len(),
        slots[0].place is None ==> nodes.len() == 0,
    ensures
        slots[t].place is Some,
{
    assert(traversal::slot_linked(a, nodes, nodes.len(), slots[0], slots.skip(1)));
    if let Some((p, position)) = slots[0].place {
        let rest = slots.skip(1);
        assert(slots[t] == rest[t - 1]);
        lemma_todo_placed(a, nodes, p);
        let head = forests::siblings(
            traversal::children_of(a, nodes[p as int]),
            p,
            position + 1,
        );
        let follow = traversal::todo(a, nodes, p);
        assert(rest == head + follow);
        if t - 1 < head.len() {
            assert(rest[t - 1] == head[t - 1]);
        } else {
            assert(rest.len() == head.len() + follow.len());
            assert(rest[t - 1] == traversal::todo(a, nodes, p)[t - 1 - head.len()]);
        }
    }
}

/// What follows a node has places.
proof fn lemma_todo_placed(a: Automaton, nodes: Seq<Node>, i: nat)
    ensures
        forall|t: int|
            0 <= t < traversal::todo(a, nodes, i).len() ==> (#[trigger] traversal::todo(
                a,
                nodes,
                i,
            )[t]).place is Some,
    decreases i,
{
    if let Some((p, position)) = nodes[i as int].place {
        if p < i {
            lemma_todo_placed(a, nodes, p);
            let head = forests::siblings(
                traversal::children_of(a, nodes[p as int]),
                p,
                position + 1,
            );
            let rest = traversal::todo(a, nodes, p);
            let all = traversal::todo(a, nodes, i);
            assert forall|t: int| 0 <= t < all.len() implies (#[trigger] all[t]).place is Some by {
                if t < head.len() {
                    assert(all[t] == head[t]);
                } else {
                    assert(all[t] == rest[t - head.len()]);
                }
            }
        }
    }
}

/// One node more, and what is left stays the same.
proof fn lemma_goal_step(
    a: Automaton,
    order: Seq<StateId>,
    nodes: Seq<Node>,
    choices: Seq<nat>,
    slots: Seq<Slot>,
    node: Node,
    alternatives: Seq<usize>,
    n: usize,
    more: bool,
)
    requires
        forests::finite(a, order),
        n == nodes.len(),
        choices.len() == nodes.len(),
        forests::fillable(a, slots),
        slots.len() > 0,
        node == forests::node_for(
            a,
            forests::options(a, slots[0].state)[slots[0].choice as int],
            slots[0],
        ),
        traversal::todo(a, nodes.push(node), nodes.len()) == slots.skip(1),
        forall|k: int| 0 <= k < alternatives.len() ==> (#[trigger] alternatives[k]) < n,
        more == (slots[0].choice + 1 < forests::options(a, slots[0].state).len()),
    ensures
        ({
            let next = forests::siblings(a.rules[node.rule as int].children, n as nat, 0)
                + slots.skip(1);
            forests::prefixed(nodes, forests::words(a, slots, n as nat)) + traversal::remaining(
                a,
                nodes,
                choices,
                alternatives,
            ) == forests::prefixed(
                nodes.push(node),
                forests::words(a, next, (n + 1) as nat),
            ) + traversal::remaining(
                a,
                nodes.push(node),
                choices.push(slots[0].choice),
                if more {
                    alternatives.push(n)
                } else {
                    alternatives
                },
            )
        }),
{
    let e = slots[0];
    let all = nodes.push(node);
    let picked = choices.push(e.choice);
    assert(forests::slot_fillable(a, e));
    forests::lemma_unfold(a, order, slots, n as nat);
    let next = forests::siblings(a.rules[node.rule as int].children, n as nat, 0) + slots.skip(1);
    let later_slots = forests::with_next_choice(slots);
    let first = forests::words(a, next, (n + 1) as nat);
    let second = forests::words(a, later_slots, n as nat);
    assert(forests::words(a, slots, n as nat) == forests::prefixed(seq![node], first) + second);
    let joined = forests::prefixed(nodes, forests::prefixed(seq![node], first) + second);
    let left = forests::prefixed(all, first);
    let right = forests::prefixed(nodes, second);
    assert forall|j: int| 0 <= j < joined.len() implies joined[j] == (left + right)[j] by {
        if j < first.len() {
            assert(nodes + (seq![node] + first[j]) =~= all + first[j]);
        }
    }
    assert(joined =~= left + right);
    assert(all.take(n as int) =~= nodes);
    assert(nodes.take(n as int) =~= nodes);
    assert(picked.take(n as int) =~= choices);
    assert(choices.take(n as int) =~= choices);
    traversal::lemma_remaining_stable(
        a,
        nodes,
        choices,
        all,
        picked,
        n as nat,
        alternatives,
    );
    let there = traversal::later_slot(all, picked, n as int);
    assert(all[n as int] == node);
    assert(picked[n as int] == e.choice);
    assert(seq![there] + slots.skip(1) =~= later_slots);
    assert(traversal::later(a, all, picked, n as nat) == right);
    let rest = traversal::remaining(a, nodes, choices, alternatives);
    if more {
        assert(alternatives.push(n).drop_last() =~= alternatives);
        assert((left + right) + rest =~= left + (right + rest));
    } else {
        forests::lemma_exhausted(a, later_slots, n as nat);
        assert(right =~= Seq::empty());
        assert(left + right =~= left);
    }
}

/// Chooses rules for the expected nodes until none is left, the first options first.
fn expand<'a>(
    plan: &'a FiniteLanguagePlan,
    nodes: &mut Vec<DerivationNode<'a>>,
    alternatives: &mut Vec<usize>,
    pending: &mut Vec<ExpectedNode>,
)
    requires
        sound(plan@, old(nodes)@),
        awaits(plan@, old(nodes)@, old(pending)@),
        alternatives_open(plan@, old(nodes)@, old(alternatives)@),
        old(pending)@.len() > 0,
        slots_of(old(pending)@)[0].place is None ==> old(nodes)@.len() == 0,
    ensures
        sound(plan@, final(nodes)@),
        alternatives_open(plan@, final(nodes)@, final(alternatives)@),
        final(nodes)@.len() > old(nodes)@.len(),
        final(nodes)@.take(old(nodes)@.len() as int) == old(nodes)@,
        old(alternatives)@.len() <= final(alternatives)@.len(),
        final(alternatives)@.take(old(alternatives)@.len() as int) == old(alternatives)@,
        forests::prefixed(
            node_models(old(nodes)@),
            forests::words(plan@, slots_of(old(pending)@), old(nodes)@.len()),
        ) == seq![node_models(final(nodes)@)] + rest_of(
            plan@,
            final(nodes)@,
            final(alternatives)@.skip(old(alternatives)@.len() as int),
        ),
        final(nodes)@[old(nodes)@.len() as int]@.state == slots_of(old(pending)@)[0].state,
        final(nodes)@[old(nodes)@.len() as int]@.rule == forests::options(
            plan@,
            slots_of(old(pending)@)[0].state,
        )[slots_of(old(pending)@)[0].choice as int],
{
    plan.check();
    let ghost a = plan@;
    let ghost order = plan.order();
    let ghost nodes0 = nodes@;
    let ghost alternatives0 = alternatives@;
    let ghost slots0 = slots_of(pending@);
    let ghost goal = forests::prefixed(
        node_models(nodes0),
        forests::words(a, slots0, nodes0.len()),
    );
    proof {
        assert(nodes@.take(nodes0.len() as int) =~= nodes0);
        assert(alternatives@.take(alternatives0.len() as int) =~= alternatives0);
        assert(alternatives@.skip(alternatives0.len() as int) =~= Seq::empty());
        assert(goal + Seq::<Seq<Node>>::empty() =~= goal);
    }
    while pending.len() > 0
        invariant
            a == plan@,
            forests::finite(a, order),
            sound(a, nodes@),
            awaits(a, nodes@, pending@),
            alternatives_open(a, nodes@, alternatives@),
            pending@.len() > 0 && slots_of(pending@)[0].place is None ==> nodes@.len() == 0,
            nodes0.len() <= nodes@.len(),
            nodes@.take(nodes0.len() as int) == nodes0,
            alternatives0.len() <= alternatives@.len(),
            alternatives@.take(alternatives0.len() as int) == alternatives0,
            goal == forests::prefixed(
                node_models(nodes@),
                forests::words(a, slots_of(pending@), nodes@.len()),
            ) + rest_of(a, nodes@, alternatives@.skip(alternatives0.len() as int)),
            nodes@.len() == nodes0.len() ==> pending@.len() > 0 && slots_of(pending@) == slots0,
            nodes@.len() > nodes0.len() ==> nodes@[nodes0.len() as int]@.state == slots0[0].state
                && nodes@[nodes0.len() as int]@.rule == forests::options(
                a,
                slots0[0].state,
            )[slots0[0].choice as int],
        decreases forests::words(a, slots_of(pending@), nodes@.len())[0].len(),
    {
        let ghost slots = slots_of(pending@);
        let ghost before = pending@;
        let ghost nodes_before = nodes@;
        let ghost others = alternatives@;
        let expected = match pending.pop() {
            Some(expected) => expected,
            None => {
                return;
            },
        };
        let ghost e = slots[0];
        proof {
            assert(e == expected.slot());
            assert(slots_of(pending@) =~= slots.skip(1));
            assert(forests::slot_fillable(a, slots[0]));
            lemma_state_below(a, order, expected.state);
        }
        let node_index: usize = nodes.len();
        let count: usize = plan.option_count(expected.state);
        let rule = plan.option(expected.state, expected.choice);
        let node = DerivationNode {
            rule,
            state: expected.state,
            place: expected.place,
            choice: expected.choice,
        };
        let ghost model = node_models(nodes_before);
        let ghost picked = choices_of(nodes_before);
        proof {
            rule.lemma_fields();
            assert(node@ == forests::node_for(
                a,
                forests::options(a, e.state)[e.choice as int],
                e,
            ));
            lemma_step(a, order, model, picked, slots, node@);
            let list = others.skip(alternatives0.len() as int);
            assert forall|k: int| 0 <= k < list.len() implies (#[trigger] list[k])
                < node_index by {
                assert(list[k] == others[k + alternatives0.len()]);
            }
            lemma_goal_step(
                a,
                order,
                model,
                picked,
                slots,
                node@,
                list,
                node_index,
                e.choice + 1 < forests::options(a, e.state).len(),
            );
            traversal::lemma_first_word(a, order, slots, model.len());
        }
        nodes.push(node);
        proof {
            assert(node_models(nodes@) =~= model.push(node@));
            assert(choices_of(nodes@) =~= picked.push(e.choice));
            assert(nodes@.take(nodes0.len() as int) =~= nodes0);
            assert forall|j: int| 0 <= j < nodes@.len() implies (
            #[trigger] nodes@[j]).rule.stands_for(a) by {
                if j < nodes_before.len() {
                    assert(nodes@[j] == nodes_before[j]);
                }
            }
        }
        let more = count - expected.choice > 1;
        if more {
            alternatives.push(node_index);
        }
        proof {
            let cut = alternatives0.len() as int;
            assert(alternatives@.take(cut) =~= alternatives0);
            if more {
                assert(alternatives@.skip(cut) =~= others.skip(cut).push(node_index));
            }
            assert(alternatives_open(a, nodes@, alternatives@)) by {
                let now = node_models(nodes@);
                let chosen = choices_of(nodes@);
                assert forall|k: int| 0 <= k < alternatives@.len() implies (
                #[trigger] alternatives@[k]) < now.len() && chosen[alternatives@[k] as int] + 1
                    < forests::options(a, now[alternatives@[k] as int].state).len() by {
                    if k < others.len() {
                        assert(alternatives@[k] == others[k]);
                        assert(now[others[k] as int] == model[others[k] as int]);
                        assert(chosen[others[k] as int] == picked[others[k] as int]);
                    }
                }
                assert forall|i: int, j: int|
                    0 <= i < j < alternatives@.len() implies alternatives@[i]
                    < alternatives@[j] by {
                    assert(alternatives@[i] == others[i]);
                    if j < others.len() {
                        assert(alternatives@[j] == others[j]);
                    }
                }
            }
        }
        push_children(&rule.children, node_index, 0, pending);
        proof {
            if nodes0.len() == nodes_before.len() {
                assert(nodes@[nodes0.len() as int]@ == node@);
            } else {
                assert(nodes@[nodes0.len() as int] == nodes_before[nodes0.len() as int]);
            }
        }
    }
    proof {
        forests::lemma_no_slots(a, slots_of(pending@), nodes@.len());
        let unit = seq![Seq::<Node>::empty()];
        assert(forests::prefixed(node_models(nodes@), unit) =~= seq![node_models(nodes@)]) by {
            assert(node_models(nodes@) + Seq::<Node>::empty() =~= node_models(nodes@));
        }
    }
}

/// Lists the slots that follow the subtree of a node.
fn list_todo<'a>(nodes: &Vec<DerivationNode<'a>>, changed: usize, Ghost(a): Ghost<Automaton>) -> (r:
    Vec<ExpectedNode>)
    requires
        sound(a, nodes@),
        changed < nodes@.len(),
    ensures
        listed_slots(r@) == traversal::todo(a, node_models(nodes@), changed as nat),
{
    let ghost model = node_models(nodes@);
    let ghost all = traversal::todo(a, model, changed as nat);
    let mut walk: Vec<ExpectedNode> = Vec::new();
    let mut cursor: usize = changed;
    let mut place = nodes[changed].place;
    assert(listed_slots(walk@) + all =~= all);
    while place.is_some()
        invariant
            sound(a, nodes@),
            cursor < nodes@.len(),
            model == node_models(nodes@),
            place == nodes@[cursor as int].place,
            listed_slots(walk@) + traversal::todo(a, model, cursor as nat) == all,
        decreases cursor,
            if place.is_some() {
                1int
            } else {
                0int
            },
    {
        let (parent, position): (usize, usize) = match place {
            Some(place) => place,
            None => {
                return walk;
            },
        };
        proof {
            assert(traversal::node_tied(a, model, cursor as int));
            assert(model[cursor as int].place == Some((parent as nat, position as nat)));
            assert(model[parent as int] == nodes@[parent as int]@);
            assert(nodes@[parent as int].rule.stands_for(a));
            nodes@[parent as int].rule.lemma_fields();
        }
        let children = &nodes[parent].rule.children;
        let length: usize = children.len();
        assert(position < length);
        let ghost head = forests::siblings(children@, parent as nat, (position + 1) as nat);
        let ghost start = listed_slots(walk@);
        let ghost follow = traversal::todo(a, model, parent as nat);
        let mut i: usize = position + 1;
        assert(start + head.take(0) =~= start);
        while i < children.len()
            invariant
                position < i <= children@.len(),
                head == forests::siblings(children@, parent as nat, (position + 1) as nat),
                listed_slots(walk@) == start + head.take(i - position - 1),
            decreases children@.len() - i,
        {
            let ghost before = walk@;
            walk.push(
                ExpectedNode { state: children[i], place: Some((parent, i)), choice: 0 },
            );
            i += 1;
            proof {
                let k = i - position - 1;
                assert(head.take(k) =~= head.take(k - 1).push(head[k - 1]));
                assert(listed_slots(walk@) =~= listed_slots(before).push(head[k - 1]));
                assert(listed_slots(walk@) =~= start + head.take(k));
            }
        }
        proof {
            assert(head.take(i - position - 1) =~= head);
            assert(start + (head + follow) =~= (start + head) + follow);
        }
        cursor = parent;
        place = nodes[parent].place;
    }
    proof {
        assert(traversal::todo(a, model, cursor as nat) =~= Seq::empty());
        assert(listed_slots(walk@) =~= all);
    }
    walk
}

/// Turns a list into a stack with the first element on top.
fn stack_up(list: Vec<ExpectedNode>, pending: &mut Vec<ExpectedNode>)
    requires
        old(pending)@.len() == 0,
    ensures
        slots_of(final(pending)@) == listed_slots(list@),
{
    let ghost all = list@;
    let mut list = list;
    proof {
        assert(all.take(all.len() as int) =~= all);
        assert(slots_of(pending@) =~= listed_slots(all).skip(all.len() as int));
    }
    while list.len() > 0
        invariant
            list@.len() <= all.len(),
            list@ == all.take(list@.len() as int),
            slots_of(pending@) == listed_slots(all).skip(list@.len() as int),
        decreases list@.len(),
    {
        let ghost n = list@.len() as int;
        let ghost before = pending@;
        if let Some(last) = list.pop() {
            assert(last == all[n - 1]);
            pending.push(last);
            proof {
                assert(list@ =~= all.take(n - 1));
                let now = slots_of(pending@);
                let wanted = listed_slots(all).skip(n - 1);
                assert(slots_of(before).len() == before.len());
                assert forall|j: int| 0 <= j < now.len() implies now[j] == wanted[j] by {
                    if j > 0 {
                        assert(now[j] == slots_of(before)[j - 1]);
                        assert(slots_of(before)[j - 1] == listed_slots(all).skip(n)[j - 1]);
                    } else {
                        assert(now[0] == last.slot());
                        assert(wanted[0] == listed_slots(all)[n - 1]);
                    }
                }
                assert(now =~= wanted);
            }
        }
    }
    assert(listed_slots(all).skip(0) =~= listed_slots(all));
}

/// Selects the next option of a node and rebuilds everything behind it.
fn rebuild_suffix<'a>(
    plan: &'a FiniteLanguagePlan,
    nodes: &mut Vec<DerivationNode<'a>>,
    alternatives: &mut Vec<usize>,
    pending: &mut Vec<ExpectedNode>,
    changed: usize,
)
    requires
        sound(plan@, old(nodes)@),
        alternatives_open(plan@, old(nodes)@, old(alternatives)@.push(changed)),
    ensures
        sound(plan@, final(nodes)@),
        alternatives_open(plan@, final(nodes)@, final(alternatives)@),
        final(nodes)@.len() > changed,
        final(nodes)@.take(changed as int) == old(nodes)@.take(changed as int),
        old(alternatives)@.len() <= final(alternatives)@.len(),
        final(alternatives)@.take(old(alternatives)@.len() as int) == old(alternatives)@,
        traversal::later(
            plan@,
            node_models(old(nodes)@),
            choices_of(old(nodes)@),
            changed as nat,
        ) == seq![node_models(final(nodes)@)] + rest_of(
            plan@,
            final(nodes)@,
            final(alternatives)@.skip(old(alternatives)@.len() as int),
        ),
        final(nodes)@[changed as int]@.state == old(nodes)@[changed as int]@.state,
        final(nodes)@[changed as int]@.rule != old(nodes)@[changed as int]@.rule,
{
    plan.check();
    let ghost a = plan@;
    let ghost order = plan.order();
    let ghost model = node_models(nodes@);
    let ghost picked = choices_of(nodes@);
    let ghost nodes0 = nodes@;
    let ghost all = alternatives@.push(changed);
    proof {
        assert(all[all.len() - 1] == changed);
        assert(model[changed as int] == nodes0[changed as int]@);
        assert(picked[changed as int] == nodes0[changed as int].choice);
    }
    let state = nodes[changed].state;
    let place = nodes[changed].place;
    let choice: usize = nodes[changed].choice;
    proof {
        assert(picked[changed as int] + 1 < forests::options(a, model[changed as int].state).len());
        lemma_state_below_node(a, order, model, changed as int);
    }
    let count: usize = plan.option_count(state);
    let walk = list_todo(nodes, changed, Ghost(a));
    pending.clear();
    stack_up(walk, pending);
    let ghost follow = traversal::todo(a, model, changed as nat);
    let ghost follow_stack = pending@;
    nodes.truncate(changed);
    assert(choice < count);
    pending.push(ExpectedNode { state, place, choice: choice + 1 });
    let ghost e = traversal::later_slot(model, picked, changed as int);
    proof {
        let front = node_models(nodes@);
        assert(nodes@ =~= nodes0.take(changed as int));
        assert(front =~= model.take(changed as int));
        assert(choices_of(nodes@) =~= picked.take(changed as int));
        let slots = slots_of(pending@);
        assert(slots_of(follow_stack).len() == follow_stack.len());
        assert forall|j: int| 0 <= j < slots.len() implies slots[j] == (seq![e] + follow)[j] by {
            if j > 0 {
                assert(slots[j] == slots_of(follow_stack)[j - 1]);
            }
        }
        assert(slots =~= seq![e] + follow);
        traversal::lemma_todo_linked(a, model, changed as nat);
        traversal::lemma_todo_fillable(a, order, model, changed as nat);
        assert(model.take(changed as int).take(changed as int) =~= model.take(changed as int));
        traversal::lemma_linked_stable(
            a,
            model,
            front,
            changed as nat,
            changed as nat,
            follow,
        );
        assert(traversal::node_tied(a, model, changed as int));
        assert(traversal::linked(a, front, changed as nat, slots)) by {
            assert forall|t: int| 0 <= t < slots.len() implies traversal::slot_linked(
                a,
                front,
                changed as nat,
                #[trigger] slots[t],
                slots.skip(t + 1),
            ) by {
                if t == 0 {
                    assert(slots.skip(1) =~= follow);
                    if let Some((p, position)) = e.place {
                        assert(front[p as int] == model[p as int]);
                        assert(front.take(p as int + 1) =~= model.take(p as int + 1));
                        traversal::lemma_todo_stable(a, front, model, p);
                    }
                } else {
                    assert(slots[t] == follow[t - 1]);
                    assert(slots.skip(t + 1) =~= follow.skip(t));
                    assert(traversal::slot_linked(
                        a,
                        front,
                        changed as nat,
                        follow[t - 1],
                        follow.skip(t - 1 + 1),
                    ));
                }
            }
        }
        assert(forests::fillable(a, slots)) by {
            lemma_node_relevant(a, model, changed as int);
            assert forall|t: int| 0 <= t < slots.len() implies forests::slot_fillable(
                a,
                #[trigger] slots[t],
            ) by {
                if t > 0 {
                    assert(slots[t] == follow[t - 1]);
                }
            }
        }
        assert(traversal::tied(a, front)) by {
            assert forall|j: int| 0 <= j < front.len() implies #[trigger] traversal::node_tied(
                a,
                front,
                j,
            ) by {
                assert(traversal::node_tied(a, model, j));
                assert(front[j] == model[j]);
                if let Some((p, position)) = model[j].place {
                    assert(front[p as int] == model[p as int]);
                }
            }
        }
        assert(traversal::chosen(a, front, choices_of(nodes@))) by {
            assert forall|j: int| 0 <= j < front.len() implies (#[trigger] choices_of(nodes@)[j])
                < forests::options(a, front[j].state).len() && forests::options(
                a,
                front[j].state,
            )[choices_of(nodes@)[j] as int] == front[j].rule by {
                assert(picked[j] == choices_of(nodes@)[j]);
                assert(model[j] == front[j]);
            }
        }
        assert(alternatives_open(a, nodes@, alternatives@)) by {
            assert forall|k: int| 0 <= k < alternatives@.len() implies (
            #[trigger] alternatives@[k]) < front.len() && choices_of(
                nodes@,
            )[alternatives@[k] as int] + 1 < forests::options(
                a,
                front[alternatives@[k] as int].state,
            ).len() by {
                assert(all[k] == alternatives@[k]);
                assert(all[k] < all[all.len() - 1]);
                assert(model[all[k] as int] == front[all[k] as int]);
                assert(picked[all[k] as int] == choices_of(nodes@)[all[k] as int]);
            }
            assert forall|i: int, j: int|
                0 <= i < j < alternatives@.len() implies alternatives@[i] < alternatives@[j] by {
                assert(all[i] == alternatives@[i] && all[j] == alternatives@[j]);
            }
        }
        forests::lemma_options(a, state, a.rules.len());
    }
    expand(plan, nodes, alternatives, pending);
}

/// The state of a node occurs in accepting derivations.
proof fn lemma_node_relevant(a: Automaton, nodes: Seq<Node>, j: int)
    requires
        traversal::tied(a, nodes),
        0 <= j < nodes.len(),
    ensures
        a.relevant(nodes[j].state),
{
    assert(traversal::node_tied(a, nodes, j));
    assert(crate::automaton::rule_shapes(a.rules)[nodes[j].rule as int].result == nodes[j].state);
}

proof fn lemma_state_below_node(a: Automaton, order: Seq<StateId>, nodes: Seq<Node>, j: int)
    requires
        forests::finite(a, order),
        traversal::tied(a, nodes),
        0 <= j < nodes.len(),
    ensures
        nodes[j].state.0 < a.states,
{
    lemma_node_relevant(a, nodes, j);
    lemma_state_below(a, order, nodes[j].state);
}

/// Whether `c` is the first position at which two node sequences differ.
pub open spec fn first_difference(x: Seq<Node>, y: Seq<Node>, c: nat) -> bool {
    &&& c < x.len()
    &&& c < y.len()
    &&& x.take(c as int) == y.take(c as int)
    &&& x[c as int] != y[c as int]
}

/// Whether `c` is the first changed position of derivation number `n`: the first one
/// that differs from the derivation before it, or the root where there is none.
pub open spec fn changed_at(list: Seq<Seq<Node>>, n: nat, c: nat) -> bool {
    if n == 0 {
        c == 0
    } else {
        first_difference(list[n - 1], list[n as int], c)
    }
}

/// Whether what is left after `done` derivations is what remains at the alternatives,
/// and then the roots from `position` on.
spec fn keeps_track(
    a: Automaton,
    position: usize,
    nodes: Seq<DerivationNode<'_>>,
    alternatives: Seq<usize>,
    done: nat,
) -> bool {
    &&& sound(a, nodes)
    &&& alternatives_open(a, nodes, alternatives)
    &&& position <= plan::roots(a).len()
    &&& done <= plan::derivations(a).len()
    &&& plan::derivations(a).skip(done as int) == rest_of(a, nodes, alternatives)
        + plan::rooted_words(a, plan::roots(a).skip(position as int))
}

/// Whether the nodes are those of the last derivation that was produced.
spec fn shows_last(
    a: Automaton,
    position: usize,
    nodes: Seq<DerivationNode<'_>>,
    done: nat,
) -> bool {
    &&& 0 < done <= plan::derivations(a).len()
    &&& 0 < position <= plan::roots(a).len()
    &&& nodes.len() > 0
    &&& plan::derivations(a)[done - 1] == node_models(nodes)
    &&& nodes[0]@.state == plan::roots(a)[position - 1]
}

/// Iterator over every derivation of a finite explicit language.
///
/// Call [`FiniteLanguageIterator::advance`], then look at
/// [`FiniteLanguageIterator::current`]. A flat buffer is reused, and only the suffix
/// that changes is rebuilt.
pub struct FiniteLanguageIterator<'a> {
    plan: &'a FiniteLanguagePlan,
    accepting_position: usize,
    nodes: Vec<DerivationNode<'a>>,
    alternatives: Vec<usize>,
    pending: Vec<ExpectedNode>,
    current: bool,
    exhausted: bool,
    changed_from: Option<usize>,
    done: Ghost<nat>,
}

impl<'a> FiniteLanguageIterator<'a> {
    /// The automaton whose derivations are enumerated.
    pub closed spec fn source(&self) -> Automaton {
        self.plan@
    }

    /// How many derivations have been produced so far.
    pub closed spec fn produced(&self) -> nat {
        self.done@
    }

    /// Whether the last derivation that was produced is still current.
    pub closed spec fn stands(&self) -> bool {
        self.current
    }

    #[verifier::type_invariant]
    spec fn wf(&self) -> bool {
        let a = self.plan@;
        &&& keeps_track(
            a,
            self.accepting_position,
            self.nodes@,
            self.alternatives@,
            self.done@,
        )
        &&& if self.current {
            &&& !self.exhausted
            &&& shows_last(a, self.accepting_position, self.nodes@, self.done@)
            &&& self.changed_from matches Some(c) && changed_at(
                plan::derivations(a),
                (self.done@ - 1) as nat,
                c as nat,
            )
        } else {
            &&& self.changed_from is None
            &&& self.nodes@.len() == 0
            &&& self.alternatives@.len() == 0
            &&& self.exhausted ==> self.done@ == plan::derivations(a).len()
            &&& !self.exhausted ==> self.done@ == 0 && self.accepting_position == 0
        }
    }

    /// An iterator that stands before the first derivation.
    pub(crate) fn new(plan: &'a FiniteLanguagePlan) -> (r: Self)
        ensures
            r.source() == plan@,
            r.produced() == 0,
            !r.stands(),
    {
        plan.check();
        let ghost a = plan@;
        let nodes: Vec<DerivationNode<'a>> = Vec::new();
        let alternatives: Vec<usize> = Vec::new();
        proof {
            plan::lemma_derivations(a, plan.order(), a.states);
            assert(plan::derivations(a).skip(0) =~= plan::derivations(a));
            assert(plan::roots(a).skip(0) =~= plan::roots(a));
            assert(rest_of(a, nodes@, alternatives@) + plan::rooted_words(
                a,
                plan::roots(a).skip(0),
            ) =~= plan::derivations(a));
        }
        FiniteLanguageIterator {
            plan,
            accepting_position: 0,
            nodes,
            alternatives,
            pending: Vec::new(),
            current: false,
            exhausted: false,
            changed_from: None,
            done: Ghost(0),
        }
    }

    /// The iterator after selecting the next option of node `changed`.
    fn rewritten(
        plan: &'a FiniteLanguagePlan,
        accepting_position: usize,
        nodes: Vec<DerivationNode<'a>>,
        alternatives: Vec<usize>,
        pending: Vec<ExpectedNode>,
        changed: usize,
        done: Ghost<nat>,
    ) -> (r: Self)
        requires
            keeps_track(
                plan@,
                accepting_position,
                nodes@,
                alternatives@.push(changed),
                done@,
            ),
            shows_last(plan@, accepting_position, nodes@, done@),
        ensures
            r.source() == plan@,
            done@ < plan::derivations(plan@).len(),
            r.produced() == done@ + 1,
            r.stands(),
    {
        plan.check();
        let mut nodes = nodes;
        let mut alternatives = alternatives;
        let mut pending = pending;
        let ghost a = plan@;
        let ghost all = plan::derivations(a);
        let ghost tail = plan::rooted_words(a, plan::roots(a).skip(accepting_position as int));
        let ghost before = nodes@;
        let ghost others = alternatives@;
        let ghost listed = others.push(changed);
        rebuild_suffix(plan, &mut nodes, &mut alternatives, &mut pending, changed);
        proof {
            let x = node_models(before);
            let y = node_models(nodes@);
            let cut = others.len() as int;
            assert(listed.drop_last() =~= others);
            assert(listed[listed.len() - 1] == changed);
            assert(alternatives@ =~= others + alternatives@.skip(cut));
            traversal::lemma_remaining_add(
                a,
                y,
                choices_of(nodes@),
                others,
                alternatives@.skip(cut),
            );
            lemma_same_beginning(before, nodes@, changed as int);
            assert forall|k: int| 0 <= k < others.len() implies (#[trigger] others[k])
                < changed by {
                assert(listed[k] == others[k]);
                assert(listed[k] < listed[listed.len() - 1]);
            }
            traversal::lemma_remaining_stable(
                a,
                x,
                choices_of(before),
                y,
                choices_of(nodes@),
                changed as nat,
                others,
            );
            let fresh = rest_of(a, nodes@, alternatives@.skip(cut));
            let kept = rest_of(a, nodes@, others);
            assert(rest_of(a, before, listed) == (seq![y] + fresh) + kept);
            assert(((seq![y] + fresh) + kept) + tail =~= seq![y] + (fresh + kept + tail));
            lemma_next(all, done@, y, fresh + kept + tail);
            assert(x[changed as int] == before[changed as int]@);
            assert(y[changed as int] == nodes@[changed as int]@);
            assert(first_difference(x, y, changed as nat));
            if changed > 0 {
                assert(nodes@.take(changed as int)[0] == nodes@[0]);
                assert(before.take(changed as int)[0] == before[0]);
            }
        }
        FiniteLanguageIterator {
            plan,
            accepting_position,
            nodes,
            alternatives,
            pending,
            current: true,
            exhausted: false,
            changed_from: Some(changed),
            done: Ghost((done@ + 1) as nat),
        }
    }

    /// The iterator at the first derivation of the next root.
    fn rerooted(
        plan: &'a FiniteLanguagePlan,
        accepting_position: usize,
        nodes: Vec<DerivationNode<'a>>,
        alternatives: Vec<usize>,
        pending: Vec<ExpectedNode>,
        done: Ghost<nat>,
    ) -> (r: Self)
        requires
            keeps_track(plan@, accepting_position, nodes@, alternatives@, done@),
            alternatives@.len() == 0,
            accepting_position < plan::roots(plan@).len(),
            done@ > 0 ==> shows_last(plan@, accepting_position, nodes@, done@),
        ensures
            r.source() == plan@,
            done@ < plan::derivations(plan@).len(),
            r.produced() == done@ + 1,
            r.stands(),
    {
        plan.check();
        let mut nodes = nodes;
        let mut alternatives = alternatives;
        let mut pending = pending;
        let ghost a = plan@;
        let ghost all = plan::derivations(a);
        let ghost starts = plan::roots(a);
        let ghost before = nodes@;
        let accepting = plan.accepting();
        let count: usize = accepting.len();
        assert(accepting_position < count);
        let state = accepting[accepting_position];
        nodes.clear();
        pending.clear();
        pending.push(ExpectedNode { state, place: None, choice: 0 });
        let ghost slots = slots_of(pending@);
        proof {
            plan::lemma_roots(a, a.states);
            assert(starts[accepting_position as int] == state);
            plan::lemma_root_fillable(a, plan.order(), state);
            assert(slots =~= seq![plan::root_slot(state)]);
            assert(traversal::linked(a, node_models(nodes@), 0, slots)) by {
                assert forall|t: int| 0 <= t < slots.len() implies traversal::slot_linked(
                    a,
                    node_models(nodes@),
                    0,
                    #[trigger] slots[t],
                    slots.skip(t + 1),
                ) by {}
            }
        }
        expand(plan, &mut nodes, &mut alternatives, &mut pending);
        proof {
            let y = node_models(nodes@);
            let rest = starts.skip(accepting_position as int);
            let next = starts.skip(accepting_position + 1);
            plan::lemma_rooted_words_first(a, rest);
            assert(rest[0] == state);
            assert(rest.skip(1) =~= next);
            let words = forests::words(a, slots, 0);
            assert(forests::prefixed(Seq::<Node>::empty(), words) =~= words) by {
                assert forall|j: int| 0 <= j < words.len() implies Seq::<Node>::empty() + words[j]
                    == words[j] by {
                    assert(Seq::<Node>::empty() + words[j] =~= words[j]);
                }
            }
            let none: Seq<DerivationNode<'_>> = Seq::empty();
            assert(node_models(none) =~= Seq::<Node>::empty());
            assert(alternatives@.skip(0) =~= alternatives@);
            let fresh = rest_of(a, nodes@, alternatives@);
            assert(words == seq![y] + fresh);
            let follow = plan::rooted_words(a, next);
            assert(all.skip(done@ as int) =~= (seq![y] + fresh) + follow);
            assert((seq![y] + fresh) + follow =~= seq![y] + (fresh + follow));
            lemma_next(all, done@, y, fresh + follow);
            assert(y[0] == nodes@[0]@);
            if done@ > 0 {
                let x = node_models(before);
                assert(x[0] == before[0]@);
                assert(starts[accepting_position - 1].0 < starts[accepting_position as int].0);
                assert(x.take(0) =~= y.take(0));
                assert(first_difference(x, y, 0));
            }
        }
        FiniteLanguageIterator {
            plan,
            accepting_position: accepting_position + 1,
            nodes,
            alternatives,
            pending,
            current: true,
            exhausted: false,
            changed_from: Some(0),
            done: Ghost((done@ + 1) as nat),
        }
    }

    /// Advances to the next accepting derivation. Returns `false` permanently once all
    /// have been produced.
    pub fn advance(&mut self) -> (r: bool)
        ensures
            final(self).source() == old(self).source(),
            r == (old(self).produced() < plan::derivations(old(self).source()).len()),
            r ==> final(self).produced() == old(self).produced() + 1,
            !r ==> final(self).produced() == old(self).produced(),
            final(self).stands() == r,
    {
        proof {
            use_type_invariant(&*self);
        }
        if self.exhausted {
            return false;
        }
        let mut held = FiniteLanguageIterator::new(self.plan);
        std::mem::swap(self, &mut held);
        let FiniteLanguageIterator {
            plan,
            accepting_position,
            mut nodes,
            mut alternatives,
            pending,
            current: _,
            exhausted: _,
            changed_from: _,
            done,
        } = held;
        let ghost listed = alternatives@;
        if let Some(changed) = alternatives.pop() {
            assert(alternatives@.push(changed) =~= listed);
            *self = Self::rewritten(
                plan,
                accepting_position,
                nodes,
                alternatives,
                pending,
                changed,
                done,
            );
            return true;
        }
        if accepting_position < plan.accepting().len() {
            *self = Self::rerooted(plan, accepting_position, nodes, alternatives, pending, done);
            return true;
        }
        nodes.clear();
        proof {
            let a = plan@;
            let all = plan::derivations(a);
            assert(plan::roots(a).skip(accepting_position as int) =~= Seq::empty());
            assert(all.skip(done@ as int).len() == 0);
        }
        *self = FiniteLanguageIterator {
            plan,
            accepting_position,
            nodes,
            alternatives,
            pending,
            current: false,
            exhausted: true,
            changed_from: None,
            done,
        };
        false
    }

    /// The current derivation, or `None` before the first and after the last.
    pub fn current(&self) -> (r: Option<Derivation<'_>>)
        ensures
            match r {
                Some(d) => self.stands() && self.produced() > 0 && d@ == plan::derivations(
                    self.source(),
                )[self.produced() - 1],
                None => !self.stands(),
            },
    {
        proof {
            use_type_invariant(self);
        }
        if self.current {
            Some(Derivation { nodes: &self.nodes })
        } else {
            None
        }
    }

    /// The first changed pre-order position of the current derivation.
    ///
    /// Everything before it is as in the preceding derivation; the first derivation and
    /// every new root give zero. `None` where there is no current derivation.
    pub fn changed_from(&self) -> (r: Option<usize>)
        ensures
            match r {
                Some(c) => self.stands() && self.produced() > 0 && changed_at(
                    plan::derivations(self.source()),
                    (self.produced() - 1) as nat,
                    c as nat,
                ),
                None => !self.stands(),
            },
    {
        proof {
            use_type_invariant(self);
        }
        self.changed_from
    }
}

proof fn lemma_same_beginning(
    x: Seq<DerivationNode<'_>>,
    y: Seq<DerivationNode<'_>>,
    n: int,
)
    requires
        0 <= n <= x.len(),
        n <= y.len(),
        x.take(n) == y.take(n),
    ensures
        node_models(x).take(n) == node_models(y).take(n),
        choices_of(x).take(n) == choices_of(y).take(n),
{
    assert forall|j: int| 0 <= j < n implies x[j] == y[j] by {
        assert(x.take(n)[j] == x[j]);
        assert(y.take(n)[j] == y[j]);
    }
    assert(node_models(x).take(n) =~= node_models(y).take(n));
    assert(choices_of(x).take(n) =~= choices_of(y).take(n));
}

/// The first of what is left is the next element.
proof fn lemma_next(all: Seq<Seq<Node>>, done: nat, y: Seq<Node>, rest: Seq<Seq<Node>>)
    requires
        done <= all.len(),
        all.skip(done as int) == seq![y] + rest,
    ensures
        done < all.len(),
        all[done as int] == y,
        all.skip(done as int + 1) == rest,
{
    let part = all.skip(done as int);
    assert(part.len() == 1 + rest.len());
    assert(part[0] == y);
    assert(all.skip(done as int + 1) =~= part.skip(1));
    assert(part.skip(1) =~= rest);
}

impl FiniteLanguagePlan {
    /// A fresh iterator over the derivations of the plan.
    pub fn iter(&self) -> (r: FiniteLanguageIterator<'_>)
        ensures
            r.source() == self@,
            r.produced() == 0,
            !r.stands(),
    {
        FiniteLanguageIterator::new(self)
    }
}

} // verus!
