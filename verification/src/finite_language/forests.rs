//! Derivations still to come, as lists of node sequences.
use crate::automaton;
use crate::automaton::Automaton;
use crate::ids::{StateId, Symbol};
use crate::language_analysis;
use crate::language_cardinality;
use crate::runs;
use crate::runs::Run;
use crate::weight::Weight;
use vstd::prelude::*;

verus! {

/// One node of a derivation in pre-order.
pub struct Node {
    pub state: StateId,
    /// The number of the rule that was selected.
    pub rule: nat,
    pub symbol: Symbol,
    pub weight: Weight,
    pub arity: nat,
    /// The pre-order number of the parent and the position below it; `None` at the root.
    pub place: Option<(nat, nat)>,
}

/// A node that is still to be chosen: its state, its place, and the first of the
/// state's rules that may be selected.
pub struct Slot {
    pub state: StateId,
    pub place: Option<(nat, nat)>,
    pub choice: nat,
}

/// The rules with result `q` among the first `n` that occur in accepting derivations.
pub open spec fn options_below(a: Automaton, q: StateId, n: nat) -> Seq<nat>
    decreases n,
{
    if n == 0 {
        Seq::empty()
    } else {
        let earlier = options_below(a, q, (n - 1) as nat);
        if a.rules[n - 1].result == q && a.live(n - 1) {
            earlier.push((n - 1) as nat)
        } else {
            earlier
        }
    }
}

/// The rules with result `q` that occur in accepting derivations, in rule order.
pub open spec fn options(a: Automaton, q: StateId) -> Seq<nat> {
    options_below(a, q, a.rules.len())
}

/// The options are rules with the result, in increasing order.
pub proof fn lemma_options(a: Automaton, q: StateId, n: nat)
    requires
        n <= a.rules.len(),
    ensures
        forall|j: int|
            0 <= j < options_below(a, q, n).len() ==> (#[trigger] options_below(a, q, n)[j]) < n
                && a.rules[options_below(a, q, n)[j] as int].result == q && a.live(
                options_below(a, q, n)[j] as int,
            ),
        forall|i: int, j: int|
            0 <= i < j < options_below(a, q, n).len() ==> options_below(a, q, n)[i]
                < options_below(a, q, n)[j],
    decreases n,
{
    if n > 0 {
        lemma_options(a, q, (n - 1) as nat);
        let earlier = options_below(a, q, (n - 1) as nat);
        let all = options_below(a, q, n);
        assert forall|j: int| 0 <= j < all.len() implies (#[trigger] all[j]) < n
            && a.rules[all[j] as int].result == q && a.live(all[j] as int) by {
            if j < earlier.len() {
                assert(all[j] == earlier[j]);
            }
        }
        assert forall|i: int, j: int| 0 <= i < j < all.len() implies all[i] < all[j] by {
            assert(all[i] == earlier[i]);
            if j < earlier.len() {
                assert(all[j] == earlier[j]);
            }
        }
    }
}

/// The derivations that apply rule `i` at the root.
pub open spec fn rooted(a: Automaton, i: nat) -> Seq<Run> {
    runs::with_root(
        i,
        runs::run_tuples(automaton::rule_shapes(a.rules), a.rules[i as int].children, a.states),
    )
}

/// The derivations that apply one of the listed rules at the root, by rule.
pub open spec fn rooted_in(a: Automaton, list: Seq<nat>) -> Seq<Run>
    decreases list.len(),
{
    if list.len() == 0 {
        Seq::empty()
    } else {
        rooted_in(a, list.drop_last()) + rooted(a, list.last())
    }
}

proof fn lemma_rooted_first(a: Automaton, list: Seq<nat>)
    requires
        list.len() > 0,
    ensures
        rooted_in(a, list) == rooted(a, list[0]) + rooted_in(a, list.skip(1)),
    decreases list.len(),
{
    if list.len() == 1 {
        assert(list.drop_last() =~= Seq::empty());
        assert(list.skip(1) =~= Seq::empty());
        assert(rooted_in(a, list) =~= rooted(a, list[0]) + rooted_in(a, list.skip(1)));
    } else {
        lemma_rooted_first(a, list.drop_last());
        assert(list.drop_last().skip(1) =~= list.skip(1).drop_last());
        assert(list.skip(1).last() == list.last());
        assert(rooted_in(a, list) =~= rooted(a, list[0]) + rooted_in(a, list.skip(1)));
    }
}

/// Whether the derivation language of `a` is finite, with `order` as the witness.
pub open spec fn finite(a: Automaton, order: Seq<StateId>) -> bool {
    &&& a.well_formed()
    &&& language_analysis::is_child_first(automaton::rule_shapes(a.rules), a.accepting, order)
}

/// The derivations of a relevant state are those that its options give.
pub proof fn lemma_runs_by_options(a: Automaton, order: Seq<StateId>, q: StateId)
    requires
        finite(a, order),
        a.relevant(q),
    ensures
        runs::runs_of(automaton::rule_shapes(a.rules), q, a.states) == rooted_in(a, options(a, q)),
        a.states > 0,
{
    let rules = automaton::rule_shapes(a.rules);
    language_cardinality::lemma_order_len(rules, a.accepting, order, a.states);
    assert(order.contains(q));
    lemma_by_options(a, order, q, a.rules.len());
}

proof fn lemma_by_options(a: Automaton, order: Seq<StateId>, q: StateId, n: nat)
    requires
        finite(a, order),
        a.relevant(q),
        order.len() <= a.states,
        a.states > 0,
        n <= a.rules.len(),
    ensures
        runs::runs_by_rule(automaton::rule_shapes(a.rules), q, a.states, n) == rooted_in(
            a,
            options_below(a, q, n),
        ),
    decreases n,
{
    let rules = automaton::rule_shapes(a.rules);
    let k = a.states;
    if n > 0 {
        lemma_by_options(a, order, q, (n - 1) as nat);
        let i = n - 1;
        if rules[i].result == q {
            let children = rules[i].children;
            assert(children == a.rules[i].children);
            if language_analysis::rule_productive(rules, i) {
                assert(a.live(i));
                assert forall|p: int| 0 <= p < children.len() implies runs::runs_of(
                    rules,
                    #[trigger] children[p],
                    (k - 1) as nat,
                ) == runs::runs_of(rules, children[p], k) by {
                    language_cardinality::lemma_child_stable(rules, a.accepting, order, i, p, k);
                    assert(rules[i].children[p] == children[p]);
                }
                runs::lemma_tuples_agree(rules, children, (k - 1) as nat, k);
                let before = options_below(a, q, (n - 1) as nat);
                assert(before.push(i as nat).drop_last() =~= before);
            } else {
                runs::lemma_unproductive_rule(rules, i, (k - 1) as nat);
                assert(runs::with_root(
                    i as nat,
                    runs::run_tuples(rules, children, (k - 1) as nat),
                ) =~= Seq::empty());
                assert(runs::runs_by_rule(rules, q, k, n) =~= runs::runs_by_rule(
                    rules,
                    q,
                    k,
                    (n - 1) as nat,
                ));
            }
        }
    }
}

/// The derivations that may fill a slot.
pub open spec fn slot_runs(a: Automaton, e: Slot) -> Seq<Run> {
    rooted_in(a, options(a, e.state).skip(e.choice as int))
}

/// A derivation put in front of each tuple.
pub open spec fn ahead(x: Run, tuples: Seq<Seq<Run>>) -> Seq<Seq<Run>> {
    Seq::new(tuples.len(), |j: int| seq![x] + tuples[j])
}

/// Each derivation in front of each tuple, the tuples changing fastest.
pub open spec fn cross(xs: Seq<Run>, tuples: Seq<Seq<Run>>) -> Seq<Seq<Run>>
    decreases xs.len(),
{
    if xs.len() == 0 {
        Seq::empty()
    } else {
        cross(xs.drop_last(), tuples) + ahead(xs.last(), tuples)
    }
}

/// A tuple put in front of each tuple.
pub open spec fn before(x: Seq<Run>, tuples: Seq<Seq<Run>>) -> Seq<Seq<Run>> {
    Seq::new(tuples.len(), |j: int| x + tuples[j])
}

/// Each tuple of the first list in front of each of the second, which changes fastest.
pub open spec fn spliced(xs: Seq<Seq<Run>>, tuples: Seq<Seq<Run>>) -> Seq<Seq<Run>>
    decreases xs.len(),
{
    if xs.len() == 0 {
        Seq::empty()
    } else {
        spliced(xs.drop_last(), tuples) + before(xs.last(), tuples)
    }
}

/// The ways to fill the slots, the last changing fastest.
pub open spec fn fillings(a: Automaton, slots: Seq<Slot>) -> Seq<Seq<Run>>
    decreases slots.len(),
{
    if slots.len() == 0 {
        seq![Seq::empty()]
    } else {
        cross(slot_runs(a, slots[0]), fillings(a, slots.skip(1)))
    }
}

proof fn lemma_cross_add(xs: Seq<Run>, ys: Seq<Run>, tuples: Seq<Seq<Run>>)
    ensures
        cross(xs + ys, tuples) == cross(xs, tuples) + cross(ys, tuples),
    decreases ys.len(),
{
    if ys.len() == 0 {
        assert(xs + ys =~= xs);
        assert(cross(xs, tuples) + cross(ys, tuples) =~= cross(xs, tuples));
    } else {
        lemma_cross_add(xs, ys.drop_last(), tuples);
        assert((xs + ys).drop_last() =~= xs + ys.drop_last());
        assert((xs + ys).last() == ys.last());
        assert(cross(xs + ys, tuples) =~= cross(xs, tuples) + cross(ys, tuples));
    }
}

proof fn lemma_spliced_add(xs: Seq<Seq<Run>>, ys: Seq<Seq<Run>>, tuples: Seq<Seq<Run>>)
    ensures
        spliced(xs + ys, tuples) == spliced(xs, tuples) + spliced(ys, tuples),
    decreases ys.len(),
{
    if ys.len() == 0 {
        assert(xs + ys =~= xs);
        assert(spliced(xs, tuples) + spliced(ys, tuples) =~= spliced(xs, tuples));
    } else {
        lemma_spliced_add(xs, ys.drop_last(), tuples);
        assert((xs + ys).drop_last() =~= xs + ys.drop_last());
        assert((xs + ys).last() == ys.last());
        assert(spliced(xs + ys, tuples) =~= spliced(xs, tuples) + spliced(ys, tuples));
    }
}

proof fn lemma_ahead_spliced(x: Run, xs: Seq<Seq<Run>>, tuples: Seq<Seq<Run>>)
    ensures
        spliced(ahead(x, xs), tuples) == ahead(x, spliced(xs, tuples)),
    decreases xs.len(),
{
    if xs.len() == 0 {
        assert(spliced(ahead(x, xs), tuples) =~= ahead(x, spliced(xs, tuples)));
    } else {
        lemma_ahead_spliced(x, xs.drop_last(), tuples);
        assert(ahead(x, xs).drop_last() =~= ahead(x, xs.drop_last()));
        let left = before(seq![x] + xs.last(), tuples);
        let right = ahead(x, before(xs.last(), tuples));
        assert forall|j: int| 0 <= j < left.len() implies left[j] == right[j] by {
            assert((seq![x] + xs.last()) + tuples[j] =~= seq![x] + (xs.last() + tuples[j]));
        }
        assert(left =~= right);
        assert(ahead(x, xs).last() == seq![x] + xs.last());
        assert(spliced(ahead(x, xs), tuples) =~= ahead(x, spliced(xs, tuples)));
    }
}

proof fn lemma_cross_spliced(xs: Seq<Run>, ys: Seq<Seq<Run>>, tuples: Seq<Seq<Run>>)
    ensures
        cross(xs, spliced(ys, tuples)) == spliced(cross(xs, ys), tuples),
    decreases xs.len(),
{
    if xs.len() == 0 {
        assert(cross(xs, spliced(ys, tuples)) =~= spliced(cross(xs, ys), tuples));
    } else {
        lemma_cross_spliced(xs.drop_last(), ys, tuples);
        lemma_ahead_spliced(xs.last(), ys, tuples);
        lemma_spliced_add(cross(xs.drop_last(), ys), ahead(xs.last(), ys), tuples);
    }
}

/// Filling one list of slots after another.
proof fn lemma_fillings_add(a: Automaton, xs: Seq<Slot>, ys: Seq<Slot>)
    ensures
        fillings(a, xs + ys) == spliced(fillings(a, xs), fillings(a, ys)),
    decreases xs.len(),
{
    if xs.len() == 0 {
        assert(xs + ys =~= ys);
        let one = fillings(a, xs);
        let all = fillings(a, ys);
        assert(one.drop_last() =~= Seq::empty());
        assert(before(one.last(), all) =~= all) by {
            assert forall|j: int| 0 <= j < all.len() implies one.last() + all[j] == all[j] by {
                assert(one.last() + all[j] =~= all[j]);
            }
        }
        reveal_with_fuel(spliced, 2);
        assert(spliced(one, all) =~= all);
    } else {
        lemma_fillings_add(a, xs.skip(1), ys);
        assert((xs + ys).skip(1) =~= xs.skip(1) + ys);
        assert((xs + ys)[0] == xs[0]);
        lemma_cross_spliced(
            slot_runs(a, xs[0]),
            fillings(a, xs.skip(1)),
            fillings(a, ys),
        );
    }
}

/// The slots of the children from position `from` on.
pub open spec fn siblings(children: Seq<StateId>, parent: nat, from: nat) -> Seq<Slot> {
    if from <= children.len() {
        Seq::new(
            (children.len() - from) as nat,
            |j: int|
                Slot {
                    state: children[from + j],
                    place: Some((parent, (from + j) as nat)),
                    choice: 0,
                },
        )
    } else {
        Seq::empty()
    }
}

proof fn lemma_singles(xs: Seq<Run>)
    ensures
        cross(xs, seq![Seq::empty()]) == Seq::new(xs.len(), |j: int| seq![xs[j]]),
    decreases xs.len(),
{
    let unit: Seq<Seq<Run>> = seq![Seq::empty()];
    if xs.len() > 0 {
        lemma_singles(xs.drop_last());
        assert(ahead(xs.last(), unit)[0] =~= seq![xs.last()]);
    }
    assert(cross(xs, unit) =~= Seq::new(xs.len(), |j: int| seq![xs[j]]));
}

/// One slot is filled by one derivation.
pub proof fn lemma_single_slot(a: Automaton, e: Slot)
    ensures
        fillings(a, seq![e]) == Seq::new(
            slot_runs(a, e).len(),
            |j: int| seq![slot_runs(a, e)[j]],
        ),
{
    reveal_with_fuel(fillings, 2);
    let one = seq![e];
    assert(one.skip(1) =~= Seq::empty());
    lemma_singles(slot_runs(a, e));
}

proof fn lemma_extend_is_spliced(heads: Seq<Seq<Run>>, xs: Seq<Run>)
    ensures
        runs::extend_all(heads, xs) == spliced(heads, Seq::new(xs.len(), |j: int| seq![xs[j]])),
    decreases heads.len(),
{
    let singles = Seq::new(xs.len(), |j: int| seq![xs[j]]);
    if heads.len() > 0 {
        lemma_extend_is_spliced(heads.drop_last(), xs);
        let left = runs::extend_one(heads.last(), xs);
        let right = before(heads.last(), singles);
        assert forall|j: int| 0 <= j < left.len() implies left[j] == right[j] by {
            assert(heads.last().push(xs[j]) =~= heads.last() + singles[j]);
        }
        assert(left =~= right);
    }
}

/// Slots for states that occur in accepting derivations, with every choice open, are
/// filled as tuples of derivations are listed.
proof fn lemma_open_slots(a: Automaton, order: Seq<StateId>, slots: Seq<Slot>, states: Seq<StateId>)
    requires
        finite(a, order),
        slots.len() == states.len(),
        forall|j: int|
            0 <= j < slots.len() ==> (#[trigger] slots[j]).choice == 0 && slots[j].state == states[j]
                && a.relevant(states[j]),
    ensures
        fillings(a, slots) == runs::run_tuples(automaton::rule_shapes(a.rules), states, a.states),
    decreases slots.len(),
{
    let rules = automaton::rule_shapes(a.rules);
    if slots.len() > 0 {
        let front = slots.drop_last();
        let fewer = states.drop_last();
        assert forall|j: int| 0 <= j < front.len() implies (#[trigger] front[j]).choice == 0
            && front[j].state == fewer[j] && a.relevant(fewer[j]) by {
            assert(front[j] == slots[j]);
        }
        lemma_open_slots(a, order, front, fewer);
        let last = slots[slots.len() - 1];
        assert(last.choice == 0 && a.relevant(states[states.len() - 1]));
        assert(slots =~= front + seq![last]);
        lemma_fillings_add(a, front, seq![last]);
        let one = seq![last];
        assert(one.skip(1) =~= Seq::empty());
        assert(one[0] == last);
        let xs = slot_runs(a, last);
        assert(options(a, last.state).skip(0) =~= options(a, last.state));
        lemma_runs_by_options(a, order, last.state);
        assert(xs == runs::runs_of(rules, states.last(), a.states));
        reveal_with_fuel(fillings, 2);
        assert(fillings(a, one) == cross(xs, seq![Seq::empty()]));
        lemma_singles(xs);
        lemma_extend_is_spliced(runs::run_tuples(rules, fewer, a.states), xs);
    }
}

/// The nodes of a derivation that fills a slot, numbered from `from` on.
pub open spec fn nodes_of(a: Automaton, run: Run, e: Slot, from: nat) -> Seq<Node>
    decreases run,
{
    seq![node_for(a, run.rule, e)] + nodes_in(
        a,
        run.children,
        siblings(a.rules[run.rule as int].children, from, 0),
        from + 1,
    )
}

/// The nodes of derivations that fill slots one after the other.
pub open spec fn nodes_in(
    a: Automaton,
    tuple: Seq<Run>,
    slots: Seq<Slot>,
    from: nat,
) -> Seq<Node>
    decreases tuple,
{
    if tuple.len() == 0 || slots.len() == 0 {
        Seq::empty()
    } else {
        let first = nodes_of(a, tuple[0], slots[0], from);
        first + nodes_in(a, tuple.skip(1), slots.skip(1), from + first.len())
    }
}

/// The node that selects a rule for a slot.
pub open spec fn node_for(a: Automaton, rule: nat, e: Slot) -> Node {
    Node {
        state: e.state,
        rule,
        symbol: a.rules[rule as int].symbol,
        weight: a.rules[rule as int].weight,
        arity: a.rules[rule as int].children.len(),
        place: e.place,
    }
}

proof fn lemma_nodes_add(
    a: Automaton,
    x: Seq<Run>,
    y: Seq<Run>,
    xs: Seq<Slot>,
    ys: Seq<Slot>,
    from: nat,
)
    requires
        x.len() == xs.len(),
    ensures
        nodes_in(a, x + y, xs + ys, from) == nodes_in(a, x, xs, from) + nodes_in(
            a,
            y,
            ys,
            from + nodes_in(a, x, xs, from).len(),
        ),
    decreases x.len(),
{
    if x.len() == 0 {
        assert(x + y =~= y);
        assert(xs + ys =~= ys);
        assert(nodes_in(a, x, xs, from) + nodes_in(a, y, ys, from) =~= nodes_in(a, y, ys, from));
    } else {
        let first = nodes_of(a, x[0], xs[0], from);
        lemma_nodes_add(a, x.skip(1), y, xs.skip(1), ys, from + first.len());
        assert((x + y).skip(1) =~= x.skip(1) + y);
        assert((xs + ys).skip(1) =~= xs.skip(1) + ys);
        assert((x + y)[0] == x[0] && (xs + ys)[0] == xs[0]);
        assert(nodes_in(a, x + y, xs + ys, from) =~= nodes_in(a, x, xs, from) + nodes_in(
            a,
            y,
            ys,
            from + nodes_in(a, x, xs, from).len(),
        ));
    }
}

/// The node sequences of fillings.
pub open spec fn words_of(
    a: Automaton,
    tuples: Seq<Seq<Run>>,
    slots: Seq<Slot>,
    from: nat,
) -> Seq<Seq<Node>> {
    Seq::new(tuples.len(), |j: int| nodes_in(a, tuples[j], slots, from))
}

/// The node sequences that can fill the slots, numbered from `from` on.
pub open spec fn words(a: Automaton, slots: Seq<Slot>, from: nat) -> Seq<Seq<Node>> {
    words_of(a, fillings(a, slots), slots, from)
}

/// A node sequence put in front of each.
pub open spec fn prefixed(head: Seq<Node>, list: Seq<Seq<Node>>) -> Seq<Seq<Node>> {
    Seq::new(list.len(), |j: int| head + list[j])
}

/// Filling the first slot by a rule and its children, and then the rest.
proof fn lemma_first_rule(
    a: Automaton,
    e: Slot,
    i: nat,
    tuples: Seq<Seq<Run>>,
    rest: Seq<Slot>,
    ys: Seq<Seq<Run>>,
    from: nat,
)
    requires
        forall|j: int|
            0 <= j < tuples.len() ==> (#[trigger] tuples[j]).len()
                == a.rules[i as int].children.len(),
    ensures
        words_of(a, cross(runs::with_root(i, tuples), ys), seq![e] + rest, from) == prefixed(
            seq![node_for(a, i, e)],
            words_of(
                a,
                spliced(tuples, ys),
                siblings(a.rules[i as int].children, from, 0) + rest,
                from + 1,
            ),
        ),
    decreases tuples.len(),
{
    let slots = seq![e] + rest;
    let below = siblings(a.rules[i as int].children, from, 0);
    let root = node_for(a, i, e);
    let left = words_of(a, cross(runs::with_root(i, tuples), ys), slots, from);
    let right = prefixed(seq![root], words_of(a, spliced(tuples, ys), below + rest, from + 1));
    if tuples.len() == 0 {
        assert(left =~= right);
    } else {
        let fewer = tuples.drop_last();
        assert forall|j: int| 0 <= j < fewer.len() implies (#[trigger] fewer[j]).len()
            == a.rules[i as int].children.len() by {
            assert(fewer[j] == tuples[j]);
        }
        lemma_first_rule(a, e, i, fewer, rest, ys, from);
        assert(runs::with_root(i, tuples).drop_last() =~= runs::with_root(i, fewer));
        let t = tuples.last();
        assert(tuples[tuples.len() - 1].len() == a.rules[i as int].children.len());
        let run = Run { rule: i, children: t };
        assert(runs::with_root(i, tuples).last() == run);
        let l = words_of(a, ahead(run, ys), slots, from);
        let r = prefixed(seq![root], words_of(a, before(t, ys), below + rest, from + 1));
        assert forall|j: int| 0 <= j < ys.len() implies l[j] == r[j] by {
            let y = ys[j];
            let tuple = seq![run] + y;
            assert(tuple.skip(1) =~= y);
            assert(slots.skip(1) =~= rest);
            assert(tuple[0] == run && slots[0] == e);
            lemma_nodes_add(a, t, y, below, rest, from + 1);
            let inner = nodes_in(a, t, below, from + 1);
            assert(nodes_of(a, run, e, from) == seq![root] + inner);
            assert(l[j] =~= seq![root] + (inner + nodes_in(a, y, rest, from + 1 + inner.len())));
            assert(r[j] == seq![root] + nodes_in(a, t + y, below + rest, from + 1));
        }
        assert(l =~= r);
        assert(left =~= words_of(a, cross(runs::with_root(i, fewer), ys), slots, from) + l);
        assert(right =~= prefixed(
            seq![root],
            words_of(a, spliced(fewer, ys), below + rest, from + 1),
        ) + r);
    }
}

/// Whether the states of the slots occur in accepting derivations, and some choice of
/// rule is left for each.
pub open spec fn fillable(a: Automaton, slots: Seq<Slot>) -> bool {
    forall|j: int| 0 <= j < slots.len() ==> slot_fillable(a, #[trigger] slots[j])
}

/// Whether the state of a slot occurs in accepting derivations, and some choice of rule
/// is left.
pub open spec fn slot_fillable(a: Automaton, e: Slot) -> bool {
    a.relevant(e.state) && e.choice < options(a, e.state).len()
}

/// Tuples of derivations have one for each state.
proof fn lemma_tuple_len(rules: Seq<language_analysis::RuleShape>, states: Seq<StateId>, k: nat)
    ensures
        forall|j: int|
            0 <= j < runs::run_tuples(rules, states, k).len() ==> (#[trigger] runs::run_tuples(
                rules,
                states,
                k,
            )[j]).len() == states.len(),
    decreases states.len(),
{
    if states.len() > 0 {
        lemma_tuple_len(rules, states.drop_last(), k);
        lemma_extended_len(
            runs::run_tuples(rules, states.drop_last(), k),
            runs::runs_of(rules, states.last(), k),
            (states.len() - 1) as nat,
        );
    }
}

proof fn lemma_extended_len(heads: Seq<Seq<Run>>, tails: Seq<Run>, n: nat)
    requires
        forall|j: int| 0 <= j < heads.len() ==> (#[trigger] heads[j]).len() == n,
    ensures
        forall|j: int|
            0 <= j < runs::extend_all(heads, tails).len() ==> (#[trigger] runs::extend_all(
                heads,
                tails,
            )[j]).len() == n + 1,
    decreases heads.len(),
{
    if heads.len() > 0 {
        let fewer = heads.drop_last();
        assert forall|j: int| 0 <= j < fewer.len() implies (#[trigger] fewer[j]).len() == n by {
            assert(fewer[j] == heads[j]);
        }
        lemma_extended_len(fewer, tails, n);
        assert(heads[heads.len() - 1].len() == n);
        let all = runs::extend_all(heads, tails);
        let earlier = runs::extend_all(fewer, tails);
        assert forall|j: int| 0 <= j < all.len() implies (#[trigger] all[j]).len() == n + 1 by {
            if j < earlier.len() {
                assert(all[j] == earlier[j]);
            } else {
                assert(all[j] == heads.last().push(tails[j - earlier.len()]));
            }
        }
    }
}

/// The slots with the first one left to a later choice.
pub open spec fn with_next_choice(slots: Seq<Slot>) -> Seq<Slot> {
    slots.update(0, Slot { choice: slots[0].choice + 1, ..slots[0] })
}

/// What can fill the slots: first everything with the first slot's next rule at its
/// root, and then everything with a later one.
pub proof fn lemma_unfold(a: Automaton, order: Seq<StateId>, slots: Seq<Slot>, from: nat)
    requires
        finite(a, order),
        slots.len() > 0,
        slot_fillable(a, slots[0]),
    ensures
        ({
            let i = options(a, slots[0].state)[slots[0].choice as int];
            words(a, slots, from) == prefixed(
                seq![node_for(a, i, slots[0])],
                words(
                    a,
                    siblings(a.rules[i as int].children, from, 0) + slots.skip(1),
                    from + 1,
                ),
            ) + words(a, with_next_choice(slots), from)
        }),
{
    let rules = automaton::rule_shapes(a.rules);
    let e = slots[0];
    let list = options(a, e.state);
    let i = list[e.choice as int];
    lemma_options(a, e.state, a.rules.len());
    let rest = slots.skip(1);
    let ys = fillings(a, rest);
    let children = a.rules[i as int].children;
    let tuples = runs::run_tuples(rules, children, a.states);
    let part = list.skip(e.choice as int);
    lemma_rooted_first(a, part);
    assert(part[0] == i);
    assert(part.skip(1) =~= list.skip((e.choice + 1) as int));
    let later = with_next_choice(slots);
    assert(later.skip(1) =~= rest);
    assert(slot_runs(a, e) == rooted(a, i) + slot_runs(a, later[0]));
    lemma_cross_add(rooted(a, i), slot_runs(a, later[0]), ys);
    assert(slots =~= seq![e] + rest);
    lemma_tuple_len(rules, children, a.states);
    lemma_first_rule(a, e, i, tuples, rest, ys, from);
    let below = siblings(children, from, 0);
    assert(a.live(i as int));
    language_cardinality::lemma_order_len(rules, a.accepting, order, a.states);
    assert forall|j: int| 0 <= j < below.len() implies (#[trigger] below[j]).choice == 0
        && below[j].state == children[j] && a.relevant(children[j]) by {
        assert(rules[i as int].children == children);
        language_cardinality::lemma_child_stable(
            rules,
            a.accepting,
            order,
            i as int,
            j,
            a.states,
        );
        assert(rules[i as int].children[j] == children[j]);
    }
    lemma_open_slots(a, order, below, children);
    lemma_fillings_add(a, below, rest);
    let first = words_of(a, cross(rooted(a, i), ys), slots, from);
    let second = words_of(a, cross(slot_runs(a, later[0]), ys), slots, from);
    assert(words(a, slots, from) =~= first + second);
    assert(second =~= words(a, later, from)) by {
        let tuples = cross(slot_runs(a, later[0]), ys);
        assert(fillings(a, later) == tuples);
        assert forall|j: int| 0 <= j < tuples.len() implies nodes_in(a, tuples[j], slots, from)
            == nodes_in(a, tuples[j], later, from) by {
            lemma_choice_ignored(a, tuples[j], slots, from);
        }
    }
}

proof fn lemma_choice_ignored(a: Automaton, tuple: Seq<Run>, slots: Seq<Slot>, from: nat)
    requires
        slots.len() > 0,
    ensures
        nodes_in(a, tuple, slots, from) == nodes_in(a, tuple, with_next_choice(slots), from),
{
    let later = with_next_choice(slots);
    assert(later.skip(1) =~= slots.skip(1));
    if tuple.len() > 0 {
        assert(nodes_of(a, tuple[0], slots[0], from) == nodes_of(a, tuple[0], later[0], from));
    }
}

/// Where no rule is left for the first slot, nothing fills the slots.
pub proof fn lemma_exhausted(a: Automaton, slots: Seq<Slot>, from: nat)
    requires
        slots.len() > 0,
        slots[0].choice >= options(a, slots[0].state).len(),
        slots[0].choice <= options(a, slots[0].state).len(),
    ensures
        words(a, slots, from) == Seq::<Seq<Node>>::empty(),
{
    assert(options(a, slots[0].state).skip(slots[0].choice as int) =~= Seq::empty());
    assert(words(a, slots, from) =~= Seq::<Seq<Node>>::empty());
}

/// Without slots there is one way.
pub proof fn lemma_no_slots(a: Automaton, slots: Seq<Slot>, from: nat)
    requires
        slots.len() == 0,
    ensures
        words(a, slots, from) == seq![Seq::<Node>::empty()],
{
    let list = words(a, slots, from);
    assert(list[0] =~= Seq::<Node>::empty());
    assert(list =~= seq![Seq::<Node>::empty()]);
}

/// A relevant state has an option.
pub proof fn lemma_some_option(a: Automaton, order: Seq<StateId>, q: StateId)
    requires
        finite(a, order),
        a.relevant(q),
        a.productive(q),
    ensures
        options(a, q).len() > 0,
{
    let rules = automaton::rule_shapes(a.rules);
    language_cardinality::lemma_order_len(rules, a.accepting, order, a.states);
    lemma_runs_by_options(a, order, q);
    language_cardinality::lemma_relevant_has_run(rules, a.accepting, order, q, a.states);
    if options(a, q).len() == 0 {
        assert(rooted_in(a, options(a, q)).len() == 0);
    }
}

/// The children of an option are relevant and have options.
pub proof fn lemma_children_fillable(a: Automaton, order: Seq<StateId>, i: nat, from: nat)
    requires
        finite(a, order),
        i < a.rules.len(),
        a.live(i as int),
    ensures
        fillable(a, siblings(a.rules[i as int].children, from, 0)),
{
    let rules = automaton::rule_shapes(a.rules);
    let children = a.rules[i as int].children;
    language_cardinality::lemma_order_len(rules, a.accepting, order, a.states);
    let below = siblings(children, from, 0);
    assert forall|j: int| 0 <= j < below.len() implies slot_fillable(a, #[trigger] below[j]) by {
        assert(rules[i as int].children == children);
        language_cardinality::lemma_child_stable(
            rules,
            a.accepting,
            order,
            i as int,
            j,
            a.states,
        );
        assert(language_analysis::is_productive(rules, rules[i as int].children[j]));
        lemma_some_option(a, order, children[j]);
    }
}

} // verus!
