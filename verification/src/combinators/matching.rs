//! Finding the states of variables from the state of a term.
use crate::arena;
use crate::arena::{hom_children, hom_label};
use crate::cartesian;
use crate::cartesian::duplicate_all;
use crate::combinators::reach;
use crate::homomorphism::HomLabel;
use crate::ids::Symbol;
use crate::symbol_set;
use crate::terms;
use crate::terms::Term;
use crate::traits;
use crate::traits::{AutomatonState, CondensedRule, TopDownTa};
use packed_term_arena::tree::{Tree, TreeArena};
use vstd::prelude::*;

verus! {

/// Whether two states are the same.
pub fn same_state<S: AutomatonState>(a: &S, b: &S) -> (r: bool)
    ensures
        r == (*a == *b),
{
    let x = a.to_key();
    let y = b.to_key();
    if x.len() != y.len() {
        return false;
    }
    let mut i: usize = 0;
    while i < x.len()
        invariant
            i <= x@.len(),
            x@.len() == y@.len(),
            x@ == a.key(),
            y@ == b.key(),
            forall|j: int| 0 <= j < i ==> x@[j] == y@[j],
        decreases x@.len() - i,
    {
        if x[i] != y[i] {
            return false;
        }
        i += 1;
    }
    proof {
        assert(x@ =~= y@);
        S::key_injective(*a, *b);
    }
    true
}

/// Where the transitions into a state are looked up.
pub trait RuleSource {
    type State: AutomatonState;

    /// The transitions as a relation.
    spec fn relation(&self) -> spec_fn(Symbol, Seq<Self::State>, Self::State) -> bool;

    /// The children of the transitions for `f` into `q`.
    fn children_for(&self, f: Symbol, q: &Self::State) -> (r: Vec<Vec<Self::State>>)
        ensures
            forall|states: Seq<Self::State>| #[trigger]
                cartesian::contents(r@).contains(states) <==> (self.relation())(f, states, *q),
    ;
}

/// The transitions that condensed rules stand for.
pub struct ListedRules<'r, S> {
    pub rules: &'r Vec<CondensedRule<S>>,
}

/// The transitions that condensed rules stand for, as a relation.
pub open spec fn covered<S>(rules: Seq<CondensedRule<S>>) -> spec_fn(Symbol, Seq<S>, S) -> bool {
    |f: Symbol, children: Seq<S>, q: S| traits::some_covers(rules, f, children, q)
}

impl<'r, S: AutomatonState> RuleSource for ListedRules<'r, S> {
    type State = S;

    open spec fn relation(&self) -> spec_fn(Symbol, Seq<S>, S) -> bool {
        covered(self.rules@)
    }

    fn children_for(&self, f: Symbol, q: &S) -> (r: Vec<Vec<S>>) {
        let mut r: Vec<Vec<S>> = Vec::new();
        let ghost rules = self.rules@;
        let mut i: usize = 0;
        while i < self.rules.len()
            invariant
                i <= self.rules@.len(),
                rules == self.rules@,
                forall|states: Seq<S>| #[trigger]
                    cartesian::contents(r@).contains(states) <==> traits::some_covers(
                        rules.take(i as int),
                        f,
                        states,
                        *q,
                    ),
            decreases self.rules@.len() - i,
        {
            let rule = &self.rules[i];
            let ghost before = r@;
            if rule.symbols.contains(f) && same_state(&rule.result, q) {
                r.push(duplicate_all(rule.children.as_slice()));
                assert(cartesian::contents(r@) =~= cartesian::contents(before).push(
                    rule.children@,
                ));
            }
            proof {
                let seen = rules.take(i as int);
                let now = rules.take(i + 1);
                assert forall|states: Seq<S>| #[trigger]
                    cartesian::contents(r@).contains(states) <==> traits::some_covers(
                    now,
                    f,
                    states,
                    *q,
                ) by {
                    symbol_set::lemma_push_contains(
                        cartesian::contents(before),
                        rule.children@,
                        states,
                    );
                    if traits::some_covers(now, f, states, *q) {
                        let k = choose|k: int|
                            0 <= k < now.len() && traits::condensed_covers(
                                #[trigger] now[k],
                                f,
                                states,
                                *q,
                            );
                        if k < i {
                            assert(seen[k] == now[k]);
                        }
                    }
                    if traits::some_covers(seen, f, states, *q) {
                        let k = choose|k: int|
                            0 <= k < seen.len() && traits::condensed_covers(
                                #[trigger] seen[k],
                                f,
                                states,
                                *q,
                            );
                        assert(now[k] == seen[k]);
                    }
                    assert(now[i as int] == *rule);
                }
            }
            i += 1;
        }
        assert(rules.take(i as int) =~= rules);
        r
    }
}

/// The transitions that an automaton finds by their result.
pub struct Expanding<'i, A> {
    pub inner: &'i A,
}

impl<'i, A: TopDownTa> RuleSource for Expanding<'i, A> {
    type State = A::State;

    open spec fn relation(&self) -> spec_fn(Symbol, Seq<A::State>, A::State) -> bool {
        reach::steps_of(self.inner)
    }

    fn children_for(&self, f: Symbol, q: &A::State) -> (r: Vec<Vec<A::State>>) {
        let found = self.inner.step_topdown(q);
        let ghost all = traits::expansions(found@);
        let mut r: Vec<Vec<A::State>> = Vec::new();
        let mut i: usize = 0;
        while i < found.len()
            invariant
                i <= found@.len(),
                all == traits::expansions(found@),
                forall|states: Seq<A::State>| #[trigger]
                    cartesian::contents(r@).contains(states) <==> all.take(i as int).contains(
                        (f, states),
                    ),
            decreases found@.len() - i,
        {
            let ghost before = r@;
            let expansion = &found[i];
            if expansion.symbol == f {
                r.push(duplicate_all(expansion.children.as_slice()));
                assert(cartesian::contents(r@) =~= cartesian::contents(before).push(
                    expansion.children@,
                ));
            }
            proof {
                let seen = all.take(i as int);
                assert(all.take(i + 1) =~= seen.push(expansion@));
                assert forall|states: Seq<A::State>| #[trigger]
                    cartesian::contents(r@).contains(states) <==> all.take(i + 1).contains(
                    (f, states),
                ) by {
                    symbol_set::lemma_push_contains(
                        cartesian::contents(before),
                        expansion.children@,
                        states,
                    );
                    symbol_set::lemma_push_contains(seen, expansion@, (f, states));
                }
            }
            i += 1;
        }
        assert(all.take(i as int) =~= all);
        proof {
            assert forall|states: Seq<A::State>| #[trigger]
                cartesian::contents(r@).contains(states) <==> (self.relation())(f, states, *q) by {
                assert(all.contains((f, states)) <==> self.inner.steps_to(f, states, *q));
            }
        }
        r
    }
}

/// Whether states for all variables agree with states for some of them.
pub open spec fn agrees<S>(assignment: Seq<Option<S>>, children: Seq<S>) -> bool {
    assignment.len() == children.len() && forall|i: int|
        0 <= i < assignment.len() ==> (#[trigger] assignment[i] matches Some(s) ==> children[i]
            == s)
}

/// Whether exactly the given variables have a state.
pub open spec fn assigns<S>(assignment: Seq<Option<S>>, vars: Seq<usize>) -> bool {
    forall|v: usize|
        v < assignment.len() ==> (#[trigger] assignment[v as int] is Some <==> vars.contains(v))
}

/// Whether states for all variables agree with one of the assignments.
pub open spec fn some_agrees<S>(list: Seq<Vec<Option<S>>>, children: Seq<S>) -> bool {
    exists|k: int| 0 <= k < list.len() && agrees((#[trigger] list[k])@, children)
}

/// Whether every assignment has the given length and gives states to exactly the
/// given variables.
pub open spec fn all_assign<S>(
    list: Seq<Vec<Option<S>>>,
    arity: usize,
    vars: Seq<usize>,
) -> bool {
    forall|k: int|
        0 <= k < list.len() ==> (#[trigger] list[k])@.len() == arity && assigns(list[k]@, vars)
}

/// Puts two assignments together, unless they disagree.
fn merge_assignments<S: AutomatonState>(left: &Vec<Option<S>>, right: &Vec<Option<S>>) -> (r:
    Option<Vec<Option<S>>>)
    requires
        left@.len() == right@.len(),
    ensures
        match r {
            Some(m) => {
                &&& m@.len() == left@.len()
                &&& forall|i: int|
                    0 <= i < m@.len() ==> (#[trigger] m@[i] is Some <==> (left@[i] is Some
                        || right@[i] is Some))
                &&& forall|children: Seq<S>| #[trigger]
                    agrees(m@, children) <==> (agrees(left@, children) && agrees(right@, children))
            },
            None => forall|children: Seq<S>|
                !(#[trigger] agrees(left@, children) && agrees(right@, children)),
        },
{
    let mut m: Vec<Option<S>> = Vec::new();
    let mut i: usize = 0;
    while i < left.len()
        invariant
            i <= left@.len(),
            left@.len() == right@.len(),
            m@.len() == i,
            forall|j: int|
                0 <= j < i ==> #[trigger] m@[j] == (if left@[j] is Some {
                    left@[j]
                } else {
                    right@[j]
                }),
            forall|j: int|
                0 <= j < i && left@[j] is Some && right@[j] is Some ==> left@[j]
                    == #[trigger] right@[j],
        decreases left@.len() - i,
    {
        match &left[i] {
            Some(a) => {
                if let Some(b) = &right[i] {
                    if !same_state(a, b) {
                        proof {
                            assert forall|children: Seq<S>|
                                !(#[trigger] agrees(left@, children) && agrees(
                                    right@,
                                    children,
                                )) by {
                                if agrees(left@, children) && agrees(right@, children) {
                                    assert(left@[i as int] == Some(*a));
                                    assert(right@[i as int] == Some(*b));
                                }
                            }
                        }
                        return None;
                    }
                }
                m.push(Some(a.duplicate()));
            },
            None => {
                match &right[i] {
                    Some(b) => {
                        m.push(Some(b.duplicate()));
                    },
                    None => {
                        m.push(None);
                    },
                }
            },
        }
        i += 1;
    }
    proof {
        assert forall|children: Seq<S>| #[trigger] agrees(m@, children) <==> (agrees(
            left@,
            children,
        ) && agrees(right@, children)) by {
            if agrees(m@, children) {
                assert forall|j: int| 0 <= j < left@.len() implies (#[trigger] left@[j] matches Some(
                    s,
                ) ==> children[j] == s) by {
                    assert(m@[j] is Some || left@[j] is None);
                }
                assert forall|j: int| 0 <= j < right@.len() implies (
                #[trigger] right@[j] matches Some(s) ==> children[j] == s) by {
                    assert(m@[j] is Some || right@[j] is None);
                }
            }
            if agrees(left@, children) && agrees(right@, children) {
                assert forall|j: int| 0 <= j < m@.len() implies (#[trigger] m@[j] matches Some(s)
                    ==> children[j] == s) by {
                    assert(left@[j] is Some || right@[j] is Some || m@[j] is None);
                }
            }
        }
    }
    Some(m)
}

/// Puts every assignment of one list together with every one of another.
fn join_assignments<S: AutomatonState>(
    left: &Vec<Vec<Option<S>>>,
    right: &Vec<Vec<Option<S>>>,
    arity: usize,
    Ghost(a): Ghost<Seq<usize>>,
    Ghost(b): Ghost<Seq<usize>>,
) -> (r: Vec<Vec<Option<S>>>)
    requires
        all_assign(left@, arity, a),
        all_assign(right@, arity, b),
    ensures
        all_assign(r@, arity, a + b),
        forall|children: Seq<S>| #[trigger]
            some_agrees(r@, children) <==> (some_agrees(left@, children) && some_agrees(
                right@,
                children,
            )),
{
    let mut r: Vec<Vec<Option<S>>> = Vec::new();
    let mut i: usize = 0;
    while i < left.len()
        invariant
            i <= left@.len(),
            all_assign(left@, arity, a),
            all_assign(right@, arity, b),
            all_assign(r@, arity, a + b),
            forall|children: Seq<S>| #[trigger]
                some_agrees(r@, children) <==> (some_agrees(left@.take(i as int), children)
                    && some_agrees(right@, children)),
        decreases left@.len() - i,
    {
        let ghost early = r@;
        let mut j: usize = 0;
        while j < right.len()
            invariant
                i < left@.len(),
                j <= right@.len(),
                all_assign(left@, arity, a),
                all_assign(right@, arity, b),
                all_assign(r@, arity, a + b),
                forall|children: Seq<S>| #[trigger]
                    some_agrees(r@, children) <==> (some_agrees(early, children) || (agrees(
                        left@[i as int]@,
                        children,
                    ) && some_agrees(right@.take(j as int), children))),
            decreases right@.len() - j,
        {
            let ghost before = r@;
            let ghost x = left@[i as int]@;
            let ghost y = right@[j as int]@;
            if let Some(m) = merge_assignments(&left[i], &right[j]) {
                let ghost merged = m@;
                r.push(m);
                proof {
                    assert forall|v: usize| v < merged.len() implies (
                    #[trigger] merged[v as int] is Some <==> (a + b).contains(v)) by {
                        lemma_concat_contains(a, b, v);
                        assert(x[v as int] is Some <==> a.contains(v));
                        assert(y[v as int] is Some <==> b.contains(v));
                    }
                    assert(r@[before.len() as int]@ == merged);
                    assert forall|k: int| 0 <= k < r@.len() implies (#[trigger] r@[k])@.len()
                        == arity && assigns(r@[k]@, a + b) by {
                        if k < before.len() {
                            assert(r@[k] == before[k]);
                        }
                    }
                    assert forall|children: Seq<S>| #[trigger] some_agrees(
                        r@,
                        children,
                    ) <==> (some_agrees(before, children) || agrees(merged, children)) by {
                        lemma_some_agrees_push(before, r@.last(), children);
                        assert(r@ =~= before.push(r@.last()));
                    }
                }
            }
            proof {
                let seen = right@.take(j as int);
                let now = right@.take(j + 1);
                assert(now =~= seen.push(right@[j as int]));
                assert forall|children: Seq<S>| #[trigger] some_agrees(r@, children) <==> (
                some_agrees(early, children) || (agrees(x, children) && some_agrees(
                    now,
                    children,
                ))) by {
                    lemma_some_agrees_push(seen, right@[j as int], children);
                    assert(some_agrees(before, children) <==> (some_agrees(early, children) || (
                    agrees(x, children) && some_agrees(seen, children))));
                    assert(some_agrees(r@, children) <==> (some_agrees(before, children) || (agrees(
                        x,
                        children,
                    ) && agrees(y, children))));
                }
            }
            j += 1;
        }
        proof {
            let seen = left@.take(i as int);
            let now = left@.take(i + 1);
            assert(now =~= seen.push(left@[i as int]));
            assert(right@.take(j as int) =~= right@);
            assert forall|children: Seq<S>| #[trigger] some_agrees(r@, children) <==> (some_agrees(
                now,
                children,
            ) && some_agrees(right@, children)) by {
                lemma_some_agrees_push(seen, left@[i as int], children);
                assert(some_agrees(early, children) <==> (some_agrees(seen, children)
                    && some_agrees(right@, children)));
            }
        }
        i += 1;
    }
    assert(left@.take(i as int) =~= left@);
    r
}

proof fn lemma_some_agrees_push<S>(list: Seq<Vec<Option<S>>>, one: Vec<Option<S>>, children: Seq<S>)
    ensures
        some_agrees(list.push(one), children) <==> (some_agrees(list, children) || agrees(
            one@,
            children,
        )),
{
    let all = list.push(one);
    if some_agrees(all, children) {
        let k = choose|k: int| 0 <= k < all.len() && agrees((#[trigger] all[k])@, children);
        if k < list.len() {
            assert(list[k] == all[k]);
        }
    }
    if some_agrees(list, children) {
        let k = choose|k: int| 0 <= k < list.len() && agrees((#[trigger] list[k])@, children);
        assert(all[k] == list[k]);
    }
    assert(all[list.len() as int] == one);
}

pub proof fn lemma_concat_contains(a: Seq<usize>, b: Seq<usize>, v: usize)
    ensures
        (a + b).contains(v) <==> (a.contains(v) || b.contains(v)),
{
    if (a + b).contains(v) {
        let k = choose|k: int| 0 <= k < (a + b).len() && (a + b)[k] == v;
        if k < a.len() {
            assert(a[k] == v);
        } else {
            assert(b[k - a.len()] == v);
        }
    }
    if a.contains(v) {
        let k = choose|k: int| 0 <= k < a.len() && a[k] == v;
        assert((a + b)[k] == v);
    }
    if b.contains(v) {
        let k = choose|k: int| 0 <= k < b.len() && b[k] == v;
        assert((a + b)[a.len() + k] == v);
    }
}

/// An assignment without states, or with a state for one variable.
fn lone_assignment<S: AutomatonState>(arity: usize, chosen: Option<(usize, &S)>) -> (m: Vec<
    Option<S>,
>)
    requires
        chosen matches Some((v, q)) ==> v < arity,
    ensures
        m@.len() == arity,
        forall|i: int|
            0 <= i < arity ==> #[trigger] m@[i] == (match chosen {
                Some((v, q)) => if i == v {
                    Some(*q)
                } else {
                    None
                },
                None => None,
            }),
{
    let mut m: Vec<Option<S>> = Vec::new();
    let mut i: usize = 0;
    while i < arity
        invariant
            i <= arity,
            m@.len() == i,
            forall|j: int|
                0 <= j < i ==> #[trigger] m@[j] == (match chosen {
                    Some((v, q)) => if j == v {
                        Some(*q)
                    } else {
                        None
                    },
                    None => None,
                }),
        decreases arity - i,
    {
        match chosen {
            Some((v, q)) => {
                if v == i {
                    m.push(Some(q.duplicate()));
                } else {
                    m.push(None);
                }
            },
            None => {
                m.push(None);
            },
        }
        i += 1;
    }
    m
}

/// Whether all variables are below the arity.
pub open spec fn vars_below(vars: Seq<usize>, arity: usize) -> bool {
    forall|v: usize| #[trigger] vars.contains(v) ==> v < arity
}

/// The ways to give states to the variables of a term so that it may get `state`.
pub fn match_term<M: RuleSource>(
    source: &M,
    arena: &TreeArena<HomLabel>,
    term: Tree,
    arity: usize,
    state: &M::State,
) -> (r: Vec<Vec<Option<M::State>>>)
    requires
        arena::children_first(arena::hom_nodes(*arena)),
        arena::tree_number(term) < arena::hom_nodes(*arena).len(),
        vars_below(
            terms::term_vars(terms::term_at(arena::hom_nodes(*arena), arena::tree_number(term))),
            arity,
        ),
    ensures
        all_assign(
            r@,
            arity,
            terms::term_vars(terms::term_at(arena::hom_nodes(*arena), arena::tree_number(term))),
        ),
        forall|children: Seq<M::State>|
            children.len() == arity ==> (#[trigger] some_agrees(r@, children) <==> reach::reach(
                source.relation(),
                terms::term_at(arena::hom_nodes(*arena), arena::tree_number(term)),
                children,
                *state,
            )),
    decreases arena::tree_number(term),
{
    let ghost nodes = arena::hom_nodes(*arena);
    let ghost number = arena::tree_number(term);
    let ghost t = terms::term_at(nodes, number);
    let ghost step = source.relation();
    proof {
        terms::lemma_term_args(nodes, number);
    }
    match hom_label(arena, term) {
        HomLabel::Var(variable) => {
            proof {
                assert(terms::term_vars(t)[0] == variable);
                assert(terms::term_vars(t).contains(variable));
            }
            let m = lone_assignment(arity, Some((variable, state)));
            let mut r: Vec<Vec<Option<M::State>>> = Vec::new();
            let ghost one = m@;
            r.push(m);
            proof {
                assert forall|v: usize| v < one.len() implies (#[trigger] one[v as int] is Some
                    <==> terms::term_vars(t).contains(v)) by {
                    if terms::term_vars(t).contains(v) {
                        assert(v == variable);
                    }
                }
                assert(r@[0]@ == one);
                assert forall|children: Seq<M::State>| children.len() == arity implies (
                #[trigger] some_agrees(r@, children) <==> reach::reach(
                    step,
                    t,
                    children,
                    *state,
                )) by {
                    if some_agrees(r@, children) {
                        assert(one[variable as int] == Some(*state));
                    } else {
                        assert(!agrees(r@[0]@, children));
                    }
                }
            }
            r
        },
        HomLabel::Symbol(symbol) => {
            let parts = hom_children(arena, term);
            let ghost numbers = nodes[number as int].1;
            let ghost args = terms::terms_at(nodes, numbers);
            let ghost vars = terms::list_vars(args);
            assert(terms::term_vars(t) == vars);
            let tuples = source.children_for(symbol, state);
            let ghost list = cartesian::contents(tuples@);
            let mut r: Vec<Vec<Option<M::State>>> = Vec::new();
            let mut k: usize = 0;
            while k < tuples.len()
                invariant
                    k <= tuples@.len(),
                    nodes == arena::hom_nodes(*arena),
                    arena::children_first(nodes),
                    number == arena::tree_number(term),
                    number < nodes.len(),
                    numbers == nodes[number as int].1,
                    args == terms::terms_at(nodes, numbers),
                    arena::tree_numbers(parts@) == numbers,
                    forall|d: int| 0 <= d < numbers.len() ==> #[trigger] numbers[d] < number,
                    vars == terms::list_vars(args),
                    vars_below(vars, arity),
                    list == cartesian::contents(tuples@),
                    step == source.relation(),
                    all_assign(r@, arity, vars),
                    forall|children: Seq<M::State>|
                        children.len() == arity ==> (#[trigger] some_agrees(r@, children)
                            <==> exists|j: int|
                            0 <= j < k && reach::reach_list(
                                step,
                                args,
                                children,
                                #[trigger] list[j],
                            )),
                decreases tuples@.len() - k,
            {
                let tuple = &tuples[k];
                let ghost before = r@;
                let ghost states = list[k as int];
                if tuple.len() == parts.len() {
                    let mut partials: Vec<Vec<Option<M::State>>> = Vec::new();
                    let empty = lone_assignment::<M::State>(arity, None);
                    let ghost none = empty@;
                    partials.push(empty);
                    let mut c: usize = 0;
                    proof {
                        assert(args.take(0) =~= Seq::empty());
                        assert(partials@[0]@ == none);
                        assert forall|children: Seq<M::State>|
                            children.len() == arity implies (#[trigger] some_agrees(
                            partials@,
                            children,
                        ) <==> reached(step, args.take(0), children, states)) by {
                            assert(agrees(partials@[0]@, children));
                        }
                    }
                    while c < parts.len()
                        invariant
                            c <= parts@.len(),
                            tuple@.len() == parts@.len(),
                            tuple@ == states,
                            nodes == arena::hom_nodes(*arena),
                            arena::children_first(nodes),
                            number == arena::tree_number(term),
                            number < nodes.len(),
                            numbers == nodes[number as int].1,
                            args == terms::terms_at(nodes, numbers),
                            arena::tree_numbers(parts@) == numbers,
                            forall|d: int|
                                0 <= d < numbers.len() ==> #[trigger] numbers[d] < number,
                            vars == terms::list_vars(args),
                            vars_below(vars, arity),
                            step == source.relation(),
                            all_assign(partials@, arity, terms::list_vars(args.take(c as int))),
                            forall|children: Seq<M::State>|
                                children.len() == arity ==> (#[trigger] some_agrees(
                                    partials@,
                                    children,
                                ) <==> reached(step, args.take(c as int), children, states)),
                        decreases parts@.len() - c,
                    {
                        let ghost part = args[c as int];
                        proof {
                            assert(arena::tree_numbers(parts@)[c as int] == arena::tree_number(
                                parts@[c as int],
                            ));
                            assert(numbers[c as int] < number);
                            assert forall|v: usize| #[trigger]
                                terms::term_vars(part).contains(v) implies v < arity by {
                                reach::lemma_part_vars(args, c as int, v);
                                assert(vars.contains(v));
                            }
                        }
                        let found = match_term(source, arena, parts[c], arity, &tuple[c]);
                        let next = join_assignments(
                            &partials,
                            &found,
                            arity,
                            Ghost(terms::list_vars(args.take(c as int))),
                            Ghost(terms::term_vars(part)),
                        );
                        proof {
                            let seen = args.take(c as int);
                            let now = args.take(c + 1);
                            assert(now =~= seen.push(part));
                            terms::lemma_list_vars_push(seen, part);
                            assert forall|children: Seq<M::State>|
                                children.len() == arity implies (#[trigger] some_agrees(
                                next@,
                                children,
                            ) <==> reached(step, now, children, states)) by {
                                assert(some_agrees(partials@, children) <==> reached(
                                    step,
                                    seen,
                                    children,
                                    states,
                                ));
                                assert(some_agrees(found@, children) <==> reach::reach(
                                    step,
                                    part,
                                    children,
                                    states[c as int],
                                ));
                                lemma_reached_push(step, seen, part, children, states);
                            }
                        }
                        partials = next;
                        c += 1;
                    }
                    let ghost done = partials@;
                    r.append(&mut partials);
                    proof {
                        assert(args.take(c as int) =~= args);
                        assert(r@ =~= before + done);
                        assert forall|j: int| 0 <= j < r@.len() implies (#[trigger] r@[j])@.len()
                            == arity && assigns(r@[j]@, vars) by {
                            if j < before.len() {
                                assert(r@[j] == before[j]);
                            } else {
                                assert(r@[j] == done[j - before.len()]);
                            }
                        }
                        assert forall|children: Seq<M::State>| children.len() == arity implies (
                        #[trigger] some_agrees(r@, children) <==> (some_agrees(before, children)
                            || reach::reach_list(step, args, children, states))) by {
                            lemma_some_agrees_concat(before, done, children);
                            assert(some_agrees(done, children) <==> reached(
                                step,
                                args,
                                children,
                                states,
                            ));
                        }
                    }
                }
                proof {
                    assert forall|children: Seq<M::State>| children.len() == arity implies (
                    #[trigger] some_agrees(r@, children) <==> exists|j: int|
                        0 <= j < k + 1 && reach::reach_list(
                            step,
                            args,
                            children,
                            #[trigger] list[j],
                        )) by {
                        assert(some_agrees(before, children) <==> exists|j: int|
                            0 <= j < k && reach::reach_list(
                                step,
                                args,
                                children,
                                #[trigger] list[j],
                            ));
                        assert(some_agrees(r@, children) <==> (some_agrees(before, children)
                            || reach::reach_list(step, args, children, list[k as int])));
                    }
                }
                k += 1;
            }
            proof {
                assert forall|children: Seq<M::State>| children.len() == arity implies (
                #[trigger] some_agrees(r@, children) <==> reach::reach(
                    step,
                    t,
                    children,
                    *state,
                )) by {
                    if some_agrees(r@, children) {
                        let j = choose|j: int|
                            0 <= j < k && reach::reach_list(
                                step,
                                args,
                                children,
                                #[trigger] list[j],
                            );
                        assert(list.contains(list[j]));
                        reach::lemma_app_reach(step, t, children, list[j], *state);
                    }
                    if reach::reach(step, t, children, *state) {
                        let states = reach::lemma_reach_app(step, symbol, args, children, *state);
                        assert(list.contains(states));
                        let j = choose|j: int| 0 <= j < list.len() && list[j] == states;
                        assert(reach::reach_list(step, args, children, list[j]));
                    }
                }
            }
            r
        },
    }
}

/// Whether the first terms of a list may get the first of the given states.
spec fn reached<S>(
    step: spec_fn(Symbol, Seq<S>, S) -> bool,
    args: Seq<Term>,
    children: Seq<S>,
    states: Seq<S>,
) -> bool {
    forall|i: int|
        0 <= i < args.len() ==> reach::reach(step, #[trigger] args[i], children, states[i])
}

proof fn lemma_reached_push<S>(
    step: spec_fn(Symbol, Seq<S>, S) -> bool,
    args: Seq<Term>,
    part: Term,
    children: Seq<S>,
    states: Seq<S>,
)
    ensures
        reached(step, args.push(part), children, states) <==> (reached(step, args, children, states)
            && reach::reach(step, part, children, states[args.len() as int])),
{
    let all = args.push(part);
    if reached(step, all, children, states) {
        assert forall|i: int| 0 <= i < args.len() implies reach::reach(
            step,
            #[trigger] args[i],
            children,
            states[i],
        ) by {
            assert(all[i] == args[i]);
        }
        assert(all[args.len() as int] == part);
    }
    if reached(step, args, children, states) && reach::reach(
        step,
        part,
        children,
        states[args.len() as int],
    ) {
        assert forall|i: int| 0 <= i < all.len() implies reach::reach(
            step,
            #[trigger] all[i],
            children,
            states[i],
        ) by {
            if i < args.len() {
                assert(args[i] == all[i]);
            }
        }
    }
}

proof fn lemma_some_agrees_concat<S>(
    a: Seq<Vec<Option<S>>>,
    b: Seq<Vec<Option<S>>>,
    children: Seq<S>,
)
    ensures
        some_agrees(a + b, children) <==> (some_agrees(a, children) || some_agrees(b, children)),
{
    let all = a + b;
    if some_agrees(all, children) {
        let k = choose|k: int| 0 <= k < all.len() && agrees((#[trigger] all[k])@, children);
        if k < a.len() {
            assert(a[k] == all[k]);
        } else {
            assert(b[k - a.len()] == all[k]);
        }
    }
    if some_agrees(a, children) {
        let k = choose|k: int| 0 <= k < a.len() && agrees((#[trigger] a[k])@, children);
        assert(all[k] == a[k]);
    }
    if some_agrees(b, children) {
        let k = choose|k: int| 0 <= k < b.len() && agrees((#[trigger] b[k])@, children);
        assert(all[a.len() + k] == b[k]);
    }
}

/// The states of an assignment that has one for every variable.
fn complete<S: AutomatonState>(assignment: &Vec<Option<S>>) -> (c: Vec<S>)
    requires
        forall|i: int| 0 <= i < assignment@.len() ==> #[trigger] assignment@[i] is Some,
    ensures
        forall|children: Seq<S>| #[trigger] agrees(assignment@, children) <==> children == c@,
{
    let mut c: Vec<S> = Vec::new();
    let mut i: usize = 0;
    while i < assignment.len()
        invariant
            i <= assignment@.len(),
            c@.len() == i,
            forall|j: int| 0 <= j < assignment@.len() ==> #[trigger] assignment@[j] is Some,
            forall|j: int| 0 <= j < i ==> assignment@[j] == Some(#[trigger] c@[j]),
        decreases assignment@.len() - i,
    {
        assert(assignment@[i as int] is Some);
        if let Some(q) = &assignment[i] {
            c.push(q.duplicate());
        }
        i += 1;
    }
    proof {
        assert forall|children: Seq<S>| #[trigger] agrees(assignment@, children) <==> children
            == c@ by {
            if agrees(assignment@, children) {
                assert forall|j: int| 0 <= j < c@.len() implies children[j] == c@[j] by {
                    assert(assignment@[j] == Some(c@[j]));
                }
                assert(children =~= c@);
            }
        }
    }
    c
}

/// The tuples of states for the variables of a term under which it may get `state`,
/// where all variables below the arity occur.
pub fn match_complete<M: RuleSource>(
    source: &M,
    arena: &TreeArena<HomLabel>,
    term: Tree,
    arity: usize,
    state: &M::State,
) -> (r: Vec<Vec<M::State>>)
    requires
        arena::children_first(arena::hom_nodes(*arena)),
        arena::tree_number(term) < arena::hom_nodes(*arena).len(),
        forall|v: usize| #[trigger]
            terms::term_vars(
                terms::term_at(arena::hom_nodes(*arena), arena::tree_number(term)),
            ).contains(v) <==> v < arity,
    ensures
        forall|children: Seq<M::State>| #[trigger]
            cartesian::contents(r@).contains(children) <==> (children.len() == arity
                && reach::reach(
                source.relation(),
                terms::term_at(arena::hom_nodes(*arena), arena::tree_number(term)),
                children,
                *state,
            )),
{
    let ghost t = terms::term_at(arena::hom_nodes(*arena), arena::tree_number(term));
    let found = match_term(source, arena, term, arity, state);
    let mut r: Vec<Vec<M::State>> = Vec::new();
    let mut i: usize = 0;
    while i < found.len()
        invariant
            i <= found@.len(),
            forall|v: usize| #[trigger] terms::term_vars(t).contains(v) <==> v < arity,
            all_assign(found@, arity, terms::term_vars(t)),
            forall|children: Seq<M::State>| #[trigger]
                cartesian::contents(r@).contains(children) <==> some_agrees(
                    found@.take(i as int),
                    children,
                ),
        decreases found@.len() - i,
    {
        let ghost before = r@;
        let ghost one = found@[i as int]@;
        proof {
            assert forall|j: int| 0 <= j < one.len() implies #[trigger] one[j] is Some by {
                assert(one[j as usize as int] is Some <==> terms::term_vars(t).contains(
                    j as usize,
                ));
            }
        }
        let c = complete(&found[i]);
        let ghost tuple = c@;
        r.push(c);
        proof {
            assert(cartesian::contents(r@) =~= cartesian::contents(before).push(tuple));
            let seen = found@.take(i as int);
            assert(found@.take(i + 1) =~= seen.push(found@[i as int]));
            assert forall|children: Seq<M::State>| #[trigger]
                cartesian::contents(r@).contains(children) <==> some_agrees(
                found@.take(i + 1),
                children,
            ) by {
                symbol_set::lemma_push_contains(cartesian::contents(before), tuple, children);
                lemma_some_agrees_push(seen, found@[i as int], children);
                assert(agrees(one, children) <==> children == tuple);
            }
        }
        i += 1;
    }
    proof {
        assert(found@.take(i as int) =~= found@);
        assert forall|children: Seq<M::State>| #[trigger]
            cartesian::contents(r@).contains(children) <==> (children.len() == arity
            && reach::reach(source.relation(), t, children, *state)) by {
            if some_agrees(found@, children) {
                let k = choose|k: int|
                    0 <= k < found@.len() && agrees((#[trigger] found@[k])@, children);
                assert(children.len() == arity);
            }
        }
    }
    r
}

} // verus!
