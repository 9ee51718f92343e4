//! Which states a term gets from states for its variables.
use crate::apply;
use crate::apply::SymbolTree;
use crate::homomorphism::HomomorphismError;
use crate::ids::Symbol;
use crate::recognition;
use crate::terms;
use crate::terms::Term;
use crate::traits::{BottomUpTa, DetBottomUpTa};
use vstd::prelude::*;

verus! {

/// Whether there is a state for each argument.
pub open spec fn one_each<S>(args: Seq<Term>, states: Seq<S>) -> bool {
    states.len() == args.len()
}

/// Whether a term may get state `q` when variable `?i` has state `children[i]`.
pub open spec fn reach<S>(
    step: spec_fn(Symbol, Seq<S>, S) -> bool,
    t: Term,
    children: Seq<S>,
    q: S,
) -> bool
    decreases t,
{
    match t {
        Term::Var(v) => v < children.len() && children[v as int] == q,
        Term::App(f, args) => exists|states: Seq<S>|
            #[trigger] one_each(args, states) && (forall|i: int|
                0 <= i < args.len() ==> reach(step, #[trigger] args[i], children, states[i]))
                && step(f, states, q),
    }
}

/// Whether terms may get the given states, one each.
pub open spec fn reach_list<S>(
    step: spec_fn(Symbol, Seq<S>, S) -> bool,
    args: Seq<Term>,
    children: Seq<S>,
    states: Seq<S>,
) -> bool {
    states.len() == args.len() && forall|i: int|
        0 <= i < args.len() ==> reach(step, #[trigger] args[i], children, states[i])
}

/// The states of the arguments when an application gets `q`.
pub proof fn lemma_reach_app<S>(
    step: spec_fn(Symbol, Seq<S>, S) -> bool,
    f: Symbol,
    args: Seq<Term>,
    children: Seq<S>,
    q: S,
) -> (states: Seq<S>)
    requires
        reach(step, Term::App(f, args), children, q),
    ensures
        reach_list(step, args, children, states),
        step(f, states, q),
{
    choose|states: Seq<S>|
        #[trigger] one_each(args, states) && (forall|i: int|
            0 <= i < args.len() ==> reach(step, #[trigger] args[i], children, states[i]))
            && step(f, states, q)
}

/// An application gets what the relation leads to from states of its arguments.
pub proof fn lemma_app_reach<S>(
    step: spec_fn(Symbol, Seq<S>, S) -> bool,
    t: Term,
    children: Seq<S>,
    states: Seq<S>,
    q: S,
)
    requires
        t is App,
        reach_list(step, t->App_1, children, states),
        step(t->App_0, states, q),
    ensures
        reach(step, t, children, q),
{
    assert(one_each(t->App_1, states));
}

/// The transitions of an automaton as a relation.
pub open spec fn steps_of<A: BottomUpTa>(a: &A) -> spec_fn(
    Symbol,
    Seq<A::State>,
    A::State,
) -> bool {
    |f: Symbol, children: Seq<A::State>, q: A::State| a.steps_to(f, children, q)
}

/// The state that a term gets when every node in it has a reported one.
pub open spec fn reach_det<A: DetBottomUpTa>(
    a: &A,
    t: Term,
    children: Seq<A::State>,
) -> Option<A::State>
    decreases t,
{
    match t {
        Term::Var(v) => if v < children.len() {
            Some(children[v as int])
        } else {
            None
        },
        Term::App(f, args) => match reach_det_list(a, args, children) {
            Some(states) => a.det(f, states),
            None => None,
        },
    }
}

/// The states that terms get when all of them get one.
pub open spec fn reach_det_list<A: DetBottomUpTa>(
    a: &A,
    args: Seq<Term>,
    children: Seq<A::State>,
) -> Option<Seq<A::State>>
    decreases args,
{
    if args.len() == 0 {
        Some(Seq::empty())
    } else {
        match reach_det_list(a, args.drop_last(), children) {
            Some(front) => match reach_det(a, args.last(), children) {
                Some(q) => Some(front.push(q)),
                None => None,
            },
            None => None,
        }
    }
}

/// A term without a state keeps a longer list from having states.
pub proof fn lemma_det_list_none<A: DetBottomUpTa>(
    a: &A,
    args: Seq<Term>,
    children: Seq<A::State>,
    k: int,
)
    requires
        0 <= k <= args.len(),
        reach_det_list(a, args.take(k), children) is None,
    ensures
        reach_det_list(a, args, children) is None,
    decreases args.len(),
{
    if k < args.len() {
        assert(args.drop_last().take(k) =~= args.take(k));
        lemma_det_list_none(a, args.drop_last(), children, k);
    } else {
        assert(args.take(k) =~= args);
    }
}

/// A reported state is the only one that the term may get.
pub proof fn lemma_reach_det<A: DetBottomUpTa>(a: &A, t: Term, children: Seq<A::State>)
    ensures
        reach_det(a, t, children) matches Some(q) ==> forall|r: A::State| #[trigger]
            reach(steps_of(a), t, children, r) <==> r == q,
    decreases t,
{
    if let Some(q) = reach_det(a, t, children) {
        if let Term::App(f, args) = t {
            lemma_reach_det_list(a, args, children);
            let states = reach_det_list(a, args, children)->0;
            a.det_sound(f, states);
            assert forall|r: A::State| #[trigger] reach(steps_of(a), t, children, r) <==> r
                == q by {
                assert(reach_list(steps_of(a), args, children, states));
                assert(a.steps_to(f, states, r) <==> r == q);
                if reach(steps_of(a), t, children, r) {
                    let other = lemma_reach_app(steps_of(a), f, args, children, r);
                    assert(other == states);
                    assert(a.steps_to(f, states, r));
                }
                if r == q {
                    lemma_app_reach(steps_of(a), t, children, states, r);
                }
            }
        }
    }
}

proof fn lemma_reach_det_list<A: DetBottomUpTa>(a: &A, args: Seq<Term>, children: Seq<A::State>)
    ensures
        reach_det_list(a, args, children) matches Some(states) ==> forall|s: Seq<A::State>|
         #[trigger]
            reach_list(steps_of(a), args, children, s) <==> s == states,
    decreases args,
{
    if let Some(states) = reach_det_list(a, args, children) {
        if args.len() > 0 {
            let front = args.drop_last();
            lemma_reach_det_list(a, front, children);
            lemma_reach_det(a, args.last(), children);
            let head = reach_det_list(a, front, children)->0;
            let q = reach_det(a, args.last(), children)->0;
            assert(reach_list(steps_of(a), front, children, head));
            assert(head.len() == front.len());
            assert forall|s: Seq<A::State>| #[trigger]
                reach_list(steps_of(a), args, children, s) <==> s == states by {
                if reach_list(steps_of(a), args, children, s) {
                    assert forall|i: int| 0 <= i < front.len() implies reach(
                        steps_of(a),
                        #[trigger] front[i],
                        children,
                        s.drop_last()[i],
                    ) by {
                        assert(reach(steps_of(a), args[i], children, s[i]));
                    }
                    assert(reach_list(steps_of(a), front, children, s.drop_last()));
                    assert(s.drop_last() == head);
                    assert(reach(steps_of(a), args[args.len() - 1], children, s[args.len() - 1]));
                    assert(s =~= head.push(q));
                }
                if s == states {
                    assert forall|i: int| 0 <= i < args.len() implies reach(
                        steps_of(a),
                        #[trigger] args[i],
                        children,
                        s[i],
                    ) by {
                        if i < front.len() {
                            assert(reach(steps_of(a), front[i], children, head[i]));
                        }
                    }
                }
            }
        } else {
            assert forall|s: Seq<A::State>| #[trigger]
                reach_list(steps_of(a), args, children, s) <==> s == states by {
                if reach_list(steps_of(a), args, children, s) {
                    assert(s =~= states);
                }
            }
        }
    }
}

/// Which states a term may get depends on the states of its variables alone.
pub proof fn lemma_reach_vars<S>(
    step: spec_fn(Symbol, Seq<S>, S) -> bool,
    t: Term,
    a: Seq<S>,
    b: Seq<S>,
    q: S,
)
    requires
        a.len() == b.len(),
        forall|v: usize|
            v < a.len() && #[trigger] terms::term_vars(t).contains(v) ==> a[v as int]
                == b[v as int],
        reach(step, t, a, q),
    ensures
        reach(step, t, b, q),
    decreases t,
{
    match t {
        Term::Var(v) => {
            assert(terms::term_vars(t)[0] == v);
            assert(terms::term_vars(t).contains(v));
        },
        Term::App(f, args) => {
            let states = lemma_reach_app(step, f, args, a, q);
            assert forall|i: int| 0 <= i < args.len() implies reach(
                step,
                #[trigger] args[i],
                b,
                states[i],
            ) by {
                assert(reach(step, args[i], a, states[i]));
                assert forall|v: usize|
                    v < a.len() && #[trigger] terms::term_vars(args[i]).contains(v) implies
                        a[v as int] == b[v as int] by {
                    lemma_part_vars(args, i, v);
                    assert(terms::term_vars(t).contains(v));
                }
                lemma_reach_vars(step, args[i], a, b, states[i]);
            }
            lemma_app_reach(step, t, b, states, q);
        },
    }
}

/// The variables of a list are those of its terms.
pub proof fn lemma_part_vars(args: Seq<Term>, i: int, v: usize)
    requires
        0 <= i < args.len(),
        terms::term_vars(args[i]).contains(v),
    ensures
        terms::list_vars(args).contains(v),
    decreases args.len(),
{
    let head = terms::term_vars(args[0]);
    let tail = terms::list_vars(args.skip(1));
    if i == 0 {
        let k = choose|k: int| 0 <= k < head.len() && head[k] == v;
        assert((head + tail)[k] == v);
    } else {
        assert(args.skip(1)[i - 1] == args[i]);
        lemma_part_vars(args.skip(1), i - 1, v);
        let k = choose|k: int| 0 <= k < tail.len() && tail[k] == v;
        assert((head + tail)[head.len() + k] == v);
    }
}

/// The trees put in place of variables, and the states given to those that occur.
pub open spec fn vars_reach<A: BottomUpTa>(
    a: &A,
    vars: Seq<usize>,
    args: Seq<SymbolTree>,
    children: Seq<A::State>,
) -> bool {
    children.len() == args.len() && forall|v: usize|
        v < args.len() && #[trigger] vars.contains(v) ==> recognition::reaches(
            a,
            args[v as int],
            children[v as int],
        )
}

/// A term with trees in place of its variables may get the states that the term
/// may get from states of those trees.
pub proof fn lemma_substitute_reaches<A: BottomUpTa>(
    a: &A,
    t: Term,
    args: Seq<SymbolTree>,
    children: Seq<A::State>,
    q: A::State,
)
    requires
        apply::substitute(t, args) is Ok,
        vars_reach(a, terms::term_vars(t), args, children),
        reach(steps_of(a), t, children, q),
    ensures
        recognition::reaches(a, apply::substitute(t, args)->Ok_0, q),
    decreases t,
{
    match t {
        Term::Var(v) => {
            assert(terms::term_vars(t)[0] == v);
            assert(terms::term_vars(t).contains(v));
        },
        Term::App(f, parts) => {
            let states = lemma_reach_app(steps_of(a), f, parts, children, q);
            let u = apply::substitute(t, args)->Ok_0;
            lemma_substitute_list(parts, args);
            assert forall|i: int| 0 <= i < u.children.len() implies recognition::reaches(
                a,
                #[trigger] u.children[i],
                states[i],
            ) by {
                assert(apply::substitute(parts[i], args) == Ok::<SymbolTree, HomomorphismError>(
                    u.children[i],
                ));
                assert(reach(steps_of(a), parts[i], children, states[i]));
                assert forall|v: usize|
                    v < args.len() && #[trigger] terms::term_vars(parts[i]).contains(v) implies
                        recognition::reaches(a, args[v as int], children[v as int]) by {
                    lemma_part_vars(parts, i, v);
                    assert(terms::term_vars(t).contains(v));
                }
                lemma_substitute_reaches(a, parts[i], args, children, states[i]);
            }
            assert(a.steps_to(u.symbol, states, q));
        },
    }
}

/// Substituting in a list substitutes in each of its terms.
pub proof fn lemma_substitute_list(parts: Seq<Term>, args: Seq<SymbolTree>)
    ensures
        apply::substitute_list(parts, args) matches Ok(us) ==> us.len() == parts.len() && forall|
            i: int,
        |
            0 <= i < parts.len() ==> apply::substitute(#[trigger] parts[i], args) == Ok::<
                SymbolTree,
                HomomorphismError,
            >(us[i]),
    decreases parts.len(),
{
    if parts.len() > 0 {
        let front = parts.drop_last();
        lemma_substitute_list(front, args);
        if let Ok(us) = apply::substitute_list(parts, args) {
            let head = apply::substitute_list(front, args)->Ok_0;
            assert forall|i: int| 0 <= i < parts.len() implies apply::substitute(
                #[trigger] parts[i],
                args,
            ) == Ok::<SymbolTree, HomomorphismError>(us[i]) by {
                if i < front.len() {
                    assert(apply::substitute(front[i], args) == Ok::<SymbolTree, HomomorphismError>(
                        head[i],
                    ));
                }
            }
        }
    }
}

/// Where every variable occurs once, each state of a term with trees in place of its
/// variables comes from some states of those trees.
pub proof fn lemma_reaches_substitute<A: BottomUpTa>(
    a: &A,
    t: Term,
    args: Seq<SymbolTree>,
    q: A::State,
) -> (children: Seq<A::State>)
    requires
        terms::term_vars(t).no_duplicates(),
        apply::substitute(t, args) is Ok,
        recognition::reaches(a, apply::substitute(t, args)->Ok_0, q),
    ensures
        vars_reach(a, terms::term_vars(t), args, children),
        reach(steps_of(a), t, children, q),
    decreases t,
{
    match t {
        Term::Var(v) => {
            let children = Seq::new(args.len(), |i: int| q);
            assert forall|w: usize|
                w < args.len() && #[trigger] terms::term_vars(t).contains(w) implies
                    recognition::reaches(a, args[w as int], children[w as int]) by {
                assert(w == v);
            }
            children
        },
        Term::App(f, parts) => {
            let u = apply::substitute(t, args)->Ok_0;
            let states = recognition::lemma_reaches(a, u, q);
            assert(apply::substitute_list(parts, args) == Ok::<Seq<SymbolTree>, HomomorphismError>(
                u.children,
            ));
            lemma_substitute_list(parts, args);
            let children = lemma_reaches_substitute_list(a, parts, args, u.children, states);
            lemma_app_reach(steps_of(a), t, children, states, q);
            children
        },
    }
}

proof fn lemma_reaches_substitute_list<A: BottomUpTa>(
    a: &A,
    parts: Seq<Term>,
    args: Seq<SymbolTree>,
    us: Seq<SymbolTree>,
    states: Seq<A::State>,
) -> (children: Seq<A::State>)
    requires
        terms::list_vars(parts).no_duplicates(),
        us.len() == parts.len(),
        states.len() == parts.len(),
        forall|i: int|
            0 <= i < parts.len() ==> apply::substitute(#[trigger] parts[i], args) == Ok::<
                SymbolTree,
                HomomorphismError,
            >(us[i]),
        forall|i: int|
            0 <= i < us.len() ==> recognition::reaches(a, #[trigger] us[i], states[i]),
    ensures
        vars_reach(a, terms::list_vars(parts), args, children),
        reach_list(steps_of(a), parts, children, states),
    decreases parts,
{
    if parts.len() == 0 {
        Seq::new(args.len(), |i: int| arbitrary())
    } else {
        let n = parts.len() - 1;
        let front = parts.drop_last();
        let last = parts.last();
        let head = terms::list_vars(front);
        let tail = terms::term_vars(last);
        terms::lemma_list_vars_push(front, last);
        assert(front.push(last) =~= parts);
        assert(terms::list_vars(parts) == head + tail);
        assert(head.no_duplicates()) by {
            assert forall|i: int, j: int|
                0 <= i < head.len() && 0 <= j < head.len() && i != j implies head[i] != head[j] by {
                assert((head + tail)[i] == head[i] && (head + tail)[j] == head[j]);
            }
        }
        assert(tail.no_duplicates()) by {
            assert forall|i: int, j: int|
                0 <= i < tail.len() && 0 <= j < tail.len() && i != j implies tail[i] != tail[j] by {
                assert((head + tail)[head.len() + i] == tail[i]);
                assert((head + tail)[head.len() + j] == tail[j]);
            }
        }
        assert forall|v: usize| head.contains(v) implies !tail.contains(v) by {
            if tail.contains(v) {
                let i = choose|i: int| 0 <= i < head.len() && head[i] == v;
                let j = choose|j: int| 0 <= j < tail.len() && tail[j] == v;
                assert((head + tail)[i] == (head + tail)[head.len() + j]);
            }
        }
        assert forall|i: int| 0 <= i < front.len() implies apply::substitute(
            #[trigger] front[i],
            args,
        ) == Ok::<SymbolTree, HomomorphismError>(us.drop_last()[i]) by {
            assert(front[i] == parts[i]);
        }
        assert forall|i: int| 0 <= i < us.drop_last().len() implies recognition::reaches(
            a,
            #[trigger] us.drop_last()[i],
            states.drop_last()[i],
        ) by {
            assert(recognition::reaches(a, us[i], states[i]));
        }
        let early = lemma_reaches_substitute_list(
            a,
            front,
            args,
            us.drop_last(),
            states.drop_last(),
        );
        assert(parts[n] == last);
        assert(recognition::reaches(a, us[n], states[n]));
        let late = lemma_reaches_substitute(a, last, args, states[n]);
        let children = Seq::new(
            args.len(),
            |i: int|
                if tail.contains(i as usize) {
                    late[i]
                } else {
                    early[i]
                },
        );
        assert forall|v: usize|
            v < args.len() && #[trigger] terms::list_vars(parts).contains(v) implies
                recognition::reaches(a, args[v as int], children[v as int]) by {
            assert(v as int as usize == v);
            if !tail.contains(v) {
                let k = choose|k: int| 0 <= k < (head + tail).len() && (head + tail)[k] == v;
                if k >= head.len() {
                    assert(tail[k - head.len()] == v);
                }
                assert(head[k] == v);
                assert(head.contains(v));
            }
        }
        assert forall|i: int| 0 <= i < parts.len() implies reach(
            steps_of(a),
            #[trigger] parts[i],
            children,
            states[i],
        ) by {
            if i < n {
                assert(reach(steps_of(a), front[i], early, states.drop_last()[i]));
                assert forall|v: usize|
                    v < early.len() && #[trigger] terms::term_vars(parts[i]).contains(v) implies
                        early[v as int] == children[v as int] by {
                    assert(front[i] == parts[i]);
                    lemma_part_vars(front, i, v);
                    assert(v as int as usize == v);
                }
                lemma_reach_vars(steps_of(a), parts[i], early, children, states[i]);
            } else {
                assert forall|v: usize|
                    v < late.len() && #[trigger] tail.contains(v) implies late[v as int]
                        == children[v as int] by {
                    assert(v as int as usize == v);
                }
                lemma_reach_vars(steps_of(a), last, late, children, states[n]);
            }
        }
        children
    }
}

} // verus!
