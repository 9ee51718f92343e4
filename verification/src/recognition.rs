//! Which trees an automaton recognizes.
use crate::apply::SymbolTree;
use crate::traits::BottomUpTa;
use vstd::prelude::*;

verus! {

/// Whether the root of a tree may get state `q`.
pub open spec fn reaches<A: BottomUpTa>(a: &A, t: SymbolTree, q: A::State) -> bool
    decreases t,
{
    exists|states: Seq<A::State>|
        states.len() == t.children.len() && (forall|i: int|
            0 <= i < t.children.len() ==> reaches(a, #[trigger] t.children[i], states[i]))
            && #[trigger] a.steps_to(t.symbol, states, q)
}

/// Whether the children of a tree may get the given states.
pub open spec fn children_reach<A: BottomUpTa>(
    a: &A,
    t: SymbolTree,
    states: Seq<A::State>,
) -> bool {
    states.len() == t.children.len() && forall|i: int|
        0 <= i < t.children.len() ==> reaches(a, #[trigger] t.children[i], states[i])
}

/// Whether a tree is accepted.
pub open spec fn recognizes<A: BottomUpTa>(a: &A, t: SymbolTree) -> bool {
    exists|q: A::State| #[trigger] reaches(a, t, q) && a.accepts(q)
}

/// The states that a tree's children get when its root gets `q`.
pub proof fn lemma_reaches<A: BottomUpTa>(a: &A, t: SymbolTree, q: A::State) -> (states: Seq<
    A::State,
>)
    requires
        reaches(a, t, q),
    ensures
        children_reach(a, t, states),
        a.steps_to(t.symbol, states, q),
{
    choose|states: Seq<A::State>|
        states.len() == t.children.len() && (forall|i: int|
            0 <= i < t.children.len() ==> reaches(a, #[trigger] t.children[i], states[i]))
            && #[trigger] a.steps_to(t.symbol, states, q)
}

} // verus!
