//! Renaming the symbols of an automaton.
use crate::ids::Symbol;
use crate::traits::{BottomUpTa, DetBottomUpTa, IndexedBottomUpTa, Transition};
use vstd::prelude::*;

verus! {

/// Symbol-renaming view of an automaton.
///
/// The mapping is applied to every symbol before the wrapped automaton is asked.
/// States are unchanged.
pub struct Mapped<A, F: Fn(Symbol) -> Symbol> {
    inner: A,
    map: F,
}

/// Whether a mapping takes every symbol.
pub open spec fn total<F: Fn(Symbol) -> Symbol>(map: F) -> bool {
    forall|f: Symbol| #[trigger] call_requires(map, (f,))
}

/// Whether a mapping gives every symbol one fixed result.
pub open spec fn functional<F: Fn(Symbol) -> Symbol>(map: F) -> bool {
    forall|f: Symbol, g: Symbol, h: Symbol| #[trigger]
        call_ensures(map, (f,), g) && #[trigger] call_ensures(map, (f,), h) ==> g == h
}

/// The symbol that a mapping gives for `f`.
pub open spec fn renamed<F: Fn(Symbol) -> Symbol>(map: F, f: Symbol) -> Symbol {
    choose|g: Symbol| call_ensures(map, (f,), g)
}

impl<A, F: Fn(Symbol) -> Symbol> Mapped<A, F> {
    #[verifier::type_invariant]
    spec fn inv(&self) -> bool {
        total(self.map) && functional(self.map)
    }

    /// The wrapped automaton.
    pub closed spec fn wrapped(&self) -> A {
        self.inner
    }

    /// The mapping.
    pub closed spec fn mapping(&self) -> F {
        self.map
    }

    /// A view of `inner` under the symbols that `map` renames.
    pub fn new(inner: A, map: F) -> (m: Self)
        requires
            total(map),
            functional(map),
        ensures
            m.wrapped() == inner,
            m.mapping() == map,
    {
        Mapped { inner, map }
    }

    /// The wrapped automaton.
    pub fn inner(&self) -> (a: &A)
        ensures
            *a == self.wrapped(),
    {
        &self.inner
    }

    fn rename(&self, f: Symbol) -> (g: Symbol)
        ensures
            g == renamed(self.mapping(), f),
    {
        proof {
            use_type_invariant(self);
        }
        assert(call_requires(self.map, (f,)));
        (self.map)(f)
    }
}

impl<A: BottomUpTa, F: Fn(Symbol) -> Symbol> BottomUpTa for Mapped<A, F> {
    type State = A::State;

    open spec fn steps_to(&self, f: Symbol, children: Seq<Self::State>, q: Self::State) -> bool {
        self.wrapped().steps_to(renamed(self.mapping(), f), children, q)
    }

    open spec fn accepts(&self, q: Self::State) -> bool {
        self.wrapped().accepts(q)
    }

    fn step(&self, f: Symbol, children: &[Self::State]) -> (r: Vec<Self::State>) {
        let g = self.rename(f);
        self.inner.step(g, children)
    }

    fn is_accepting(&self, q: &Self::State) -> (b: bool) {
        self.inner.is_accepting(q)
    }
}

impl<A: DetBottomUpTa, F: Fn(Symbol) -> Symbol> DetBottomUpTa for Mapped<A, F> {
    open spec fn det(&self, f: Symbol, children: Seq<Self::State>) -> Option<Self::State> {
        self.wrapped().det(renamed(self.mapping(), f), children)
    }

    proof fn det_sound(&self, f: Symbol, children: Seq<Self::State>) {
        let g = renamed(self.mapping(), f);
        self.inner.det_sound(g, children);
        if let Some(q) = self.det(f, children) {
            assert forall|r: Self::State| #[trigger] self.steps_to(f, children, r) <==> r == q by {
                assert(self.inner.steps_to(g, children, r) <==> r == q);
            }
        }
    }

    fn step_det(&self, f: Symbol, children: &[Self::State]) -> (r: Option<Self::State>) {
        let g = self.rename(f);
        self.inner.step_det(g, children)
    }
}

impl<A: IndexedBottomUpTa, F: Fn(Symbol) -> Symbol> IndexedBottomUpTa for Mapped<A, F> {
    fn step_partial(&self, f: Symbol, position: usize, q: &Self::State) -> (r: Vec<
        Transition<Self::State>,
    >) {
        let g = self.rename(f);
        self.inner.step_partial(g, position, q)
    }
}

} // verus!
