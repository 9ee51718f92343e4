//! Intersection of two automata.
use crate::apply::SymbolTree;
use crate::ids::Symbol;
use crate::recognition;
use crate::symbol_set;
use crate::traits;
use crate::traits::{
    AutomatonState, BottomUpTa, DetBottomUpTa, Expansion, IndexedBottomUpTa, TopDownTa, Transition,
};
use vstd::prelude::*;

verus! {

/// Intersection product of two bottom-up automata.
///
/// Its states are pairs, and it accepts exactly the trees accepted by both
/// components.
pub struct Product<A, B>(pub A, pub B);

/// The first components of pairs.
pub open spec fn firsts<S, T>(pairs: Seq<(S, T)>) -> Seq<S> {
    Seq::new(pairs.len(), |i: int| pairs[i].0)
}

/// The second components of pairs.
pub open spec fn seconds<S, T>(pairs: Seq<(S, T)>) -> Seq<T> {
    Seq::new(pairs.len(), |i: int| pairs[i].1)
}

/// The pairs of corresponding elements.
pub open spec fn zipped<S, T>(a: Seq<S>, b: Seq<T>) -> Seq<(S, T)> {
    Seq::new(a.len(), |i: int| (a[i], b[i]))
}

pub proof fn lemma_zipped<S, T>(a: Seq<S>, b: Seq<T>)
    requires
        a.len() == b.len(),
    ensures
        firsts(zipped(a, b)) == a,
        seconds(zipped(a, b)) == b,
{
    assert(firsts(zipped(a, b)) =~= a);
    assert(seconds(zipped(a, b)) =~= b);
}

pub proof fn lemma_unzipped<S, T>(c: Seq<(S, T)>)
    ensures
        zipped(firsts(c), seconds(c)) == c,
{
    assert(zipped(firsts(c), seconds(c)) =~= c);
}

fn split_pairs<S: AutomatonState, T: AutomatonState>(pairs: &[(S, T)]) -> (r: (Vec<S>, Vec<T>))
    ensures
        r.0@ == firsts(pairs@),
        r.1@ == seconds(pairs@),
{
    let mut a: Vec<S> = Vec::new();
    let mut b: Vec<T> = Vec::new();
    let mut i: usize = 0;
    while i < pairs.len()
        invariant
            i <= pairs@.len(),
            a@.len() == i,
            b@.len() == i,
            forall|j: int| 0 <= j < i ==> #[trigger] a@[j] == pairs@[j].0,
            forall|j: int| 0 <= j < i ==> #[trigger] b@[j] == pairs@[j].1,
        decreases pairs@.len() - i,
    {
        a.push(pairs[i].0.duplicate());
        b.push(pairs[i].1.duplicate());
        i += 1;
    }
    assert(a@ =~= firsts(pairs@));
    assert(b@ =~= seconds(pairs@));
    (a, b)
}

fn zip_states<S: AutomatonState, T: AutomatonState>(a: &Vec<S>, b: &Vec<T>) -> (r: Vec<(S, T)>)
    requires
        a@.len() == b@.len(),
    ensures
        r@ == zipped(a@, b@),
{
    let mut r: Vec<(S, T)> = Vec::new();
    let mut i: usize = 0;
    while i < a.len()
        invariant
            i <= a@.len(),
            a@.len() == b@.len(),
            r@.len() == i,
            forall|j: int| 0 <= j < i ==> #[trigger] r@[j] == (a@[j], b@[j]),
        decreases a@.len() - i,
    {
        r.push((a[i].duplicate(), b[i].duplicate()));
        i += 1;
    }
    assert(r@ =~= zipped(a@, b@));
    r
}

/// All pairs, the second changing fastest.
fn all_pairs<S: AutomatonState, T: AutomatonState>(a: &Vec<S>, b: &Vec<T>) -> (r: Vec<(S, T)>)
    ensures
        a@.no_duplicates() && b@.no_duplicates() ==> r@.no_duplicates(),
        forall|q: (S, T)| #[trigger] r@.contains(q) <==> (a@.contains(q.0) && b@.contains(q.1)),
{
    let mut r: Vec<(S, T)> = Vec::new();
    let mut i: usize = 0;
    while i < a.len()
        invariant
            i <= a@.len(),
            a@.no_duplicates() && b@.no_duplicates() ==> r@.no_duplicates(),
            forall|q: (S, T)| #[trigger]
                r@.contains(q) <==> (a@.take(i as int).contains(q.0) && b@.contains(q.1)),
        decreases a@.len() - i,
    {
        let mut j: usize = 0;
        let ghost x = a@[i as int];
        proof {
            assert forall|q: (S, T)| #[trigger] r@.contains(q) <==> ((a@.take(i as int).contains(
                q.0,
            ) && b@.contains(q.1)) || (q.0 == x && b@.take(0).contains(q.1))) by {}
        }
        while j < b.len()
            invariant
                i < a@.len(),
                j <= b@.len(),
                x == a@[i as int],
                a@.no_duplicates() && b@.no_duplicates() ==> r@.no_duplicates(),
                forall|q: (S, T)| #[trigger]
                    r@.contains(q) <==> ((a@.take(i as int).contains(q.0) && b@.contains(q.1)) || (
                    q.0 == x && b@.take(j as int).contains(q.1))),
            decreases b@.len() - j,
        {
            let ghost before = r@;
            let ghost y = b@[j as int];
            proof {
                let p = (x, y);
                if before.contains(p) && a@.no_duplicates() && b@.no_duplicates() {
                    if a@.take(i as int).contains(x) {
                        let k = choose|k: int| 0 <= k < i && a@.take(i as int)[k] == x;
                        assert(a@[k] == a@[i as int]);
                    } else {
                        let k = choose|k: int| 0 <= k < j && b@.take(j as int)[k] == y;
                        assert(b@[k] == b@[j as int]);
                    }
                }
            }
            r.push((a[i].duplicate(), b[j].duplicate()));
            proof {
                assert(r@ == before.push((x, y)));
                assert forall|c: int, d: int| a@.no_duplicates() && b@.no_duplicates() && 0 <= c < r@.len() && 0 <= d < r@.len() && c
                    != d implies r@[c] != r@[d] by {
                    if c == before.len() {
                        assert(before.contains(before[d]));
                    } else if d == before.len() {
                        assert(before.contains(before[c]));
                    }
                }
                assert(b@.take(j + 1) =~= b@.take(j as int).push(y));
                assert forall|q: (S, T)| #[trigger] r@.contains(q) <==> ((a@.take(
                    i as int,
                ).contains(q.0) && b@.contains(q.1)) || (q.0 == x && b@.take(j + 1).contains(
                    q.1,
                ))) by {
                    symbol_set::lemma_push_contains(before, (x, y), q);
                    symbol_set::lemma_push_contains(b@.take(j as int), y, q.1);
                }
            }
            j += 1;
        }
        proof {
            assert(b@.take(j as int) =~= b@);
            assert(a@.take(i + 1) =~= a@.take(i as int).push(x));
            assert forall|q: (S, T)| #[trigger] r@.contains(q) <==> (a@.take(i + 1).contains(q.0)
                && b@.contains(q.1)) by {
                symbol_set::lemma_push_contains(a@.take(i as int), x, q.0);
            }
        }
        i += 1;
    }
    assert(a@.take(i as int) =~= a@);
    r
}

impl<A: BottomUpTa, B: BottomUpTa> BottomUpTa for Product<A, B> {
    type State = (A::State, B::State);

    open spec fn steps_to(&self, f: Symbol, children: Seq<Self::State>, q: Self::State) -> bool {
        self.0.steps_to(f, firsts(children), q.0) && self.1.steps_to(f, seconds(children), q.1)
    }

    open spec fn accepts(&self, q: Self::State) -> bool {
        self.0.accepts(q.0) && self.1.accepts(q.1)
    }

    fn step(&self, f: Symbol, children: &[Self::State]) -> (r: Vec<Self::State>) {
        let (a_children, b_children) = split_pairs(children);
        let a_results = self.0.step(f, a_children.as_slice());
        if a_results.len() == 0 {
            proof {
                assert forall|q: Self::State| !self.steps_to(f, children@, q) by {
                    assert(!a_results@.contains(q.0));
                }
            }
            return Vec::new();
        }
        let b_results = self.1.step(f, b_children.as_slice());
        all_pairs(&a_results, &b_results)
    }

    fn is_accepting(&self, q: &Self::State) -> (b: bool) {
        self.0.is_accepting(&q.0) && self.1.is_accepting(&q.1)
    }
}

impl<A: DetBottomUpTa, B: DetBottomUpTa> DetBottomUpTa for Product<A, B> {
    open spec fn det(&self, f: Symbol, children: Seq<Self::State>) -> Option<Self::State> {
        match (self.0.det(f, firsts(children)), self.1.det(f, seconds(children))) {
            (Some(p), Some(q)) => Some((p, q)),
            _ => None,
        }
    }

    proof fn det_sound(&self, f: Symbol, children: Seq<Self::State>) {
        self.0.det_sound(f, firsts(children));
        self.1.det_sound(f, seconds(children));
        if let Some(q) = self.det(f, children) {
            assert forall|r: Self::State| #[trigger] self.steps_to(f, children, r) <==> r == q by {
                assert(self.0.steps_to(f, firsts(children), r.0) <==> r.0 == q.0);
                assert(self.1.steps_to(f, seconds(children), r.1) <==> r.1 == q.1);
            }
        }
    }

    fn step_det(&self, f: Symbol, children: &[Self::State]) -> (r: Option<Self::State>) {
        let (a_children, b_children) = split_pairs(children);
        match self.0.step_det(f, a_children.as_slice()) {
            Some(p) => match self.1.step_det(f, b_children.as_slice()) {
                Some(q) => Some((p, q)),
                None => None,
            },
            None => None,
        }
    }
}

impl<A: IndexedBottomUpTa, B: IndexedBottomUpTa> IndexedBottomUpTa for Product<A, B> {
    fn step_partial(&self, f: Symbol, position: usize, q: &Self::State) -> (r: Vec<
        Transition<Self::State>,
    >) {
        let left = self.0.step_partial(f, position, &q.0);
        let right = self.1.step_partial(f, position, &q.1);
        let ghost lefts = traits::transitions(left@);
        let ghost rights = traits::transitions(right@);
        let mut r: Vec<Transition<Self::State>> = Vec::new();
        let mut i: usize = 0;
        while i < left.len()
            invariant
                i <= left@.len(),
                lefts == traits::transitions(left@),
                rights == traits::transitions(right@),
                forall|t: (Seq<Self::State>, Self::State)| #[trigger]
                    traits::transitions(r@).contains(t) <==> joined(lefts.take(i as int), rights, t),
            decreases left@.len() - i,
        {
            let mut j: usize = 0;
            let ghost one = lefts[i as int];
            proof {
                assert forall|t: (Seq<Self::State>, Self::State)| #[trigger]
                    traits::transitions(r@).contains(t) <==> (joined(
                    lefts.take(i as int),
                    rights,
                    t,
                ) || joined_one(one, rights.take(0), t)) by {}
            }
            while j < right.len()
                invariant
                    i < left@.len(),
                    j <= right@.len(),
                    lefts == traits::transitions(left@),
                    rights == traits::transitions(right@),
                    one == lefts[i as int],
                    forall|t: (Seq<Self::State>, Self::State)| #[trigger]
                        traits::transitions(r@).contains(t) <==> (joined(
                            lefts.take(i as int),
                            rights,
                            t,
                        ) || joined_one(one, rights.take(j as int), t)),
                decreases right@.len() - j,
            {
                let ghost before = r@;
                let ghost other = rights[j as int];
                let a = &left[i];
                let b = &right[j];
                if a.children.len() == b.children.len() {
                    let t = Transition {
                        children: zip_states(&a.children, &b.children),
                        result: (a.result.duplicate(), b.result.duplicate()),
                    };
                    let ghost added = t@;
                    r.push(t);
                    proof {
                        assert(traits::transitions(r@) =~= traits::transitions(before).push(added));
                    }
                }
                proof {
                    let seen = rights.take(j as int);
                    assert(rights.take(j + 1) =~= seen.push(other));
                    assert forall|t: (Seq<Self::State>, Self::State)| #[trigger]
                        traits::transitions(r@).contains(t) <==> (joined(
                        lefts.take(i as int),
                        rights,
                        t,
                    ) || joined_one(one, rights.take(j + 1), t)) by {
                        let fresh = (zipped(one.0, other.0), (one.1, other.1));
                        symbol_set::lemma_push_contains(traits::transitions(before), fresh, t);
                        symbol_set::lemma_push_contains(seen, other, (seconds(t.0), t.1.1));
                        assert(joined_one(one, seen.push(other), t) <==> (joined_one(one, seen, t)
                            || (one.0.len() == other.0.len() && t == fresh))) by {
                            if one.0.len() == other.0.len() {
                                lemma_zipped(one.0, other.0);
                            }
                            lemma_unzipped(t.0);
                        }
                    }
                }
                j += 1;
            }
            proof {
                assert(rights.take(j as int) =~= rights);
                let seen = lefts.take(i as int);
                assert(lefts.take(i + 1) =~= seen.push(one));
                assert forall|t: (Seq<Self::State>, Self::State)| #[trigger]
                    traits::transitions(r@).contains(t) <==> joined(
                    lefts.take(i + 1),
                    rights,
                    t,
                ) by {
                    symbol_set::lemma_push_contains(seen, one, (firsts(t.0), t.1.0));
                }
            }
            i += 1;
        }
        proof {
            assert(lefts.take(i as int) =~= lefts);
            assert forall|children: Seq<Self::State>, result: Self::State| #[trigger]
                traits::transitions(r@).contains((children, result)) <==> (position
                < children.len() && children[position as int] == *q && self.steps_to(
                f,
                children,
                result,
            )) by {
                assert(lefts.contains((firsts(children), result.0)) <==> (position
                    < firsts(children).len() && firsts(children)[position as int] == q.0
                    && self.0.steps_to(f, firsts(children), result.0)));
                assert(rights.contains((seconds(children), result.1)) <==> (position
                    < seconds(children).len() && seconds(children)[position as int] == q.1
                    && self.1.steps_to(f, seconds(children), result.1)));
            }
        }
        r
    }
}

impl<A: TopDownTa, B: TopDownTa> TopDownTa for Product<A, B> {
    fn step_topdown(&self, parent: &Self::State) -> (r: Vec<Expansion<Self::State>>) {
        let left = self.0.step_topdown(&parent.0);
        let right = self.1.step_topdown(&parent.1);
        let ghost lefts = traits::expansions(left@);
        let ghost rights = traits::expansions(right@);
        let mut r: Vec<Expansion<Self::State>> = Vec::new();
        let mut i: usize = 0;
        while i < left.len()
            invariant
                i <= left@.len(),
                lefts == traits::expansions(left@),
                rights == traits::expansions(right@),
                forall|t: (Symbol, Seq<Self::State>)| #[trigger]
                    traits::expansions(r@).contains(t) <==> expanded(lefts.take(i as int), rights, t),
            decreases left@.len() - i,
        {
            let mut j: usize = 0;
            let ghost one = lefts[i as int];
            while j < right.len()
                invariant
                    i < left@.len(),
                    j <= right@.len(),
                    lefts == traits::expansions(left@),
                    rights == traits::expansions(right@),
                    one == lefts[i as int],
                    forall|t: (Symbol, Seq<Self::State>)| #[trigger]
                        traits::expansions(r@).contains(t) <==> (expanded(
                            lefts.take(i as int),
                            rights,
                            t,
                        ) || expanded_one(one, rights.take(j as int), t)),
                decreases right@.len() - j,
            {
                let ghost before = r@;
                let ghost other = rights[j as int];
                let a = &left[i];
                let b = &right[j];
                if a.symbol == b.symbol && a.children.len() == b.children.len() {
                    let t = Expansion {
                        symbol: a.symbol,
                        children: zip_states(&a.children, &b.children),
                    };
                    let ghost added = t@;
                    r.push(t);
                    proof {
                        assert(traits::expansions(r@) =~= traits::expansions(before).push(added));
                    }
                }
                proof {
                    let seen = rights.take(j as int);
                    assert(rights.take(j + 1) =~= seen.push(other));
                    assert forall|t: (Symbol, Seq<Self::State>)| #[trigger]
                        traits::expansions(r@).contains(t) <==> (expanded(
                        lefts.take(i as int),
                        rights,
                        t,
                    ) || expanded_one(one, rights.take(j + 1), t)) by {
                        let fresh = (one.0, zipped(one.1, other.1));
                        symbol_set::lemma_push_contains(traits::expansions(before), fresh, t);
                        symbol_set::lemma_push_contains(seen, other, (t.0, seconds(t.1)));
                        assert(expanded_one(one, seen.push(other), t) <==> (expanded_one(
                            one,
                            seen,
                            t,
                        ) || (one.0 == other.0 && one.1.len() == other.1.len() && t == fresh))) by {
                            if one.1.len() == other.1.len() {
                                lemma_zipped(one.1, other.1);
                            }
                            lemma_unzipped(t.1);
                        }
                    }
                }
                j += 1;
            }
            proof {
                assert(rights.take(j as int) =~= rights);
                let seen = lefts.take(i as int);
                assert(lefts.take(i + 1) =~= seen.push(one));
                assert forall|t: (Symbol, Seq<Self::State>)| #[trigger]
                    traits::expansions(r@).contains(t) <==> expanded(
                    lefts.take(i + 1),
                    rights,
                    t,
                ) by {
                    symbol_set::lemma_push_contains(seen, one, (t.0, firsts(t.1)));
                }
            }
            i += 1;
        }
        proof {
            assert(lefts.take(i as int) =~= lefts);
            assert forall|f: Symbol, children: Seq<Self::State>| #[trigger]
                traits::expansions(r@).contains((f, children)) <==> self.steps_to(
                f,
                children,
                *parent,
            ) by {
                assert(lefts.contains((f, firsts(children))) <==> self.0.steps_to(
                    f,
                    firsts(children),
                    parent.0,
                ));
                assert(rights.contains((f, seconds(children))) <==> self.1.steps_to(
                    f,
                    seconds(children),
                    parent.1,
                ));
            }
        }
        r
    }

    fn initial_states(&self) -> (r: Vec<Self::State>) {
        let left = self.0.initial_states();
        let right = self.1.initial_states();
        all_pairs(&left, &right)
    }
}

/// Whether an expansion to pairs splits into a left and a right expansion.
spec fn expanded<S, T>(
    lefts: Seq<(Symbol, Seq<S>)>,
    rights: Seq<(Symbol, Seq<T>)>,
    t: (Symbol, Seq<(S, T)>),
) -> bool {
    lefts.contains((t.0, firsts(t.1))) && rights.contains((t.0, seconds(t.1)))
}

/// Whether an expansion to pairs splits into one left and a right expansion.
spec fn expanded_one<S, T>(
    left: (Symbol, Seq<S>),
    rights: Seq<(Symbol, Seq<T>)>,
    t: (Symbol, Seq<(S, T)>),
) -> bool {
    left == (t.0, firsts(t.1)) && rights.contains((t.0, seconds(t.1)))
}

/// Whether a transition of pairs splits into a left and a right transition.
spec fn joined<S, T>(
    lefts: Seq<(Seq<S>, S)>,
    rights: Seq<(Seq<T>, T)>,
    t: (Seq<(S, T)>, (S, T)),
) -> bool {
    lefts.contains((firsts(t.0), t.1.0)) && rights.contains((seconds(t.0), t.1.1))
}

/// Whether a transition of pairs splits into one left and a right transition.
spec fn joined_one<S, T>(
    left: (Seq<S>, S),
    rights: Seq<(Seq<T>, T)>,
    t: (Seq<(S, T)>, (S, T)),
) -> bool {
    left == (firsts(t.0), t.1.0) && rights.contains((seconds(t.0), t.1.1))
}

/// A product accepts exactly the trees that both components accept.
pub proof fn law_product_intersects<A: BottomUpTa, B: BottomUpTa>(
    p: &Product<A, B>,
    t: SymbolTree,
)
    ensures
        recognition::recognizes(p, t) <==> (recognition::recognizes(&p.0, t)
            && recognition::recognizes(&p.1, t)),
{
    if recognition::recognizes(p, t) {
        let q = choose|q: (A::State, B::State)| #[trigger]
            recognition::reaches(p, t, q) && p.accepts(q);
        law_product_states(p, t, q);
    }
    if recognition::recognizes(&p.0, t) && recognition::recognizes(&p.1, t) {
        let a = choose|q: A::State| #[trigger]
            recognition::reaches(&p.0, t, q) && p.0.accepts(q);
        let b = choose|q: B::State| #[trigger]
            recognition::reaches(&p.1, t, q) && p.1.accepts(q);
        law_product_states(p, t, (a, b));
        assert(p.accepts((a, b)));
    }
}

/// A tree may get a pair of states exactly when it may get each of them.
pub proof fn law_product_states<A: BottomUpTa, B: BottomUpTa>(
    p: &Product<A, B>,
    t: SymbolTree,
    q: (A::State, B::State),
)
    ensures
        recognition::reaches(p, t, q) <==> (recognition::reaches(&p.0, t, q.0)
            && recognition::reaches(&p.1, t, q.1)),
    decreases t,
{
    if recognition::reaches(p, t, q) {
        let states = recognition::lemma_reaches(p, t, q);
        assert forall|i: int| 0 <= i < t.children.len() implies recognition::reaches(
            &p.0,
            #[trigger] t.children[i],
            firsts(states)[i],
        ) && recognition::reaches(&p.1, t.children[i], seconds(states)[i]) by {
            law_product_states(p, t.children[i], states[i]);
        }
        assert(p.0.steps_to(t.symbol, firsts(states), q.0));
        assert(p.1.steps_to(t.symbol, seconds(states), q.1));
    }
    if recognition::reaches(&p.0, t, q.0) && recognition::reaches(&p.1, t, q.1) {
        let a = recognition::lemma_reaches(&p.0, t, q.0);
        let b = recognition::lemma_reaches(&p.1, t, q.1);
        let states = zipped(a, b);
        lemma_zipped(a, b);
        assert forall|i: int| 0 <= i < t.children.len() implies recognition::reaches(
            p,
            #[trigger] t.children[i],
            states[i],
        ) by {
            law_product_states(p, t.children[i], states[i]);
        }
        assert(p.steps_to(t.symbol, states, q));
    }
}

} // verus!
