//! Lazy subset construction.
use crate::apply::SymbolTree;
use crate::automaton;
use crate::cartesian;
use crate::cartesian::cartesian as all_tuples;
use crate::combinators::subsets::Subset;
use crate::explicit::Explicit;
use crate::ids::{StateId, Symbol};
use crate::recognition;
use crate::traits::{AutomatonState, BottomUpTa, DetBottomUpTa};
use vstd::prelude::*;

verus! {

/// Lazy subset construction for a nondeterministic automaton.
///
/// The states are sets of states of the wrapped automaton. A node gets the set of all
/// states that the wrapped automaton may give it, unless there is none.
pub struct Determinized<A>(pub A);

/// Whether one state of each set can be the given tuple.
pub open spec fn picks<S>(tuple: Seq<S>, sets: Seq<Set<S>>) -> bool {
    tuple.len() == sets.len() && forall|i: int|
        0 <= i < tuple.len() ==> sets[i].contains(#[trigger] tuple[i])
}

/// The states that a node may get from children with any states of the given sets.
pub open spec fn subset_step<A: BottomUpTa>(
    a: &A,
    f: Symbol,
    sets: Seq<Set<A::State>>,
) -> Set<A::State> {
    Set::new(
        |q: A::State|
            exists|tuple: Seq<A::State>| #[trigger] picks(tuple, sets) && a.steps_to(f, tuple, q),
    )
}

/// The sets that chains of states hold.
pub open spec fn state_sets<S: AutomatonState>(chains: Seq<Subset<S>>) -> Seq<Set<S>> {
    Seq::new(chains.len(), |i: int| chains[i].set())
}

/// Whether a chain is the one that stands for a set.
pub open spec fn stands_for<S: AutomatonState>(q: Subset<S>, set: Set<S>) -> bool {
    q.is_sorted() && q.set() == set
}

/// Whether some chain stands for a set.
pub open spec fn has_chain<S: AutomatonState>(set: Set<S>) -> bool {
    exists|q: Subset<S>| #[trigger] stands_for(q, set)
}

/// The set of states that the subset construction gives to a tree.
pub open spec fn subset_of<A: BottomUpTa>(a: &A, t: SymbolTree) -> Set<A::State>
    decreases t,
{
    subset_step(a, t.symbol, subsets_of(a, t.children))
}

/// The sets of states that the subset construction gives to trees.
pub open spec fn subsets_of<A: BottomUpTa>(a: &A, ts: Seq<SymbolTree>) -> Seq<Set<A::State>>
    decreases ts,
{
    Seq::new(
        ts.len(),
        |i: int|
            if 0 <= i < ts.len() {
                subset_of(a, ts[i])
            } else {
                Set::empty()
            },
    )
}

impl<A: BottomUpTa> Determinized<A> {
    /// The set of states that a node gets.
    fn result(&self, f: Symbol, children: &[Subset<A::State>]) -> (r: Subset<A::State>)
        ensures
            stands_for(r, subset_step(&self.0, f, state_sets(children@))),
    {
        let mut pools: Vec<Vec<A::State>> = Vec::new();
        let mut i: usize = 0;
        while i < children.len()
            invariant
                i <= children@.len(),
                pools@.len() == i,
                forall|j: int| 0 <= j < i ==> (#[trigger] pools@[j])@ == children@[j].list(),
            decreases children@.len() - i,
        {
            pools.push(children[i].members());
            i += 1;
        }
        let tuples = all_tuples(&pools);
        let ghost all = cartesian::contents(pools@);
        let ghost list = cartesian::contents(tuples@);
        let ghost sets = state_sets(children@);
        let mut set: Subset<A::State> = Subset::Empty;
        let mut k: usize = 0;
        while k < tuples.len()
            invariant
                k <= tuples@.len(),
                set.is_sorted(),
                list == cartesian::contents(tuples@),
                forall|q: A::State| #[trigger]
                    set.set().contains(q) <==> exists|j: int|
                        0 <= j < k && self.0.steps_to(f, #[trigger] list[j], q),
            decreases tuples@.len() - k,
        {
            let ghost before = set.set();
            let mut results = self.0.step(f, tuples[k].as_slice());
            let ghost found = results@;
            while results.len() > 0
                invariant
                    set.is_sorted(),
                    results@.len() <= found.len(),
                    results@ == found.take(results@.len() as int),
                    forall|q: A::State| #[trigger]
                        set.set().contains(q) <==> (before.contains(q) || found.skip(
                            results@.len() as int,
                        ).contains(q)),
                decreases results@.len(),
            {
                let ghost n = results@.len() as int;
                if let Some(q) = results.pop() {
                    proof {
                        set.lemma_inserted(q);
                        let tail = found.skip(n);
                        let longer = found.skip(n - 1);
                        assert(longer =~= seq![q] + tail);
                        assert forall|p: A::State| #[trigger] longer.contains(p) <==> (p == q
                            || tail.contains(p)) by {
                            assert(longer[0] == q);
                            if longer.contains(p) {
                                let i = choose|i: int| 0 <= i < longer.len() && longer[i] == p;
                                if i > 0 {
                                    assert(tail[i - 1] == p);
                                }
                            }
                            if tail.contains(p) {
                                let i = choose|i: int| 0 <= i < tail.len() && tail[i] == p;
                                assert(longer[i + 1] == p);
                            }
                        }
                    }
                    set = set.insert(q);
                }
                assert(results@ =~= found.take(results@.len() as int));
            }
            proof {
                assert(found.skip(0) =~= found);
                assert forall|q: A::State| #[trigger] set.set().contains(q) <==> exists|j: int|
                    0 <= j < k + 1 && self.0.steps_to(f, #[trigger] list[j], q) by {
                    assert(found.contains(q) <==> self.0.steps_to(f, list[k as int], q));
                    assert(before.contains(q) <==> exists|j: int|
                        0 <= j < k && self.0.steps_to(f, #[trigger] list[j], q));
                }
            }
            k += 1;
        }
        proof {
            let held = set.set();
            let owed = subset_step(&self.0, f, sets);
            assert forall|q: A::State| held.contains(q) <==> #[trigger] owed.contains(q) by {
                if held.contains(q) {
                    let j = choose|j: int|
                        0 <= j < k && self.0.steps_to(f, #[trigger] list[j], q);
                    assert(cartesian::tuples(all).contains(list[j]));
                    cartesian::lemma_tuples(all, list[j]);
                    assert(picks(list[j], sets)) by {
                        assert forall|c: int| 0 <= c < list[j].len() implies sets[c].contains(
                            #[trigger] list[j][c],
                        ) by {
                            children@[c].lemma_list();
                            assert(all[c].contains(list[j][c]));
                        }
                    }
                }
                if owed.contains(q) {
                    let tuple = choose|tuple: Seq<A::State>| #[trigger]
                        picks(tuple, sets) && self.0.steps_to(f, tuple, q);
                    assert(cartesian::draws(tuple, all)) by {
                        assert forall|c: int| 0 <= c < tuple.len() implies all[c].contains(
                            #[trigger] tuple[c],
                        ) by {
                            children@[c].lemma_list();
                            assert(sets[c].contains(tuple[c]));
                        }
                    }
                    cartesian::lemma_tuples(all, tuple);
                    let j = choose|j: int| 0 <= j < list.len() && list[j] == tuple;
                    assert(self.0.steps_to(f, list[j], q));
                }
            }
            assert(held =~= owed);
        }
        set
    }
}

impl<A: BottomUpTa> BottomUpTa for Determinized<A> {
    type State = Subset<A::State>;

    /// The chain that stands for the set of all states that the wrapped automaton may give
    /// the node; none where the set is empty.
    open spec fn steps_to(
        &self,
        f: Symbol,
        children: Seq<Subset<A::State>>,
        q: Subset<A::State>,
    ) -> bool {
        let set = subset_step(&self.0, f, state_sets(children));
        stands_for(q, set) && set != Set::<A::State>::empty()
    }

    /// A set accepts when one of its states does.
    open spec fn accepts(&self, q: Subset<A::State>) -> bool {
        exists|p: A::State| q.set().contains(p) && #[trigger] self.0.accepts(p)
    }

    fn step(&self, f: Symbol, children: &[Subset<A::State>]) -> (r: Vec<Subset<A::State>>) {
        let mut r: Vec<Subset<A::State>> = Vec::new();
        if let Some(q) = self.step_det(f, children) {
            proof {
                self.det_sound(f, children@);
                assert forall|p: Subset<A::State>| #[trigger] seq![q].contains(p)
                    <==> self.steps_to(f, children@, p) by {
                    assert(seq![q][0] == q);
                }
            }
            r.push(q);
            assert(r@ =~= seq![q]);
        } else {
            proof {
                self.lemma_none(f, children@);
            }
        }
        r
    }

    fn is_accepting(&self, q: &Subset<A::State>) -> (b: bool) {
        let states = q.members();
        proof {
            q.lemma_list();
        }
        let mut i: usize = 0;
        while i < states.len()
            invariant
                i <= states@.len(),
                states@ == q.list(),
                forall|p: A::State| #[trigger] q.list().contains(p) <==> q.set().contains(p),
                forall|j: int| 0 <= j < i ==> !self.0.accepts(#[trigger] states@[j]),
            decreases states@.len() - i,
        {
            if self.0.is_accepting(&states[i]) {
                assert(q.list().contains(states@[i as int]));
                return true;
            }
            i += 1;
        }
        proof {
            assert forall|p: A::State| q.set().contains(p) implies !#[trigger] self.0.accepts(
                p,
            ) by {
                assert(q.list().contains(p));
                let j = choose|j: int| 0 <= j < states@.len() && states@[j] == p;
                assert(!self.0.accepts(states@[j]));
            }
        }
        false
    }
}

impl<A: BottomUpTa> Determinized<A> {
    /// Where no state is reported there is none.
    proof fn lemma_none(&self, f: Symbol, children: Seq<Subset<A::State>>)
        requires
            self.det(f, children) is None,
        ensures
            forall|q: Subset<A::State>| !#[trigger] self.steps_to(f, children, q),
    {
    }
}

impl<A: BottomUpTa> DetBottomUpTa for Determinized<A> {
    open spec fn det(&self, f: Symbol, children: Seq<Subset<A::State>>) -> Option<
        Subset<A::State>,
    > {
        if exists|q: Subset<A::State>| #[trigger] self.steps_to(f, children, q) {
            Some(choose|q: Subset<A::State>| #[trigger] self.steps_to(f, children, q))
        } else {
            None
        }
    }

    proof fn det_sound(&self, f: Symbol, children: Seq<Subset<A::State>>) {
        if let Some(q) = self.det(f, children) {
            assert forall|r: Subset<A::State>| #[trigger]
                self.steps_to(f, children, r) <==> r == q by {
                if self.steps_to(f, children, r) {
                    r.lemma_unique(q);
                }
            }
        }
    }

    /// The set of states that a node gets, or `None` when it is empty.
    fn step_det(&self, f: Symbol, children: &[Subset<A::State>]) -> (r: Option<Subset<A::State>>) {
        let q = self.result(f, children);
        if q.is_empty() {
            None
        } else {
            assert(self.steps_to(f, children@, q));
            proof {
                self.det_sound(f, children@);
            }
            Some(q)
        }
    }
}

/// The subset construction gives a tree exactly the states that the wrapped
/// automaton may give it, so it accepts the same trees.
pub proof fn law_subsets_agree<A: BottomUpTa>(a: &A, t: SymbolTree)
    ensures
        forall|q: A::State| #[trigger]
            subset_of(a, t).contains(q) <==> recognition::reaches(a, t, q),
        recognition::recognizes(a, t) <==> exists|q: A::State| #[trigger]
            subset_of(a, t).contains(q) && a.accepts(q),
    decreases t,
{
    let sets = subsets_of(a, t.children);
    assert forall|i: int, q: A::State| 0 <= i < t.children.len() implies (
    #[trigger] sets[i].contains(q) <==> recognition::reaches(a, t.children[i], q)) by {
        law_subsets_agree(a, t.children[i]);
        assert(subset_of(a, t.children[i]).contains(q) <==> recognition::reaches(
            a,
            t.children[i],
            q,
        ));
    }
    assert forall|q: A::State| #[trigger]
        subset_of(a, t).contains(q) <==> recognition::reaches(a, t, q) by {
        if subset_of(a, t).contains(q) {
            let tuple = choose|tuple: Seq<A::State>| #[trigger]
                picks(tuple, sets) && a.steps_to(t.symbol, tuple, q);
            assert forall|i: int| 0 <= i < t.children.len() implies recognition::reaches(
                a,
                #[trigger] t.children[i],
                tuple[i],
            ) by {
                assert(sets[i].contains(tuple[i]));
            }
            assert(a.steps_to(t.symbol, tuple, q));
        }
        if recognition::reaches(a, t, q) {
            let states = recognition::lemma_reaches(a, t, q);
            assert(picks(states, sets)) by {
                assert forall|i: int| 0 <= i < states.len() implies sets[i].contains(
                    #[trigger] states[i],
                ) by {
                    assert(recognition::reaches(a, t.children[i], states[i]));
                }
            }
        }
    }
    if recognition::recognizes(a, t) {
        let q = choose|q: A::State| #[trigger] recognition::reaches(a, t, q) && a.accepts(q);
        assert(subset_of(a, t).contains(q));
    }
}

/// The states that a node may get.
pub open spec fn results<A: BottomUpTa>(a: &A, f: Symbol, children: Seq<A::State>) -> Set<A::State> {
    Set::new(|q: A::State| a.steps_to(f, children, q))
}

/// Whether a node gets finitely many states, whatever its children have.
pub open spec fn finitely_many<A: BottomUpTa>(a: &A) -> bool {
    forall|f: Symbol, children: Seq<A::State>| (#[trigger] results(a, f, children)).finite()
}

/// Finitely many nodes get finitely many states.
proof fn lemma_finite_results<A: BottomUpTa>(a: &A, f: Symbol, list: Seq<Seq<A::State>>)
    requires
        finitely_many(a),
    ensures
        Set::new(
            |q: A::State| exists|j: int| 0 <= j < list.len() && a.steps_to(f, #[trigger] list[j], q),
        ).finite(),
    decreases list.len(),
{
    let all = Set::new(
        |q: A::State| exists|j: int| 0 <= j < list.len() && a.steps_to(f, #[trigger] list[j], q),
    );
    if list.len() == 0 {
        assert(all =~= Set::empty());
    } else {
        let front = list.drop_last();
        lemma_finite_results(a, f, front);
        let fewer = Set::new(
            |q: A::State|
                exists|j: int| 0 <= j < front.len() && a.steps_to(f, #[trigger] front[j], q),
        );
        let last = results(a, f, list.last());
        assert(last.finite());
        assert forall|q: A::State| all.contains(q) <==> fewer.union(last).contains(q) by {
            if all.contains(q) {
                let j = choose|j: int|
                    0 <= j < list.len() && a.steps_to(f, #[trigger] list[j], q);
                if j < front.len() {
                    assert(front[j] == list[j]);
                }
            }
            if fewer.contains(q) {
                let j = choose|j: int|
                    0 <= j < front.len() && a.steps_to(f, #[trigger] front[j], q);
                assert(list[j] == front[j]);
            }
            if last.contains(q) {
                assert(a.steps_to(f, list[list.len() - 1], q));
            }
        }
        assert(all =~= fewer.union(last));
    }
}

/// A node over finite sets gets a finite set.
proof fn lemma_finite_step<A: BottomUpTa>(a: &A, f: Symbol, chains: Seq<Subset<A::State>>)
    requires
        finitely_many(a),
    ensures
        subset_step(a, f, state_sets(chains)).finite(),
{
    let sets = state_sets(chains);
    let lists = Seq::new(chains.len(), |i: int| chains[i].list());
    let tuples = cartesian::tuples(lists);
    lemma_finite_results(a, f, tuples);
    let all = Set::new(
        |q: A::State|
            exists|j: int| 0 <= j < tuples.len() && a.steps_to(f, #[trigger] tuples[j], q),
    );
    assert forall|q: A::State| subset_step(a, f, sets).contains(q) implies all.contains(q) by {
        let tuple = choose|tuple: Seq<A::State>| #[trigger]
            picks(tuple, sets) && a.steps_to(f, tuple, q);
        assert(cartesian::draws(tuple, lists)) by {
            assert forall|c: int| 0 <= c < tuple.len() implies lists[c].contains(
                #[trigger] tuple[c],
            ) by {
                chains[c].lemma_list();
                assert(sets[c].contains(tuple[c]));
            }
        }
        cartesian::lemma_tuples(lists, tuple);
        let j = choose|j: int| 0 <= j < tuples.len() && tuples[j] == tuple;
        assert(a.steps_to(f, tuples[j], q));
    }
    assert(subset_step(a, f, sets).subset_of(all));
    vstd::set_lib::lemma_len_subset(subset_step(a, f, sets), all);
}

/// The subset construction gives a tree the chain of its set, unless the set is empty.
proof fn lemma_determinized<A: BottomUpTa>(d: &Determinized<A>, t: SymbolTree)
    requires
        finitely_many(&d.0),
    ensures
        forall|q: Subset<A::State>| #[trigger]
            recognition::reaches(d, t, q) <==> (stands_for(q, subset_of(&d.0, t)) && subset_of(
                &d.0,
                t,
            ) != Set::<A::State>::empty()),
        has_chain(subset_of(&d.0, t)),
    decreases t,
{
    let a = &d.0;
    let sets = subsets_of(a, t.children);
    assert forall|i: int| 0 <= i < t.children.len() implies has_chain(#[trigger] sets[i]) by {
        lemma_determinized(d, t.children[i]);
    }
    let chains = Seq::new(
        t.children.len(),
        |i: int| choose|q: Subset<A::State>| #[trigger] stands_for(q, sets[i]),
    );
    assert forall|i: int| 0 <= i < t.children.len() implies stands_for(
        #[trigger] chains[i],
        sets[i],
    ) by {
        assert(has_chain(sets[i]));
    }
    assert(state_sets(chains) =~= sets);
    lemma_finite_step(a, t.symbol, chains);
    let set = subset_of(a, t);
    let r = Subset::lemma_exists(set);
    assert(stands_for(r, set));
    assert forall|q: Subset<A::State>| #[trigger] recognition::reaches(d, t, q) <==> (stands_for(
        q,
        set,
    ) && set != Set::<A::State>::empty()) by {
        if recognition::reaches(d, t, q) {
            let states = recognition::lemma_reaches(d, t, q);
            assert forall|i: int| 0 <= i < states.len() implies (
            #[trigger] states[i]).set() == sets[i] by {
                lemma_determinized(d, t.children[i]);
                assert(recognition::reaches(d, t.children[i], states[i]));
            }
            assert(state_sets(states) =~= sets);
        }
        if stands_for(q, set) && set != Set::<A::State>::empty() {
            assert(d.steps_to(t.symbol, chains, q));
            let p = choose|p: A::State| set.contains(p);
            assert(exists|p: A::State| set.contains(p)) by {
                if forall|p: A::State| !set.contains(p) {
                    assert(set =~= Set::empty());
                }
            }
            let tuple = choose|tuple: Seq<A::State>| #[trigger]
                picks(tuple, sets) && a.steps_to(t.symbol, tuple, p);
            assert forall|i: int| 0 <= i < t.children.len() implies recognition::reaches(
                d,
                #[trigger] t.children[i],
                chains[i],
            ) by {
                lemma_determinized(d, t.children[i]);
                assert(sets[i].contains(tuple[i]));
                assert(stands_for(chains[i], sets[i]));
            }
        }
    }
}

/// The subset construction accepts the trees that the wrapped automaton accepts, and gives
/// every tree at most one state.
pub proof fn law_determinized_recognizes<A: BottomUpTa>(d: &Determinized<A>, t: SymbolTree)
    requires
        finitely_many(&d.0),
    ensures
        recognition::recognizes(d, t) <==> recognition::recognizes(&d.0, t),
        forall|p: Subset<A::State>, q: Subset<A::State>| #[trigger]
            recognition::reaches(d, t, p) && #[trigger] recognition::reaches(d, t, q) ==> p == q,
{
    lemma_determinized(d, t);
    law_subsets_agree(&d.0, t);
    let set = subset_of(&d.0, t);
    let r = choose|q: Subset<A::State>| #[trigger] stands_for(q, set);
    assert forall|p: Subset<A::State>, q: Subset<A::State>| #[trigger]
        recognition::reaches(d, t, p) && #[trigger] recognition::reaches(d, t, q) implies p == q by {
        p.lemma_unique(q);
    }
    if recognition::recognizes(&d.0, t) {
        let q = choose|q: A::State| #[trigger] set.contains(q) && d.0.accepts(q);
        assert(recognition::reaches(d, t, r));
        assert(d.accepts(r));
    }
    if recognition::recognizes(d, t) {
        let q = choose|q: Subset<A::State>| #[trigger]
            recognition::reaches(d, t, q) && d.accepts(q);
        let p = choose|p: A::State| q.set().contains(p) && #[trigger] d.0.accepts(p);
        assert(set.contains(p));
    }
}

/// An explicit automaton gives a node finitely many states: it has finitely many rules.
pub proof fn law_explicit_steps_are_finite(a: &Explicit)
    ensures
        finitely_many(a),
{
    assert forall|f: Symbol, children: Seq<StateId>| (#[trigger] results(
        a,
        f,
        children,
    )).finite() by {
        let all = Seq::new(a@.rules.len(), |i: int| a@.rules[i].result);
        vstd::seq_lib::seq_to_set_is_finite(all);
        assert forall|q: StateId| #[trigger] results(a, f, children).contains(q) implies all.to_set()
            .contains(q) by {
            let i = choose|i: int|
                0 <= i < a@.rules.len() && automaton::applies(
                    #[trigger] a@.rules[i],
                    f,
                    children,
                ) && a@.rules[i].result == q;
            assert(all[i] == q);
        }
        vstd::set_lib::lemma_set_subset_finite(all.to_set(), results(a, f, children));
    }
}

/// A determinized explicit automaton accepts the trees that the automaton accepts.
pub proof fn law_determinized_explicit_recognizes(d: &Determinized<Explicit>, t: SymbolTree)
    ensures
        recognition::recognizes(d, t) <==> recognition::recognizes(&d.0, t),
{
    law_explicit_steps_are_finite(&d.0);
    law_determinized_recognizes(d, t);
}

} // verus!
