//! How many states and rules the intersection of two automata has.
use crate::apply::SymbolTree;
use crate::automaton;
use crate::automaton::RuleModel;
use crate::combinators::groups;
use crate::combinators::groups::write_group_word;
use crate::combinators::product;
use crate::ids::{StateId, Symbol};
use crate::pair_chart;
use crate::pair_chart::Firing;
use crate::state_set::StateSet;
use crate::symbol_set;
use crate::tables::KeyTable;
use crate::traits::AutomatonState;
use vstd::prelude::*;

verus! {

/// A set of transitions.
pub type Rel<S> = spec_fn(Symbol, Seq<S>, S) -> bool;

/// Whether a tree gets state `q` by the given transitions.
pub open spec fn derives<S>(rel: Rel<S>, t: SymbolTree, q: S) -> bool
    decreases t,
{
    exists|states: Seq<S>|
        states.len() == t.children.len() && (forall|i: int|
            0 <= i < t.children.len() ==> derives(rel, #[trigger] t.children[i], states[i]))
            && #[trigger] rel(t.symbol, states, q)
}

/// Whether some tree gets state `q`.
pub open spec fn derivable<S>(rel: Rel<S>, q: S) -> bool {
    exists|t: SymbolTree| derives(rel, t, q)
}

/// Whether a transition leads from states that trees get.
pub open spec fn fires<S>(rel: Rel<S>, f: Symbol, children: Seq<S>, q: S) -> bool {
    rel(f, children, q) && forall|i: int|
        0 <= i < children.len() ==> derivable(rel, #[trigger] children[i])
}

/// The transitions that two sets of transitions have in common, on pairs of states.
pub open spec fn joint<S>(left: Rel<StateId>, right: Rel<S>) -> Rel<(StateId, S)> {
    |f: Symbol, c: Seq<(StateId, S)>, q: (StateId, S)|
        left(f, product::firsts(c), q.0) && right(f, product::seconds(c), q.1)
}

/// Whether the intersection of two sets of transitions has the given numbers of
/// states and of transitions between them.
pub open spec fn counts<S>(left: Rel<StateId>, right: Rel<S>, states: nat, rules: nat) -> bool {
    exists|pairs: Seq<(StateId, S)>, firings: Seq<Firing<S>>|
        #![trigger lists_all(joint(left, right), pairs, firings)]
        lists_all(joint(left, right), pairs, firings) && states == pairs.len() && rules
            == firings.len()
}

/// Whether the lists hold the states that trees get and the transitions between them,
/// once each.
pub open spec fn lists_all<S>(
    rel: Rel<(StateId, S)>,
    pairs: Seq<(StateId, S)>,
    firings: Seq<Firing<S>>,
) -> bool {
    &&& pairs.no_duplicates()
    &&& firings.no_duplicates()
    &&& forall|p: (StateId, S)| #[trigger] pairs.contains(p) <==> derivable(rel, p)
    &&& forall|x: Firing<S>| #[trigger]
        firings.contains(x) <==> fires(rel, x.symbol, x.children, x.result)
}

/// The numbers of states and rules do not depend on how they were found.
pub proof fn law_counts_agree<S>(
    left: Rel<StateId>,
    right: Rel<S>,
    states: nat,
    rules: nat,
    other_states: nat,
    other_rules: nat,
)
    requires
        counts(left, right, states, rules),
        counts(left, right, other_states, other_rules),
    ensures
        states == other_states,
        rules == other_rules,
{
    let rel = joint(left, right);
    let (pairs, firings) = choose|pairs: Seq<(StateId, S)>, firings: Seq<Firing<S>>|
        #![trigger lists_all(rel, pairs, firings)]
        lists_all(rel, pairs, firings) && states == pairs.len() && rules == firings.len();
    let (pairs2, firings2) = choose|pairs: Seq<(StateId, S)>, firings: Seq<Firing<S>>|
        #![trigger lists_all(rel, pairs, firings)]
        lists_all(rel, pairs, firings) && other_states == pairs.len() && other_rules
            == firings.len();
    lemma_same_len(pairs, pairs2);
    lemma_same_len(firings, firings2);
}

proof fn lemma_same_len<T>(a: Seq<T>, b: Seq<T>)
    requires
        a.no_duplicates(),
        b.no_duplicates(),
        forall|x: T| #[trigger] a.contains(x) <==> b.contains(x),
    ensures
        a.len() == b.len(),
{
    assert forall|i: int| 0 <= i < a.len() implies b.contains(#[trigger] a[i]) by {
        assert(a.contains(a[i]));
    }
    assert forall|i: int| 0 <= i < b.len() implies a.contains(#[trigger] b[i]) by {
        assert(b.contains(b[i]));
    }
    pair_chart::lemma_distinct_within(a, b);
    pair_chart::lemma_distinct_within(b, a);
}

/// A grouped rule of the automaton on the right: its children, its symbols and its
/// result.
pub struct RightModel<S> {
    pub children: Seq<S>,
    pub symbols: Set<Symbol>,
    pub result: S,
}

/// The transitions of an explicit automaton.
pub open spec fn left_rel(rules: Seq<RuleModel>) -> Rel<StateId> {
    |f: Symbol, c: Seq<StateId>, q: StateId| automaton::has_transition(rules, f, c, q)
}

/// Whether grouped rule `j` stands for a transition.
pub open spec fn stands_for<S>(rules: Seq<RightModel<S>>, j: int, f: Symbol, c: Seq<S>, q: S) -> bool {
    0 <= j < rules.len() && rules[j].children == c && rules[j].result == q
        && rules[j].symbols.contains(f)
}

/// The transitions that grouped rules stand for.
pub open spec fn right_rel<S>(rules: Seq<RightModel<S>>) -> Rel<S> {
    |f: Symbol, c: Seq<S>, q: S| exists|j: int| #[trigger] stands_for(rules, j, f, c, q)
}

/// Whether rule `i` on the left and grouped rule `j` on the right have symbol `f` and
/// as many children.
pub open spec fn fits<S>(
    left: Seq<RuleModel>,
    right: Seq<RightModel<S>>,
    i: int,
    j: int,
    f: Symbol,
) -> bool {
    &&& 0 <= i < left.len()
    &&& 0 <= j < right.len()
    &&& left[i].symbol == f
    &&& right[j].symbols.contains(f)
    &&& left[i].children.len() == right[j].children.len()
}

/// The transition that two fitting rules make.
pub open spec fn made<S>(left: Seq<RuleModel>, right: Seq<RightModel<S>>, i: int, j: int) -> Firing<S> {
    Firing {
        symbol: left[i].symbol,
        children: product::zipped(left[i].children, right[j].children),
        result: (left[i].result, right[j].result),
    }
}

/// Whether all states of a list are in another.
pub open spec fn all_in<T>(list: Seq<T>, all: Seq<T>) -> bool {
    forall|i: int| 0 <= i < list.len() ==> all.contains(#[trigger] list[i])
}

/// Fitting rules make a common transition.
pub proof fn lemma_made<S>(
    left: Seq<RuleModel>,
    right: Seq<RightModel<S>>,
    i: int,
    j: int,
    f: Symbol,
)
    requires
        fits(left, right, i, j, f),
    ensures
        ({
            let x = made(left, right, i, j);
            joint(left_rel(left), right_rel(right))(x.symbol, x.children, x.result)
        }),
{
    let x = made(left, right, i, j);
    product::lemma_zipped(left[i].children, right[j].children);
    assert(automaton::applies(left[i], f, left[i].children));
    assert(stands_for(right, j, f, right[j].children, right[j].result));
}

/// A common transition is made by fitting rules.
pub proof fn lemma_joint_made<S>(
    left: Seq<RuleModel>,
    right: Seq<RightModel<S>>,
    f: Symbol,
    c: Seq<(StateId, S)>,
    q: (StateId, S),
) -> (ij: (int, int))
    requires
        joint(left_rel(left), right_rel(right))(f, c, q),
    ensures
        fits(left, right, ij.0, ij.1, f),
        made(left, right, ij.0, ij.1) == (Firing { symbol: f, children: c, result: q }),
{
    let a = product::firsts(c);
    let b = product::seconds(c);
    let i = choose|i: int|
        0 <= i < left.len() && automaton::applies(#[trigger] left[i], f, a) && left[i].result
            == q.0;
    let j = choose|j: int| #[trigger] stands_for(right, j, f, b, q.1);
    product::lemma_unzipped(c);
    (i, j)
}

proof fn lemma_derives_intro<S>(rel: Rel<S>, t: SymbolTree, states: Seq<S>, q: S)
    requires
        states.len() == t.children.len(),
        forall|i: int|
            0 <= i < t.children.len() ==> derives(rel, #[trigger] t.children[i], states[i]),
        rel(t.symbol, states, q),
    ensures
        derives(rel, t, q),
{
}

/// The result of a transition between derivable states is derivable.
pub proof fn lemma_fires_derivable<S>(rel: Rel<S>, f: Symbol, children: Seq<S>, q: S)
    requires
        fires(rel, f, children, q),
    ensures
        derivable(rel, q),
{
    let trees = Seq::new(
        children.len(),
        |i: int| choose|t: SymbolTree| derives(rel, t, children[i]),
    );
    let t = SymbolTree { symbol: f, children: trees };
    assert forall|i: int| 0 <= i < t.children.len() implies derives(
        rel,
        #[trigger] t.children[i],
        children[i],
    ) by {
        assert(derivable(rel, children[i]));
        let u = choose|t: SymbolTree| derives(rel, t, children[i]);
        assert(t.children[i] == u);
    }
    lemma_derives_intro(rel, t, children, q);
}

/// A set of states that is closed under the transitions holds every derivable state.
pub proof fn lemma_derivable_closed<S>(rel: Rel<S>, pairs: Seq<S>, t: SymbolTree, q: S)
    requires
        forall|f: Symbol, c: Seq<S>, p: S| #[trigger]
            rel(f, c, p) && all_in(c, pairs) ==> pairs.contains(p),
        derives(rel, t, q),
    ensures
        pairs.contains(q),
    decreases t,
{
    let states = choose|states: Seq<S>|
        states.len() == t.children.len() && (forall|i: int|
            0 <= i < t.children.len() ==> derives(rel, #[trigger] t.children[i], states[i]))
            && #[trigger] rel(t.symbol, states, q);
    assert forall|i: int| 0 <= i < states.len() implies pairs.contains(#[trigger] states[i]) by {
        assert(derives(rel, t.children[i], states[i]));
        lemma_derivable_closed(rel, pairs, t.children[i], states[i]);
    }
    assert(rel(t.symbol, states, q) && all_in(states, pairs));
}

/// All values of a function on a grid.
pub open spec fn grid<T>(n: int, m: int, g: spec_fn(int, int) -> T) -> Seq<T>
    decreases n,
{
    if n <= 0 {
        Seq::empty()
    } else {
        grid(n - 1, m, g) + Seq::new(m as nat, |j: int| g(n - 1, j))
    }
}

/// A grid has the values of the function.
pub proof fn lemma_grid<T>(n: int, m: int, g: spec_fn(int, int) -> T, i: int, j: int)
    requires
        0 <= i < n,
        0 <= j < m,
    ensures
        grid(n, m, g).contains(g(i, j)),
    decreases n,
{
    let before = grid(n - 1, m, g);
    let row = Seq::new(m as nat, |j: int| g(n - 1, j));
    let all = before + row;
    if i == n - 1 {
        assert(all[before.len() + j] == g(i, j));
    } else {
        lemma_grid(n - 1, m, g, i, j);
        let k = choose|k: int| 0 <= k < before.len() && before[k] == g(i, j);
        assert(all[k] == g(i, j));
    }
}

/// The results that rules can make.
pub open spec fn result_grid<S>(left: Seq<RuleModel>, right: Seq<RightModel<S>>) -> Seq<(StateId, S)> {
    grid(
        left.len() as int,
        right.len() as int,
        |i: int, j: int| (left[i].result, right[j].result),
    )
}

/// Every derivable pair is one of the results that rules can make.
pub proof fn lemma_derivable_in_grid<S>(
    left: Seq<RuleModel>,
    right: Seq<RightModel<S>>,
    q: (StateId, S),
)
    requires
        derivable(joint(left_rel(left), right_rel(right)), q),
    ensures
        result_grid(left, right).contains(q),
{
    let rel = joint(left_rel(left), right_rel(right));
    let t = choose|t: SymbolTree| derives(rel, t, q);
    let states = choose|states: Seq<(StateId, S)>|
        states.len() == t.children.len() && (forall|i: int|
            0 <= i < t.children.len() ==> derives(rel, #[trigger] t.children[i], states[i]))
            && #[trigger] rel(t.symbol, states, q);
    let (i, j) = lemma_joint_made(left, right, t.symbol, states, q);
    let g = |i: int, j: int| (left[i].result, right[j].result);
    lemma_grid(left.len() as int, right.len() as int, g, i, j);
    assert(g(i, j) == q);
}

/// The transitions that rules can make.
pub open spec fn made_grid<S>(left: Seq<RuleModel>, right: Seq<RightModel<S>>) -> Seq<Firing<S>> {
    grid(left.len() as int, right.len() as int, |i: int, j: int| made(left, right, i, j))
}

/// Every common transition is one that rules can make.
pub proof fn lemma_joint_in_grid<S>(
    left: Seq<RuleModel>,
    right: Seq<RightModel<S>>,
    x: Firing<S>,
)
    requires
        joint(left_rel(left), right_rel(right))(x.symbol, x.children, x.result),
    ensures
        made_grid(left, right).contains(x),
{
    let (i, j) = lemma_joint_made(left, right, x.symbol, x.children, x.result);
    let g = |i: int, j: int| made(left, right, i, j);
    lemma_grid(left.len() as int, right.len() as int, g, i, j);
    assert(g(i, j) == x);
}

/// A found transition.
pub struct Found<S> {
    pub symbol: Symbol,
    pub children: Vec<(StateId, S)>,
    pub result: (StateId, S),
}

/// What found transitions are.
pub open spec fn firings<S>(list: Seq<Found<S>>) -> Seq<Firing<S>> {
    Seq::new(
        list.len(),
        |i: int|
            Firing {
                symbol: list[i].symbol,
                children: list[i].children@,
                result: list[i].result,
            },
    )
}

/// The word of a transition.
pub open spec fn firing_word<S: AutomatonState>(x: Firing<S>) -> Seq<u32> {
    seq![x.symbol.0] + groups::group_word(x.children, x.result)
}

/// The pairs and transitions of an intersection found so far.
pub struct Intersecting<S: AutomatonState> {
    pub pairs: StateSet<(StateId, S)>,
    pub rules: Vec<Found<S>>,
    pub seen: KeyTable,
}

impl<S: AutomatonState> Intersecting<S> {
    /// Whether only pairs and transitions of the intersection are there, once each,
    /// and every transition leads between listed pairs.
    pub open spec fn ok(&self, left: Seq<RuleModel>, right: Seq<RightModel<S>>) -> bool {
        let rel = joint(left_rel(left), right_rel(right));
        &&& self.pairs.wf()
        &&& self.pairs.list().no_duplicates()
        &&& firings(self.rules@).no_duplicates()
        &&& forall|p: (StateId, S)| #[trigger] self.pairs.list().contains(p) ==> derivable(rel, p)
        &&& forall|x: Firing<S>| #[trigger]
            firings(self.rules@).contains(x) ==> fires(rel, x.symbol, x.children, x.result)
                && self.pairs.list().contains(x.result)
        &&& forall|i: int|
            0 <= i < self.rules@.len() ==> self.seen@.dom().contains(
                firing_word(#[trigger] firings(self.rules@)[i]),
            )
        &&& forall|k: Seq<u32>| #[trigger]
            self.seen@.dom().contains(k) ==> exists|i: int|
                0 <= i < self.rules@.len() && firing_word(#[trigger] firings(self.rules@)[i]) == k
    }

    /// Whether the transitions of two fitting rules have been found, as far as their
    /// children have.
    pub open spec fn done(
        &self,
        left: Seq<RuleModel>,
        right: Seq<RightModel<S>>,
        i: int,
        j: int,
    ) -> bool {
        all_in(made(left, right, i, j).children, self.pairs.list()) ==> firings(
            self.rules@,
        ).contains(made(left, right, i, j))
    }

    /// Nothing found yet.
    pub fn new(Ghost(left): Ghost<Seq<RuleModel>>, Ghost(right): Ghost<Seq<RightModel<S>>>) -> (r: Self)
        ensures
            r.ok(left, right),
            r.pairs.list() == Seq::<(StateId, S)>::empty(),
            firings(r.rules@) == Seq::<Firing<S>>::empty(),
    {
        let r = Intersecting { pairs: StateSet::new(), rules: Vec::new(), seen: KeyTable::new() };
        assert(firings(r.rules@) =~= Seq::<Firing<S>>::empty());
        r
    }

    /// The pairs of corresponding children, if all have been found.
    pub fn known_children(&self, l: &[StateId], r: &Vec<S>) -> (c: Option<Vec<(StateId, S)>>)
        requires
            self.pairs.wf(),
            l@.len() == r@.len(),
        ensures
            match c {
                Some(c) => c@ == product::zipped(l@, r@) && all_in(c@, self.pairs.list()),
                None => !all_in(product::zipped(l@, r@), self.pairs.list()),
            },
    {
        let ghost all = product::zipped(l@, r@);
        let mut c: Vec<(StateId, S)> = Vec::new();
        let mut k: usize = 0;
        while k < l.len()
            invariant
                k <= l@.len(),
                l@.len() == r@.len(),
                self.pairs.wf(),
                all == product::zipped(l@, r@),
                c@ == all.take(k as int),
                all_in(c@, self.pairs.list()),
            decreases l@.len() - k,
        {
            let pair = (l[k], r[k].duplicate());
            assert(pair == all[k as int]);
            if !self.pairs.contains(&pair) {
                assert(!self.pairs.list().contains(all[k as int]));
                return None;
            }
            let ghost before = c@;
            c.push(pair);
            proof {
                assert(all.take(k + 1) =~= all.take(k as int).push(all[k as int]));
                assert forall|i: int| 0 <= i < c@.len() implies self.pairs.list().contains(
                    #[trigger] c@[i],
                ) by {
                    if i < before.len() {
                        assert(self.pairs.list().contains(before[i]));
                    }
                }
            }
            k += 1;
        }
        assert(all.take(k as int) =~= all);
        Some(c)
    }

    /// Adds the transition that two fitting rules make; reports whether its result and
    /// whether it itself is new.
    pub fn fire(
        &mut self,
        symbol: Symbol,
        children: Vec<(StateId, S)>,
        result: (StateId, S),
        Ghost(left): Ghost<Seq<RuleModel>>,
        Ghost(right): Ghost<Seq<RightModel<S>>>,
    ) -> (fresh: (bool, bool))
        requires
            old(self).ok(left, right),
            all_in(children@, old(self).pairs.list()),
            joint(left_rel(left), right_rel(right))(symbol, children@, result),
        ensures
            final(self).ok(left, right),
            final(self).pairs.list() == (if fresh.0 {
                old(self).pairs.list().push(result)
            } else {
                old(self).pairs.list()
            }),
            fresh.0 == !old(self).pairs.list().contains(result),
            firings(final(self).rules@) == (if fresh.1 {
                firings(old(self).rules@).push(
                    Firing { symbol, children: children@, result },
                )
            } else {
                firings(old(self).rules@)
            }),
            firings(final(self).rules@).contains(Firing { symbol, children: children@, result }),
            fresh.0 ==> fresh.1,
    {
        let ghost x = Firing { symbol, children: children@, result };
        let ghost rel = joint(left_rel(left), right_rel(right));
        let ghost pairs = self.pairs.list();
        let ghost list = firings(self.rules@);
        let ghost table = self.seen@;
        let mut key: Vec<u32> = vec![symbol.0];
        let mut rest = write_group_word(&children, &result);
        key.append(&mut rest);
        proof {
            assert(key@ =~= firing_word(x));
            assert forall|i: int| 0 <= i < children@.len() implies derivable(
                rel,
                #[trigger] children@[i],
            ) by {
                assert(pairs.contains(children@[i]));
            }
            lemma_fires_derivable(rel, symbol, children@, result);
        }
        let copy = (result.0, result.1.duplicate());
        let fresh_pair = self.pairs.insert(copy);
        proof {
            assert forall|p: (StateId, S)| #[trigger] self.pairs.list().contains(p) implies derivable(
                rel,
                p,
            ) by {
                symbol_set::lemma_push_contains(pairs, result, p);
            }
            assert forall|p: (StateId, S)| pairs.contains(p) implies #[trigger] self.pairs.list().contains(
                p,
            ) by {
                symbol_set::lemma_push_contains(pairs, result, p);
            }
            symbol_set::lemma_push_contains(pairs, result, result);
            if fresh_pair {
                assert(self.pairs.list().no_duplicates()) by {
                    assert forall|i: int, j: int|
                        0 <= i < j < self.pairs.list().len() implies self.pairs.list()[i]
                        != self.pairs.list()[j] by {
                        if j == pairs.len() {
                            assert(pairs.contains(pairs[i]));
                        }
                    }
                }
            }
        }
        if self.seen.get(key.as_slice()).is_some() {
            proof {
                assert(table.dom().contains(firing_word(x)));
                let i = choose|i: int|
                    0 <= i < self.rules@.len() && firing_word(#[trigger] list[i]) == firing_word(x);
                let n: usize = self.rules@[i].children.len();
                lemma_firing_word(list[i], x, n as nat, children@.len());
                assert(list.contains(x));
                assert(pairs.contains(x.result));
            }
            return (fresh_pair, false);
        }
        self.seen.insert(key, 0);
        let ghost before = self.rules@;
        self.rules.push(Found { symbol, children, result });
        proof {
            let now = firings(self.rules@);
            assert(now =~= list.push(x));
            assert(!list.contains(x)) by {
                if list.contains(x) {
                    let i = choose|i: int| 0 <= i < list.len() && list[i] == x;
                    assert(table.dom().contains(firing_word(list[i])));
                }
            }
            assert(now.no_duplicates()) by {
                assert forall|i: int, j: int| 0 <= i < j < now.len() implies now[i] != now[j] by {
                    if j == list.len() {
                        assert(list.contains(list[i]));
                    }
                }
            }
            assert forall|y: Firing<S>| #[trigger] now.contains(y) implies fires(
                rel,
                y.symbol,
                y.children,
                y.result,
            ) && self.pairs.list().contains(y.result) by {
                symbol_set::lemma_push_contains(list, x, y);
            }
            assert forall|i: int| 0 <= i < now.len() implies self.seen@.dom().contains(
                firing_word(#[trigger] now[i]),
            ) by {
                if i < list.len() {
                    assert(table.dom().contains(firing_word(list[i])));
                }
            }
            assert forall|k: Seq<u32>| #[trigger] self.seen@.dom().contains(k) implies exists|i: int|
                0 <= i < self.rules@.len() && firing_word(#[trigger] now[i]) == k by {
                if k == firing_word(x) {
                    assert(firing_word(now[list.len() as int]) == k);
                } else {
                    assert(table.dom().contains(k));
                    let i = choose|i: int|
                        0 <= i < before.len() && firing_word(#[trigger] list[i]) == k;
                    assert(firing_word(now[i]) == k);
                }
            }
            assert(now[list.len() as int] == x);
        }
        (fresh_pair, true)
    }
}

/// When the transitions of all fitting rules have been found, the counts are those of
/// the intersection.
pub proof fn lemma_complete<S: AutomatonState>(
    work: &Intersecting<S>,
    left: Seq<RuleModel>,
    right: Seq<RightModel<S>>,
)
    requires
        work.ok(left, right),
        forall|i: int, j: int, f: Symbol| #[trigger]
            fits(left, right, i, j, f) ==> work.done(left, right, i, j),
    ensures
        counts(left_rel(left), right_rel(right), work.pairs.list().len(), work.rules@.len()),
{
    let rel = joint(left_rel(left), right_rel(right));
    let pairs = work.pairs.list();
    let list = firings(work.rules@);
    assert forall|f: Symbol, c: Seq<(StateId, S)>, p: (StateId, S)| #[trigger]
        rel(f, c, p) && all_in(c, pairs) implies pairs.contains(p) by {
        let (i, j) = lemma_joint_made(left, right, f, c, p);
        assert(work.done(left, right, i, j));
        assert(list.contains(made(left, right, i, j)));
    }
    assert forall|p: (StateId, S)| #[trigger] pairs.contains(p) <==> derivable(rel, p) by {
        if derivable(rel, p) {
            let t = choose|t: SymbolTree| derives(rel, t, p);
            lemma_derivable_closed(rel, pairs, t, p);
        }
    }
    assert forall|x: Firing<S>| #[trigger] list.contains(x) <==> fires(
        rel,
        x.symbol,
        x.children,
        x.result,
    ) by {
        if fires(rel, x.symbol, x.children, x.result) {
            let (i, j) = lemma_joint_made(left, right, x.symbol, x.children, x.result);
            assert forall|k: int| 0 <= k < x.children.len() implies pairs.contains(
                #[trigger] x.children[k],
            ) by {
                assert(derivable(rel, x.children[k]));
            }
            assert(work.done(left, right, i, j));
        }
    }
    assert(lists_all(rel, pairs, list));
    assert(list.len() == work.rules@.len());
}

/// Different transitions have different words.
proof fn lemma_firing_word<S: AutomatonState>(x: Firing<S>, y: Firing<S>, n: nat, m: nat)
    requires
        firing_word(x) == firing_word(y),
        n == x.children.len(),
        m == y.children.len(),
        n <= usize::MAX,
        m <= usize::MAX,
    ensures
        x == y,
{
    assert(firing_word(x)[0] == x.symbol.0);
    assert(firing_word(y)[0] == y.symbol.0);
    assert(firing_word(x).skip(1) =~= groups::group_word(x.children, x.result));
    assert(firing_word(y).skip(1) =~= groups::group_word(y.children, y.result));
    groups::lemma_group_word(x.children, x.result, y.children, y.result);
}

} // verus!
