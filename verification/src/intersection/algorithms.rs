//! Three ways to count the states and rules of an intersection: trying all pairs of
//! rules until nothing is new, and following an agenda of new pairs, with rules on
//! the right indexed by symbol or grouped.
use super::counting;
use super::counting::{Intersecting, RightModel};
use crate::automaton;
use crate::automaton::RuleModel;
use crate::explicit::Explicit;
use crate::ids::{StateId, Symbol};
use crate::key_index::{copy_states, KeyIndex};
use crate::pair_chart;
use crate::pair_chart::Firing;
use crate::symbol_set;
use crate::symbol_set::SymbolSet;
use crate::terms;
use crate::traits;
use crate::traits::{AutomatonState, CondensedRule, CondensedTa, StateKey};
use vstd::prelude::*;

verus! {

/// How many states and rules an intersection has, and how many grouped rules the
/// automaton on the right listed.
#[derive(Clone, Copy, PartialEq, Eq, Structural, Debug, Default)]
pub struct Summary {
    pub states: usize,
    pub rules: usize,
    pub condensed_rules: usize,
}

/// What grouped rules are.
pub open spec fn right_models<S>(list: Seq<CondensedRule<S>>) -> Seq<RightModel<S>> {
    Seq::new(
        list.len(),
        |j: int|
            RightModel {
                children: list[j].children@,
                symbols: list[j].symbols@,
                result: list[j].result,
            },
    )
}

/// What the rules of an automaton are, each in a group of its own.
pub open spec fn single_models(rules: Seq<RuleModel>) -> Seq<RightModel<StateId>> {
    Seq::new(
        rules.len(),
        |j: int|
            RightModel {
                children: rules[j].children,
                symbols: set![rules[j].symbol],
                result: rules[j].result,
            },
    )
}

proof fn lemma_single_rel(rules: Seq<RuleModel>)
    ensures
        counting::right_rel(single_models(rules)) == counting::left_rel(rules),
{
    let a = counting::right_rel(single_models(rules));
    let b = counting::left_rel(rules);
    assert forall|f: Symbol, c: Seq<StateId>, q: StateId| #[trigger] a(f, c, q) == b(f, c, q) by {
        if a(f, c, q) {
            let j = choose|j: int| #[trigger]
                counting::stands_for(single_models(rules), j, f, c, q);
            assert(automaton::applies(rules[j], f, c));
        }
        if b(f, c, q) {
            let j = choose|j: int|
                0 <= j < rules.len() && automaton::applies(#[trigger] rules[j], f, c)
                    && rules[j].result == q;
            assert(counting::stands_for(single_models(rules), j, f, c, q));
        }
    }
    assert(a =~= b);
}

/// The rules of an automaton, each in a group of its own.
fn single_rules(a: &Explicit) -> (r: Vec<CondensedRule<StateId>>)
    ensures
        right_models(r@) == single_models(a@.rules),
{
    let n: usize = a.num_rules();
    let mut r: Vec<CondensedRule<StateId>> = Vec::new();
    let mut i: usize = 0;
    while i < n
        invariant
            i <= n,
            n == a@.rules.len(),
            r@.len() == i,
            forall|j: int|
                0 <= j < i ==> #[trigger] right_models(r@)[j] == single_models(a@.rules)[j],
        decreases n - i,
    {
        let rule = a.rule(i);
        let mut symbols = SymbolSet::new();
        symbols.insert(rule.symbol);
        let ghost before = r@;
        r.push(
            CondensedRule { children: copy_states(rule.children), symbols, result: rule.result },
        );
        proof {
            assert(symbols@ =~= set![rule.symbol]);
            assert forall|j: int| 0 <= j < i + 1 implies #[trigger] right_models(r@)[j]
                == single_models(a@.rules)[j] by {
                if j < i {
                    assert(right_models(before)[j] == single_models(a@.rules)[j]);
                }
            }
        }
        i += 1;
    }
    assert(right_models(r@) =~= single_models(a@.rules));
    r
}

/// Whether the first `n` pairs of rules, row by row, have been dealt with.
spec fn rows_done<S: AutomatonState>(
    work: &Intersecting<S>,
    left: Seq<RuleModel>,
    right: Seq<RightModel<S>>,
    i: int,
    j: int,
) -> bool {
    forall|a: int, b: int, f: Symbol| #[trigger]
        counting::fits(left, right, a, b, f) && (a < i || (a == i && b < j)) ==> work.done(
            left,
            right,
            a,
            b,
        )
}

/// Tries all pairs of rules once; reports whether a transition is new.
fn naive_pass(
    work: &mut Intersecting<StateId>,
    left: &Explicit,
    rights: &Vec<CondensedRule<StateId>>,
) -> (changed: bool)
    requires
        old(work).ok(left@.rules, right_models(rights@)),
    ensures
        final(work).ok(left@.rules, right_models(rights@)),
        counting::firings(final(work).rules@).len() >= counting::firings(old(work).rules@).len(),
        changed == (counting::firings(final(work).rules@).len() > counting::firings(
            old(work).rules@,
        ).len()),
        !changed ==> rows_done(
            &*final(work),
            left@.rules,
            right_models(rights@),
            left@.rules.len() as int,
            0,
        ),
{
    let ghost l = left@.rules;
    let ghost r = right_models(rights@);
    let before: usize = work.rules.len();
    let ghost start_pairs = work.pairs.list();
    let ghost start_rules = counting::firings(work.rules@);
    let n: usize = left.num_rules();
    let mut i: usize = 0;
    while i < n
        invariant
            i <= n,
            n == left@.rules.len(),
            l == left@.rules,
            r == right_models(rights@),
            work.ok(l, r),
            start_rules.len() <= counting::firings(work.rules@).len(),
            counting::firings(work.rules@).len() == start_rules.len() ==> rows_done(
                &*work,
                l,
                r,
                i as int,
                0,
            ),
        decreases n - i,
    {
        let rule = left.rule(i);
        let mut j: usize = 0;
        while j < rights.len()
            invariant
                i < n,
                j <= rights@.len(),
                n == left@.rules.len(),
                l == left@.rules,
                r == right_models(rights@),
                rule@ == l[i as int],
                work.ok(l, r),
                start_rules.len() <= counting::firings(work.rules@).len(),
                counting::firings(work.rules@).len() == start_rules.len() ==> rows_done(
                    &*work,
                    l,
                    r,
                    i as int,
                    j as int,
                ),
            decreases rights@.len() - j,
        {
            let other = &rights[j];
            let ghost then_pairs = work.pairs.list();
            let ghost then_rules = counting::firings(work.rules@);
            let ghost old_work = *work;
            assert(r[j as int].children == other.children@);
            if other.symbols.contains(rule.symbol) && rule.children.len() == other.children.len() {
                assert(counting::fits(l, r, i as int, j as int, rule.symbol));
                let known = work.known_children(rule.children, &other.children);
                if let Some(children) = known {
                    proof {
                        counting::lemma_made(l, r, i as int, j as int, rule.symbol);
                    }
                    let _ = work.fire(
                        rule.symbol,
                        children,
                        (rule.result, other.result),
                        Ghost(l),
                        Ghost(r),
                    );
                    proof {
                        if counting::firings(work.rules@).len() == start_rules.len() {
                            assert(counting::firings(work.rules@) == then_rules);
                            assert(work.pairs.list() == then_pairs);
                            assert(work.done(l, r, i as int, j as int));
                            assert forall|a: int, b: int, f: Symbol| #[trigger]
                                counting::fits(l, r, a, b, f) && (a < i || (a == i && b < j
                                    + 1)) implies work.done(l, r, a, b) by {
                                if a < i || b < j {
                                    assert(old_work.done(l, r, a, b));
                                }
                            }
                        }
                    }
                } else {
                    assert(work.done(l, r, i as int, j as int));
                }
            }
            proof {
                if counting::firings(work.rules@).len() == start_rules.len() {
                    assert forall|a: int, b: int, f: Symbol| #[trigger]
                        counting::fits(l, r, a, b, f) && (a < i || (a == i && b < j
                            + 1)) implies work.done(l, r, a, b) by {
                        if a == i && b == j {
                            assert(f == rule.symbol);
                        }
                    }
                }
            }
            j += 1;
        }
        proof {
            if counting::firings(work.rules@).len() == start_rules.len() {
                assert forall|a: int, b: int, f: Symbol| #[trigger]
                    counting::fits(l, r, a, b, f) && (a < i + 1 || (a == i + 1 && b
                        < 0)) implies work.done(l, r, a, b) by {}
            }
        }
        i += 1;
    }
    work.rules.len() > before
}

/// Counts the states and rules of an intersection by trying all pairs of rules until
/// nothing is new.
pub fn intersect_naive(left: &Explicit, right: &Explicit) -> (s: Summary)
    ensures
        counting::counts(
            counting::left_rel(left@.rules),
            counting::left_rel(right@.rules),
            s.states as nat,
            s.rules as nat,
        ),
{
    let rights = single_rules(right);
    let ghost l = left@.rules;
    let ghost r = right_models(rights@);
    let ghost all = counting::made_grid(l, r);
    let mut work: Intersecting<StateId> = Intersecting::new(Ghost(l), Ghost(r));
    let mut changed = true;
    while changed
        invariant
            l == left@.rules,
            r == right_models(rights@),
            all == counting::made_grid(l, r),
            work.ok(l, r),
            !changed ==> rows_done(&work, l, r, l.len() as int, 0),
        decreases all.len() - counting::firings(work.rules@).len() + (if changed {
            1int
        } else {
            0
        }),
    {
        proof {
            lemma_firings_within(&work, l, r);
        }
        changed = naive_pass(&mut work, left, &rights);
        proof {
            lemma_firings_within(&work, l, r);
        }
    }
    proof {
        assert forall|i: int, j: int, f: Symbol| #[trigger]
            counting::fits(l, r, i, j, f) implies work.done(l, r, i, j) by {
            assert(i < l.len());
        }
        counting::lemma_complete(&work, l, r);
        lemma_single_rel(right@.rules);
    }
    Summary { states: work.pairs.len(), rules: work.rules.len(), condensed_rules: rights.len() }
}

/// Found transitions are ones that rules can make.
proof fn lemma_firings_within<S: AutomatonState>(
    work: &Intersecting<S>,
    left: Seq<RuleModel>,
    right: Seq<RightModel<S>>,
)
    requires
        work.ok(left, right),
    ensures
        counting::firings(work.rules@).len() <= counting::made_grid(left, right).len(),
{
    let list = counting::firings(work.rules@);
    assert forall|i: int| 0 <= i < list.len() implies counting::made_grid(left, right).contains(
        #[trigger] list[i],
    ) by {
        assert(list.contains(list[i]));
        counting::lemma_joint_in_grid(left, right, list[i]);
    }
    pair_chart::lemma_distinct_within(list, counting::made_grid(left, right));
}

/// The key of one number.
pub open spec fn number_key(n: u32) -> Seq<u32> {
    seq![n]
}

/// The rules on the left by the symbol of childless rules and by child state.
struct LeftIndex {
    nullary_by_symbol: KeyIndex,
    by_state: KeyIndex,
}

/// Whether the index lists, for every symbol, the childless rules among the first `n`.
spec fn nullary_ok(index: KeyIndex, rules: Seq<RuleModel>, n: int) -> bool {
    forall|f: Symbol, i: usize| #[trigger]
        index.at(number_key(f.0)).contains(i) <==> (i < n && rules[i as int].symbol == f
            && rules[i as int].children.len() == 0)
}

/// Whether rule `i` has child `q` among its first `m` children.
spec fn has_state(rules: Seq<RuleModel>, i: int, m: int, q: StateId) -> bool {
    exists|p: int| 0 <= p < m && #[trigger] rules[i].children[p] == q
}

/// Whether the index lists, for every state, the rules among the first `n` that have it
/// as a child, and rule `n` where one of its first `m` children is it.
spec fn by_state_ok(index: KeyIndex, rules: Seq<RuleModel>, n: int, m: int) -> bool {
    forall|q: StateId, i: usize| #[trigger]
        index.at(number_key(q.0)).contains(i) <==> ((i < n && has_state(
            rules,
            i as int,
            rules[i as int].children.len() as int,
            q,
        )) || (i == n && has_state(rules, i as int, m, q)))
}

impl LeftIndex {
    /// Whether the rules are indexed.
    spec fn ok(&self, rules: Seq<RuleModel>) -> bool {
        &&& self.nullary_by_symbol.wf()
        &&& self.by_state.wf()
        &&& nullary_ok(self.nullary_by_symbol, rules, rules.len() as int)
        &&& by_state_ok(self.by_state, rules, rules.len() as int, 0)
    }

    /// Indexes the rules of an automaton.
    fn build(left: &Explicit) -> (index: Self)
        ensures
            index.ok(left@.rules),
    {
        let ghost rules = left@.rules;
        let n: usize = left.num_rules();
        let mut nullary_by_symbol = KeyIndex::new();
        let mut by_state = KeyIndex::new();
        let mut i: usize = 0;
        while i < n
            invariant
                i <= n,
                n == left@.rules.len(),
                rules == left@.rules,
                nullary_by_symbol.wf(),
                by_state.wf(),
                nullary_ok(nullary_by_symbol, rules, i as int),
                by_state_ok(by_state, rules, i as int, 0),
            decreases n - i,
        {
            let rule = left.rule(i);
            let mut p: usize = 0;
            while p < rule.children.len()
                invariant
                    i < n,
                    n == left@.rules.len(),
                    rules == left@.rules,
                    rule@ == rules[i as int],
                    p <= rule.children@.len(),
                    by_state.wf(),
                    by_state_ok(by_state, rules, i as int, p as int),
                decreases rule.children@.len() - p,
            {
                let child = rule.children[p];
                let ghost before = by_state;
                let key: Vec<u32> = vec![child.0];
                assert(key@ =~= number_key(child.0));
                by_state.push_unique(key, i);
                proof {
                    assert forall|q: StateId, k: usize| #[trigger]
                        by_state.at(number_key(q.0)).contains(k) <==> ((k < i && has_state(
                            rules,
                            k as int,
                            rules[k as int].children.len() as int,
                            q,
                        )) || (k == i && has_state(rules, k as int, p + 1, q))) by {
                        assert(before.at(number_key(q.0)).contains(k) <==> ((k < i && has_state(
                            rules,
                            k as int,
                            rules[k as int].children.len() as int,
                            q,
                        )) || (k == i && has_state(rules, k as int, p as int, q))));
                        symbol_set::lemma_push_contains(before.at(number_key(q.0)), i, k);
                        if number_key(q.0) == number_key(child.0) {
                            assert(number_key(q.0)[0] == number_key(child.0)[0]);
                            assert(rules[i as int].children[p as int] == q);
                        }
                        if k == i {
                            lemma_has_state(rules, k as int, p as int, q);
                        }
                    }
                }
                p += 1;
            }
            proof {
                assert forall|q: StateId, k: usize| #[trigger]
                    by_state.at(number_key(q.0)).contains(k) <==> ((k < i + 1 && has_state(
                        rules,
                        k as int,
                        rules[k as int].children.len() as int,
                        q,
                    )) || (k == i + 1 && has_state(rules, k as int, 0, q))) by {}
            }
            if rule.children.len() == 0 {
                let ghost before = nullary_by_symbol;
                let key: Vec<u32> = vec![rule.symbol.0];
                assert(key@ =~= number_key(rule.symbol.0));
                nullary_by_symbol.push(key, i);
                proof {
                    assert forall|f: Symbol, k: usize| #[trigger]
                        nullary_by_symbol.at(number_key(f.0)).contains(k) <==> (k < i + 1
                            && rules[k as int].symbol == f && rules[k as int].children.len()
                            == 0) by {
                        symbol_set::lemma_push_contains(before.at(number_key(f.0)), i, k);
                        if number_key(f.0) == number_key(rule.symbol.0) {
                            assert(number_key(f.0)[0] == number_key(rule.symbol.0)[0]);
                        }
                    }
                }
            }
            i += 1;
        }
        LeftIndex { nullary_by_symbol, by_state }
    }
}

proof fn lemma_has_state(rules: Seq<RuleModel>, i: int, m: int, q: StateId)
    requires
        0 <= m,
    ensures
        has_state(rules, i, m + 1, q) <==> (has_state(rules, i, m, q) || rules[i].children[m] == q),
{
    if has_state(rules, i, m, q) {
        let p = choose|p: int| 0 <= p < m && #[trigger] rules[i].children[p] == q;
        assert(rules[i].children[p] == q);
    }
    if rules[i].children[m] == q {
        assert(0 <= m < m + 1 && rules[i].children[m] == q);
    }
}

/// The rules on the right by symbol, position and child.
pub trait RightLookup<S> {
    /// Whether the lookup is for the given rules.
    spec fn is_for(&self, right: Seq<RightModel<S>>) -> bool;

    /// The rules with the symbol that have the state at the position.
    fn find(&self, f: Symbol, position: usize, state: &S, Ghost(right): Ghost<Seq<RightModel<S>>>) -> (r: Vec<
        usize,
    >)
        requires
            self.is_for(right),
        ensures
            forall|j: usize| #[trigger]
                r@.contains(j) <==> (j < right.len() && right[j as int].symbols.contains(f)
                    && position < right[j as int].children.len()
                    && right[j as int].children[position as int] == *state),
    ;
}

/// Whether the transitions of fitting rules between the first `p` pairs have been found.
spec fn agenda_done<S: AutomatonState>(
    work: &Intersecting<S>,
    left: Seq<RuleModel>,
    right: Seq<RightModel<S>>,
    p: int,
) -> bool {
    forall|i: int, j: int, f: Symbol| #[trigger]
        counting::fits(left, right, i, j, f) && counting::all_in(
            counting::made(left, right, i, j).children,
            work.pairs.list().take(p),
        ) ==> counting::firings(work.rules@).contains(counting::made(left, right, i, j))
}

/// Whether this has everything that was there before.
spec fn grew<S: AutomatonState>(before: &Intersecting<S>, after: &Intersecting<S>) -> bool {
    before.pairs.list().is_prefix_of(after.pairs.list()) && counting::firings(
        before.rules@,
    ).is_prefix_of(counting::firings(after.rules@))
}

proof fn lemma_grew_contains<S: AutomatonState>(
    before: &Intersecting<S>,
    after: &Intersecting<S>,
    x: Firing<S>,
)
    requires
        grew(before, after),
        counting::firings(before.rules@).contains(x),
    ensures
        counting::firings(after.rules@).contains(x),
{
    let a = counting::firings(before.rules@);
    let i = choose|i: int| 0 <= i < a.len() && a[i] == x;
    assert(counting::firings(after.rules@)[i] == x);
}

proof fn lemma_all_in_prefix<T>(list: Seq<T>, a: Seq<T>, b: Seq<T>)
    requires
        counting::all_in(list, a),
        a.is_prefix_of(b),
    ensures
        counting::all_in(list, b),
{
    assert forall|i: int| 0 <= i < list.len() implies b.contains(#[trigger] list[i]) by {
        assert(a.contains(list[i]));
        let k = choose|k: int| 0 <= k < a.len() && a[k] == list[i];
        assert(b[k] == list[i]);
    }
}

/// Whether the transition of two rules has been found, if they fit and its children are
/// among the given pairs.
spec fn reached<S: AutomatonState>(
    work: &Intersecting<S>,
    left: Seq<RuleModel>,
    right: Seq<RightModel<S>>,
    base: Seq<(StateId, S)>,
    i: int,
    j: int,
) -> bool {
    counting::fits(left, right, i, j, left[i].symbol) && counting::all_in(
        counting::made(left, right, i, j).children,
        base,
    ) ==> counting::firings(work.rules@).contains(counting::made(left, right, i, j))
}

/// Whether the transition of two rules that have the pair as child `q` has been found.
spec fn tried_at<S: AutomatonState>(
    work: &Intersecting<S>,
    left: Seq<RuleModel>,
    right: Seq<RightModel<S>>,
    base: Seq<(StateId, S)>,
    i: int,
    q: int,
    j: int,
    left_state: StateId,
    right_state: S,
) -> bool {
    0 <= j < right.len() && 0 <= q < left[i].children.len() && left[i].children[q] == left_state
        && right[j].symbols.contains(left[i].symbol) && q < right[j].children.len()
        && right[j].children[q] == right_state ==> reached(work, left, right, base, i, j)
}

proof fn lemma_reached_grew<S: AutomatonState>(
    before: &Intersecting<S>,
    after: &Intersecting<S>,
    left: Seq<RuleModel>,
    right: Seq<RightModel<S>>,
    base: Seq<(StateId, S)>,
    i: int,
    j: int,
)
    requires
        grew(before, after),
    ensures
        reached(before, left, right, base, i, j) ==> reached(after, left, right, base, i, j),
{
    let x = counting::made(left, right, i, j);
    if counting::firings(before.rules@).contains(x) {
        lemma_grew_contains(before, after, x);
    }
}

/// Tries two rules that have the pair in question as a child.
fn try_rules<S: AutomatonState>(
    work: &mut Intersecting<S>,
    left: &Explicit,
    rights: &Vec<CondensedRule<S>>,
    i: usize,
    j: usize,
)
    requires
        old(work).ok(left@.rules, right_models(rights@)),
        i < left@.rules.len(),
        j < rights@.len(),
        rights@[j as int].symbols@.contains(left@.rules[i as int].symbol),
    ensures
        final(work).ok(left@.rules, right_models(rights@)),
        grew(&*old(work), &*final(work)),
        counting::fits(
            left@.rules,
            right_models(rights@),
            i as int,
            j as int,
            left@.rules[i as int].symbol,
        ) && counting::all_in(
            counting::made(left@.rules, right_models(rights@), i as int, j as int).children,
            old(work).pairs.list(),
        ) ==> counting::firings(final(work).rules@).contains(
            counting::made(left@.rules, right_models(rights@), i as int, j as int),
        ),
{
    let ghost l = left@.rules;
    let ghost r = right_models(rights@);
    let rule = left.rule(i);
    let other = &rights[j];
    assert(r[j as int].children == other.children@);
    if rule.children.len() != other.children.len() {
        return;
    }
    assert(counting::fits(l, r, i as int, j as int, rule.symbol));
    let known = work.known_children(rule.children, &other.children);
    if let Some(children) = known {
        proof {
            counting::lemma_made(l, r, i as int, j as int, rule.symbol);
        }
        let result = (rule.result, other.result.duplicate());
        let _ = work.fire(rule.symbol, children, result, Ghost(l), Ghost(r));
    }
}

/// Tries all rules that have the pair at place `p` as a child.
fn follow<S: AutomatonState, X: RightLookup<S>>(
    work: &mut Intersecting<S>,
    left: &Explicit,
    index: &LeftIndex,
    rights: &Vec<CondensedRule<S>>,
    lookup: &X,
    p: usize,
)
    requires
        old(work).ok(left@.rules, right_models(rights@)),
        index.ok(left@.rules),
        lookup.is_for(right_models(rights@)),
        p < old(work).pairs.list().len(),
        agenda_done(&*old(work), left@.rules, right_models(rights@), p as int),
    ensures
        final(work).ok(left@.rules, right_models(rights@)),
        grew(&*old(work), &*final(work)),
        agenda_done(&*final(work), left@.rules, right_models(rights@), p + 1),
{
    let ghost l = left@.rules;
    let ghost r = right_models(rights@);
    let ghost start = *work;
    let ghost base = start.pairs.list().take(p + 1);
    let (left_state, right_state) = {
        let pair = work.pairs.get(p);
        (pair.0, pair.1.duplicate())
    };
    let ghost pair = (left_state, right_state);
    let key: Vec<u32> = vec![left_state.0];
    assert(key@ =~= number_key(left_state.0));
    let listed = index.by_state.get(key.as_slice());
    let n: usize = left.num_rules();
    let mut o: usize = 0;
    while o < listed.len()
        invariant
            o <= listed@.len(),
            l == left@.rules,
            r == right_models(rights@),
            listed@ == index.by_state.at(number_key(left_state.0)),
            index.ok(l),
            lookup.is_for(r),
            work.ok(l, r),
            grew(&start, &*work),
            start == *old(work),
            base == start.pairs.list().take(p + 1),
            p < start.pairs.list().len(),
            forall|u: int, q: int, j: int|
                0 <= u < o ==> #[trigger] tried_at(
                    &*work,
                    l,
                    r,
                    base,
                    listed@[u] as int,
                    q,
                    j,
                    left_state,
                    right_state,
                ),
        decreases listed@.len() - o,
    {
        let i: usize = listed[o];
        assert(index.by_state.at(number_key(left_state.0)).contains(listed@[o as int]));
        assert(i < l.len());
        let rule = left.rule(i);
        let ghost at_rule = *work;
        let mut position: usize = 0;
        while position < rule.children.len()
            invariant
                position <= rule.children@.len(),
                o < listed@.len(),
                i == listed@[o as int],
                i < l.len(),
                rule@ == l[i as int],
                l == left@.rules,
                r == right_models(rights@),
                lookup.is_for(r),
                work.ok(l, r),
                grew(&start, &*work),
                grew(&at_rule, &*work),
                base == start.pairs.list().take(p + 1),
                p < start.pairs.list().len(),
                forall|q: int, j: int|
                    0 <= q < position ==> #[trigger] tried_at(
                        &*work,
                        l,
                        r,
                        base,
                        i as int,
                        q,
                        j,
                        left_state,
                        right_state,
                    ),
            decreases rule.children@.len() - position,
        {
            let ghost at_position = *work;
            if rule.children[position].0 == left_state.0 {
                let found = lookup.find(rule.symbol, position, &right_state, Ghost(r));
                let mut k: usize = 0;
                while k < found.len()
                    invariant
                        k <= found@.len(),
                        position < rule.children@.len(),
                        i < l.len(),
                        rule@ == l[i as int],
                        l == left@.rules,
                        r == right_models(rights@),
                        work.ok(l, r),
                        grew(&start, &*work),
                        grew(&at_rule, &*work),
                        grew(&at_position, &*work),
                        base == start.pairs.list().take(p + 1),
                        p < start.pairs.list().len(),
                        forall|j: usize| #[trigger]
                            found@.contains(j) ==> j < r.len() && r[j as int].symbols.contains(
                                rule.symbol,
                            ),
                        forall|u: int|
                            0 <= u < k ==> reached(
                                &*work,
                                l,
                                r,
                                base,
                                i as int,
                                #[trigger] found@[u] as int,
                            ),
                    decreases found@.len() - k,
                {
                    let j: usize = found[k];
                    assert(found@.contains(found@[k as int]));
                    let ghost before = *work;
                    try_rules(work, left, rights, i, j);
                    proof {
                        assert(base.is_prefix_of(before.pairs.list())) by {
                            assert forall|z: int| 0 <= z < base.len() implies base[z]
                                == before.pairs.list()[z] by {
                                assert(start.pairs.list()[z] == before.pairs.list()[z]);
                            }
                        }
                        let x = counting::made(l, r, i as int, j as int);
                        if counting::all_in(x.children, base) {
                            lemma_all_in_prefix(x.children, base, before.pairs.list());
                        }
                        assert(reached(&*work, l, r, base, i as int, j as int));
                        assert forall|u: int| 0 <= u < k + 1 implies reached(
                            &*work,
                            l,
                            r,
                            base,
                            i as int,
                            #[trigger] found@[u] as int,
                        ) by {
                            if u < k {
                                lemma_reached_grew(
                                    &before,
                                    &*work,
                                    l,
                                    r,
                                    base,
                                    i as int,
                                    found@[u] as int,
                                );
                            }
                        }
                    }
                    k += 1;
                }
                proof {
                    assert forall|j: int| #[trigger]
                        tried_at(
                            &*work,
                            l,
                            r,
                            base,
                            i as int,
                            position as int,
                            j,
                            left_state,
                            right_state,
                        ) by {
                        if 0 <= j < r.len() && r[j].symbols.contains(l[i as int].symbol) && position
                            < r[j].children.len() && r[j].children[position as int] == right_state {
                            let n: usize = rights.len();
                            assert(found@.contains(j as usize));
                            let u = choose|u: int| 0 <= u < found@.len() && found@[u] == j as usize;
                            assert(reached(&*work, l, r, base, i as int, found@[u] as int));
                        }
                    }
                }
            }
            proof {
                assert forall|q: int, j: int| 0 <= q < position + 1 implies #[trigger] tried_at(
                    &*work,
                    l,
                    r,
                    base,
                    i as int,
                    q,
                    j,
                    left_state,
                    right_state,
                ) by {
                    if q < position {
                        assert(tried_at(
                            &at_position,
                            l,
                            r,
                            base,
                            i as int,
                            q,
                            j,
                            left_state,
                            right_state,
                        ));
                        lemma_reached_grew(&at_position, &*work, l, r, base, i as int, j);
                    }
                }
            }
            position += 1;
        }
        proof {
            assert forall|u: int, q: int, j: int| 0 <= u < o + 1 implies #[trigger] tried_at(
                &*work,
                l,
                r,
                base,
                listed@[u] as int,
                q,
                j,
                left_state,
                right_state,
            ) by {
                if u < o {
                    assert(tried_at(
                        &at_rule,
                        l,
                        r,
                        base,
                        listed@[u] as int,
                        q,
                        j,
                        left_state,
                        right_state,
                    ));
                    lemma_reached_grew(&at_rule, &*work, l, r, base, listed@[u] as int, j);
                }
            }
        }
        o += 1;
    }
    proof {
        assert(work.pairs.list().take(p + 1) =~= base);
        assert forall|i: int, j: int, f: Symbol| #[trigger]
            counting::fits(l, r, i, j, f) && counting::all_in(
                counting::made(l, r, i, j).children,
                base,
            ) implies counting::firings(work.rules@).contains(counting::made(l, r, i, j)) by {
            let x = counting::made(l, r, i, j);
            let front = start.pairs.list().take(p as int);
            if counting::all_in(x.children, front) {
                assert(counting::firings(start.rules@).contains(x));
                lemma_grew_contains(&start, &*work, x);
            } else {
                let q = choose|q: int|
                    0 <= q < x.children.len() && !front.contains(#[trigger] x.children[q]);
                assert(base.contains(x.children[q]));
                let z = choose|z: int| 0 <= z < base.len() && base[z] == x.children[q];
                if z < p {
                    assert(front[z] == x.children[q]);
                }
                assert(x.children[q] == pair);
                assert(l[i].children[q] == left_state);
                assert(has_state(l, i, l[i].children.len() as int, left_state));
                assert(index.by_state.at(number_key(left_state.0)).contains(i as usize));
                let u = choose|u: int| 0 <= u < listed@.len() && listed@[u] == i as usize;
                assert(r[j].children[q] == right_state);
                assert(tried_at(
                    &*work,
                    l,
                    r,
                    base,
                    listed@[u] as int,
                    q,
                    j,
                    left_state,
                    right_state,
                ));
            }
        }
    }
}

/// Finds the transitions of childless rules.
fn start_agenda<S: AutomatonState>(
    left: &Explicit,
    index: &LeftIndex,
    rights: &Vec<CondensedRule<S>>,
) -> (work: Intersecting<S>)
    requires
        index.ok(left@.rules),
    ensures
        work.ok(left@.rules, right_models(rights@)),
        agenda_done(&work, left@.rules, right_models(rights@), 0),
{
    let ghost l = left@.rules;
    let ghost r = right_models(rights@);
    let mut work: Intersecting<S> = Intersecting::new(Ghost(l), Ghost(r));
    let n: usize = left.num_rules();
    let mut j: usize = 0;
    while j < rights.len()
        invariant
            j <= rights@.len(),
            n == left@.rules.len(),
            l == left@.rules,
            r == right_models(rights@),
            index.ok(l),
            work.ok(l, r),
            forall|i: int, b: int|
                0 <= b < j && r[b].children.len() == 0 ==> #[trigger] reached(
                    &work,
                    l,
                    r,
                    Seq::empty(),
                    i,
                    b,
                ),
        decreases rights@.len() - j,
    {
        let other = &rights[j];
        let ghost at_rule = work;
        assert(r[j as int].children == other.children@);
        if other.children.len() == 0 {
            let symbols = other.symbols.as_slice();
            let mut s: usize = 0;
            while s < symbols.len()
                invariant
                    s <= symbols@.len(),
                    j < rights@.len(),
                    *other == rights@[j as int],
                    other.children@.len() == 0,
                    n == left@.rules.len(),
                    l == left@.rules,
                    r == right_models(rights@),
                    index.ok(l),
                    work.ok(l, r),
                    grew(&at_rule, &work),
                    forall|f: Symbol| #[trigger] symbols@.contains(f) <==> other.symbols@.contains(f),
                    forall|i: int, u: int|
                        0 <= u < s && 0 <= i < l.len() && l[i].symbol == symbols@[u]
                            ==> #[trigger] reached_by(&work, l, r, i, j as int, u),
                decreases symbols@.len() - s,
            {
                let f = symbols[s];
                assert(symbols@.contains(symbols@[s as int]));
                let ghost at_symbol = work;
                let key: Vec<u32> = vec![f.0];
                assert(key@ =~= number_key(f.0));
                let listed = index.nullary_by_symbol.get(key.as_slice());
                let mut o: usize = 0;
                while o < listed.len()
                    invariant
                        o <= listed@.len(),
                        j < rights@.len(),
                        l == left@.rules,
                        r == right_models(rights@),
                        rights@[j as int].symbols@.contains(f),
                        index.ok(l),
                        listed@ == index.nullary_by_symbol.at(number_key(f.0)),
                        work.ok(l, r),
                        grew(&at_rule, &work),
                        grew(&at_symbol, &work),
                        forall|u: int|
                            0 <= u < o ==> reached(
                                &work,
                                l,
                                r,
                                Seq::empty(),
                                #[trigger] listed@[u] as int,
                                j as int,
                            ),
                    decreases listed@.len() - o,
                {
                    let i: usize = listed[o];
                    assert(index.nullary_by_symbol.at(number_key(f.0)).contains(listed@[o as int]));
                    let ghost before = work;
                    try_rules(&mut work, left, rights, i, j);
                    proof {
                        let x = counting::made(l, r, i as int, j as int);
                        if counting::all_in(x.children, Seq::empty()) {
                            lemma_all_in_prefix(x.children, Seq::empty(), before.pairs.list());
                        }
                        assert(reached(&work, l, r, Seq::empty(), i as int, j as int));
                        assert forall|u: int| 0 <= u < o + 1 implies reached(
                            &work,
                            l,
                            r,
                            Seq::empty(),
                            #[trigger] listed@[u] as int,
                            j as int,
                        ) by {
                            if u < o {
                                lemma_reached_grew(
                                    &before,
                                    &work,
                                    l,
                                    r,
                                    Seq::empty(),
                                    listed@[u] as int,
                                    j as int,
                                );
                            }
                        }
                    }
                    o += 1;
                }
                proof {
                    assert forall|i: int, u: int|
                        0 <= u < s + 1 && 0 <= i < l.len() && l[i].symbol
                            == symbols@[u] implies #[trigger] reached_by(
                        &work,
                        l,
                        r,
                        i,
                        j as int,
                        u,
                    ) by {
                        if u < s {
                            assert(reached_by(&at_symbol, l, r, i, j as int, u));
                            lemma_reached_grew(
                                &at_symbol,
                                &work,
                                l,
                                r,
                                Seq::empty(),
                                i,
                                j as int,
                            );
                        } else if l[i].children.len() == 0 {
                            assert(index.nullary_by_symbol.at(number_key(f.0)).contains(
                                i as usize,
                            ));
                            let z = choose|z: int|
                                0 <= z < listed@.len() && listed@[z] == i as usize;
                            assert(reached(
                                &work,
                                l,
                                r,
                                Seq::empty(),
                                listed@[z] as int,
                                j as int,
                            ));
                        }
                    }
                }
                s += 1;
            }
            proof {
                assert forall|i: int| #[trigger]
                    reached(&work, l, r, Seq::empty(), i, j as int) by {
                    if counting::fits(l, r, i, j as int, l[i].symbol) {
                        assert(symbols@.contains(l[i].symbol));
                        let u = choose|u: int| 0 <= u < symbols@.len() && symbols@[u] == l[i].symbol;
                        assert(reached_by(&work, l, r, i, j as int, u));
                    }
                }
            }
        }
        proof {
            assert forall|i: int, b: int| 0 <= b < j + 1 && r[b].children.len() == 0 implies #[trigger] reached(
                &work,
                l,
                r,
                Seq::empty(),
                i,
                b,
            ) by {
                if b < j {
                    lemma_reached_grew(&at_rule, &work, l, r, Seq::empty(), i, b);
                }
            }
        }
        j += 1;
    }
    proof {
        assert(work.pairs.list().take(0) =~= Seq::<(StateId, S)>::empty());
        assert forall|i: int, j: int, f: Symbol| #[trigger]
            counting::fits(l, r, i, j, f) && counting::all_in(
                counting::made(l, r, i, j).children,
                Seq::empty(),
            ) implies counting::firings(work.rules@).contains(counting::made(l, r, i, j)) by {
            let x = counting::made(l, r, i, j);
            if x.children.len() > 0 {
                assert(Seq::<(StateId, S)>::empty().contains(x.children[0]));
            }
            assert(reached(&work, l, r, Seq::empty(), i, j));
        }
    }
    work
}

/// Whether two childless rules have been tried, the symbol being at place `u`.
spec fn reached_by<S: AutomatonState>(
    work: &Intersecting<S>,
    left: Seq<RuleModel>,
    right: Seq<RightModel<S>>,
    i: int,
    j: int,
    u: int,
) -> bool {
    reached(work, left, right, Seq::empty(), i, j)
}

/// Counts the states and rules of an intersection by following new pairs.
fn run_agenda<S: AutomatonState, X: RightLookup<S>>(
    left: &Explicit,
    rights: &Vec<CondensedRule<S>>,
    lookup: &X,
) -> (s: Summary)
    requires
        lookup.is_for(right_models(rights@)),
    ensures
        counting::counts(
            counting::left_rel(left@.rules),
            counting::right_rel(right_models(rights@)),
            s.states as nat,
            s.rules as nat,
        ),
        s.condensed_rules == rights@.len(),
{
    let ghost l = left@.rules;
    let ghost r = right_models(rights@);
    let ghost all = counting::result_grid(l, r);
    let index = LeftIndex::build(left);
    let mut work = start_agenda(left, &index, rights);
    let mut p: usize = 0;
    while p < work.pairs.len()
        invariant
            l == left@.rules,
            r == right_models(rights@),
            all == counting::result_grid(l, r),
            index.ok(l),
            lookup.is_for(r),
            work.ok(l, r),
            p <= work.pairs.list().len(),
            agenda_done(&work, l, r, p as int),
        decreases all.len() - p,
    {
        follow(&mut work, left, &index, rights, lookup, p);
        proof {
            lemma_pairs_within(&work, l, r);
        }
        p += 1;
    }
    proof {
        assert(work.pairs.list().take(p as int) =~= work.pairs.list());
        assert forall|i: int, j: int, f: Symbol| #[trigger]
            counting::fits(l, r, i, j, f) implies work.done(l, r, i, j) by {}
        counting::lemma_complete(&work, l, r);
    }
    Summary { states: work.pairs.len(), rules: work.rules.len(), condensed_rules: rights.len() }
}

/// Found pairs are results that rules can make.
proof fn lemma_pairs_within<S: AutomatonState>(
    work: &Intersecting<S>,
    left: Seq<RuleModel>,
    right: Seq<RightModel<S>>,
)
    requires
        work.ok(left, right),
    ensures
        work.pairs.list().len() <= counting::result_grid(left, right).len(),
{
    let list = work.pairs.list();
    assert forall|i: int| 0 <= i < list.len() implies counting::result_grid(left, right).contains(
        #[trigger] list[i],
    ) by {
        assert(list.contains(list[i]));
        counting::lemma_derivable_in_grid(left, right, list[i]);
    }
    pair_chart::lemma_distinct_within(list, counting::result_grid(left, right));
}

/// The key of a position and a state.
pub open spec fn place_key<S: AutomatonState>(position: usize, q: S) -> Seq<u32> {
    terms::number_word(position) + q.key()
}

proof fn lemma_place_key<S: AutomatonState>(p: usize, a: S, q: usize, b: S)
    requires
        place_key(p, a) == place_key(q, b),
    ensures
        p == q,
        a == b,
{
    assert(place_key(p, a).take(2) =~= terms::number_word(p));
    assert(place_key(q, b).take(2) =~= terms::number_word(q));
    terms::lemma_number_word(p, q);
    assert(place_key(p, a).skip(2) =~= a.key());
    assert(place_key(q, b).skip(2) =~= b.key());
    S::key_injective(a, b);
}

fn write_place_key<S: AutomatonState>(position: usize, q: &S) -> (k: Vec<u32>)
    ensures
        k@ == place_key(position, *q),
{
    let mut k: Vec<u32> = vec![
        (position as u64 / 0x1_0000_0000) as u32,
        (position as u64 % 0x1_0000_0000) as u32,
    ];
    assert(k@ =~= terms::number_word(position));
    let mut rest = q.to_key();
    k.append(&mut rest);
    k
}

/// Grouped rules by position and child.
struct RightIndex<'r, S> {
    rules: &'r Vec<CondensedRule<S>>,
    by_place: KeyIndex,
}

/// Whether the index lists, for every place and state, the first `n` rules that have the
/// state there, and rule `n` for its first `m` places.
spec fn by_place_ok<S: AutomatonState>(
    index: KeyIndex,
    right: Seq<RightModel<S>>,
    n: int,
    m: int,
) -> bool {
    forall|p: usize, q: S, j: usize| #[trigger]
        index.at(place_key(p, q)).contains(j) <==> (j < right.len() && p
            < right[j as int].children.len() && right[j as int].children[p as int] == q && (j < n
            || (j == n && p < m)))
}

impl<'r, S: AutomatonState> RightIndex<'r, S> {
    /// Indexes grouped rules.
    fn build(rules: &'r Vec<CondensedRule<S>>) -> (index: Self)
        ensures
            index.is_for(right_models(rules@)),
    {
        let ghost right = right_models(rules@);
        let mut by_place = KeyIndex::new();
        let mut j: usize = 0;
        while j < rules.len()
            invariant
                j <= rules@.len(),
                right == right_models(rules@),
                by_place.wf(),
                by_place_ok(by_place, right, j as int, 0),
            decreases rules@.len() - j,
        {
            let rule = &rules[j];
            let mut p: usize = 0;
            while p < rule.children.len()
                invariant
                    j < rules@.len(),
                    *rule == rules@[j as int],
                    p <= rule.children@.len(),
                    right == right_models(rules@),
                    by_place.wf(),
                    by_place_ok(by_place, right, j as int, p as int),
                decreases rule.children@.len() - p,
            {
                let key = write_place_key(p, &rule.children[p]);
                let ghost child = rule.children@[p as int];
                let ghost before = by_place;
                by_place.push(key, j);
                proof {
                    assert forall|a: usize, q: S, k: usize| #[trigger]
                        by_place.at(place_key(a, q)).contains(k) <==> (k < right.len() && a
                            < right[k as int].children.len() && right[k as int].children[a as int]
                            == q && (k < j || (k == j && a < p + 1))) by {
                        assert(before.at(place_key(a, q)).contains(k) <==> (k < right.len() && a
                            < right[k as int].children.len() && right[k as int].children[a as int]
                            == q && (k < j || (k == j && a < p))));
                        symbol_set::lemma_push_contains(before.at(place_key(a, q)), j, k);
                        if place_key(a, q) == place_key(p, child) {
                            lemma_place_key(a, q, p, child);
                        }
                    }
                }
                p += 1;
            }
            proof {
                assert forall|a: usize, q: S, k: usize| #[trigger]
                    by_place.at(place_key(a, q)).contains(k) <==> (k < right.len() && a
                        < right[k as int].children.len() && right[k as int].children[a as int] == q
                        && (k < j + 1 || (k == j + 1 && a < 0))) by {}
            }
            j += 1;
        }
        proof {
            assert(by_place_ok(by_place, right, right.len() as int, 0));
        }
        RightIndex { rules, by_place }
    }
}

impl<'r, S: AutomatonState> RightLookup<S> for RightIndex<'r, S> {
    closed spec fn is_for(&self, right: Seq<RightModel<S>>) -> bool {
        &&& right == right_models(self.rules@)
        &&& self.by_place.wf()
        &&& by_place_ok(self.by_place, right, right.len() as int, 0)
    }

    fn find(&self, f: Symbol, position: usize, state: &S, Ghost(right): Ghost<Seq<RightModel<S>>>) -> (r: Vec<
        usize,
    >) {
        let key = write_place_key(position, state);
        let listed = self.by_place.get(key.as_slice());
        let mut r: Vec<usize> = Vec::new();
        let mut o: usize = 0;
        while o < listed.len()
            invariant
                o <= listed@.len(),
                right == right_models(self.rules@),
                by_place_ok(self.by_place, right, right.len() as int, 0),
                listed@ == self.by_place.at(place_key(position, *state)),
                forall|j: usize| #[trigger]
                    r@.contains(j) <==> (listed@.take(o as int).contains(j)
                        && right[j as int].symbols.contains(f)),
            decreases listed@.len() - o,
        {
            let j: usize = listed[o];
            assert(self.by_place.at(place_key(position, *state)).contains(listed@[o as int]));
            let ghost before = r@;
            let ghost prior = listed@.take(o as int);
            assert(listed@.take(o + 1) =~= prior.push(j));
            if self.rules[j].symbols.contains(f) {
                r.push(j);
                proof {
                    assert forall|k: usize| #[trigger] r@.contains(k) <==> (listed@.take(
                        o + 1,
                    ).contains(k) && right[k as int].symbols.contains(f)) by {
                        symbol_set::lemma_push_contains(before, j, k);
                        symbol_set::lemma_push_contains(prior, j, k);
                    }
                }
            } else {
                proof {
                    assert forall|k: usize| #[trigger] r@.contains(k) <==> (listed@.take(
                        o + 1,
                    ).contains(k) && right[k as int].symbols.contains(f)) by {
                        symbol_set::lemma_push_contains(prior, j, k);
                    }
                }
            }
            o += 1;
        }
        assert(listed@.take(o as int) =~= listed@);
        r
    }
}

/// The rules of an explicit automaton by symbol, position and child: its own index.
struct SiblingIndex<'r> {
    rules: &'r Explicit,
}

impl<'r> RightLookup<StateId> for SiblingIndex<'r> {
    closed spec fn is_for(&self, right: Seq<RightModel<StateId>>) -> bool {
        right == single_models(self.rules@.rules)
    }

    fn find(
        &self,
        f: Symbol,
        position: usize,
        state: &StateId,
        Ghost(right): Ghost<Seq<RightModel<StateId>>>,
    ) -> (r: Vec<usize>) {
        let list = self.rules.rules_with_child(f, position, *state);
        proof {
            assert forall|j: usize| #[trigger] list@.contains(j) <==> (j < right.len()
                && right[j as int].symbols.contains(f) && position
                < right[j as int].children.len() && right[j as int].children[position as int]
                == *state) by {
                automaton::lemma_rules_with_child(self.rules@.rules, f, position, *state, j);
                if j < right.len() {
                    assert(right[j as int].symbols.contains(f) <==> self.rules@.rules[j as int].symbol
                        == f);
                }
            }
        }
        list
    }
}

/// Counts the states and rules of an intersection by following new pairs, with the
/// rules on the right indexed by symbol, position and child.
pub fn intersect_sibling(left: &Explicit, right: &Explicit) -> (s: Summary)
    ensures
        counting::counts(
            counting::left_rel(left@.rules),
            counting::left_rel(right@.rules),
            s.states as nat,
            s.rules as nat,
        ),
{
    let rights = single_rules(right);
    let lookup = SiblingIndex { rules: right };
    proof {
        lemma_single_rel(right@.rules);
    }
    run_agenda(left, &rights, &lookup)
}

/// Counts the states and rules of an intersection with grouped rules by following new
/// pairs.
pub fn intersect_grouped<S: AutomatonState>(left: &Explicit, rights: &Vec<CondensedRule<S>>) -> (s:
    Summary)
    ensures
        counting::counts(
            counting::left_rel(left@.rules),
            counting::right_rel(right_models(rights@)),
            s.states as nat,
            s.rules as nat,
        ),
        s.condensed_rules == rights@.len(),
{
    let lookup = RightIndex::build(rights);
    run_agenda(left, rights, &lookup)
}

/// The transitions that an automaton lists.
pub open spec fn listed_rel<A: CondensedTa>(a: &A) -> counting::Rel<A::State> {
    |f: Symbol, c: Seq<A::State>, q: A::State| a.lists(f, c, q)
}

/// Counts the states and rules of the intersection with the transitions that an
/// automaton lists.
pub fn intersect_condensed<A: CondensedTa>(left: &Explicit, right: &A) -> (s: Summary)
    ensures
        counting::counts(
            counting::left_rel(left@.rules),
            listed_rel(right),
            s.states as nat,
            s.rules as nat,
        ),
{
    let rights = right.condensed_rules();
    proof {
        let a = counting::right_rel(right_models(rights@));
        let b = listed_rel(right);
        assert forall|f: Symbol, c: Seq<A::State>, q: A::State| #[trigger] a(f, c, q) == b(f, c, q) by {
            assert(traits::some_covers(rights@, f, c, q) <==> right.lists(f, c, q));
            if a(f, c, q) {
                let j = choose|j: int| #[trigger]
                    counting::stands_for(right_models(rights@), j, f, c, q);
                assert(traits::condensed_covers(rights@[j], f, c, q));
            }
            if traits::some_covers(rights@, f, c, q) {
                let j = choose|j: int|
                    0 <= j < rights@.len() && traits::condensed_covers(
                        #[trigger] rights@[j],
                        f,
                        c,
                        q,
                    );
                assert(counting::stands_for(right_models(rights@), j, f, c, q));
            }
        }
        assert(a =~= b);
    }
    intersect_grouped(left, &rights)
}

} // verus!
