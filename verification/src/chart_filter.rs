//! Restricting a chart by another automaton.
//!
//! The result is the chart of all pairs of a chart state and another state that some
//! tree reaches in both. Where only the chart has to accept, this filters: for a
//! filter whose states are the values of an algebra, exactly the derivations remain
//! whose interpretation has a value. Where both have to accept, this intersects.
use crate::apply::SymbolTree;
use crate::automaton;
use crate::automaton::RuleModel;
use crate::builder::ExplicitBuilder;
use crate::cartesian;
use crate::cartesian::cartesian;
use crate::combinators::product;
use crate::control::Stopper;
use crate::explicit::Explicit;
use crate::ids::{StateId, Symbol};
use crate::interner;
use crate::interner::Interner;
use crate::key_index;
use crate::key_index::{copy_states, make_transition_key};
use crate::pair_chart;
use crate::recognition;
use crate::tables::KeyTable;
use crate::traits::{AutomatonState, BottomUpTa, StateKey};
use vstd::prelude::*;

verus! {

/// Why a chart is not there.
#[derive(Clone, Copy, PartialEq, Eq, Structural, Debug)]
pub enum Halt {
    /// The stopper asked to stop.
    Cancelled,
    /// There are more states or rules than can be numbered.
    TooLarge,
}

/// A filtered chart and where its states come from.
#[derive(Debug)]
pub struct NonNullFilteredChart {
    /// The filtered automaton.
    pub automaton: Explicit,
    /// For each state, the chart state and the number of the filter state that it
    /// stands for. Filter states are numbered where they occur first.
    pub state_origins: Vec<(StateId, usize)>,
}

/// Whether the origins are the chart states of the pairs and the numbers of their
/// filter states.
pub open spec fn origins_ok<S>(
    origins: Seq<(StateId, usize)>,
    pairs: Seq<(StateId, S)>,
    values: Seq<S>,
) -> bool {
    &&& origins.len() == pairs.len()
    &&& values.no_duplicates()
    &&& forall|i: int|
        0 <= i < origins.len() ==> (#[trigger] origins[i]).0 == pairs[i].0 && origins[i].1
            < values.len() && values[origins[i].1 as int] == pairs[i].1
    &&& forall|k: int| 0 <= k < values.len() ==> #[trigger] occurs_first(origins, k)
}

/// Whether some state has filter state number `k`, and those before it have lower
/// numbers.
pub open spec fn occurs_first(origins: Seq<(StateId, usize)>, k: int) -> bool {
    exists|i: int|
        0 <= i < origins.len() && (#[trigger] origins[i]).1 == k && forall|j: int|
            0 <= j < i ==> (#[trigger] origins[j]).1 < k
}

/// Whether a filtered chart is the chart of the pairs of chart and filter states
/// that trees reach.
pub open spec fn is_filtered<A: BottomUpTa>(
    chart: &Explicit,
    filter: &A,
    both: bool,
    r: NonNullFilteredChart,
    pairs: Seq<(StateId, A::State)>,
    values: Seq<A::State>,
) -> bool {
    pair_chart::is_pair_chart(chart, filter, both, pairs, r.automaton@) && origins_ok(
        r.state_origins@,
        pairs,
        values,
    )
}

/// Whether a filtered chart is the chart of all pairs of chart and filter states that
/// trees reach, however the pairs are numbered.
pub open spec fn filtered<A: BottomUpTa>(
    chart: &Explicit,
    filter: &A,
    both: bool,
    r: NonNullFilteredChart,
) -> bool {
    exists|pairs: Seq<(StateId, A::State)>, values: Seq<A::State>| #[trigger]
        is_filtered(chart, filter, both, r, pairs, values)
}

proof fn lemma_filtered<A: BottomUpTa>(
    chart: &Explicit,
    filter: &A,
    both: bool,
    r: NonNullFilteredChart,
    pairs: Seq<(StateId, A::State)>,
    values: Seq<A::State>,
)
    requires
        is_filtered(chart, filter, both, r, pairs, values),
    ensures
        filtered(chart, filter, both, r),
{
}

/// A restricted chart accepts exactly the trees that the chart accepts and that get
/// some state in the other automaton, an accepting one where both have to accept.
pub proof fn law_restricted_chart_recognizes<A: BottomUpTa>(
    chart: &Explicit,
    filter: &A,
    both: bool,
    r: NonNullFilteredChart,
    t: SymbolTree,
)
    requires
        filtered(chart, filter, both, r),
        r.automaton@.well_formed(),
    ensures
        recognition::recognizes(&r.automaton, t) <==> (recognition::recognizes(chart, t)
            && exists|v: A::State| #[trigger]
            recognition::reaches(filter, t, v) && (both ==> filter.accepts(v))),
{
    let (pairs, values) = choose|
        pairs: Seq<(StateId, A::State)>,
        values: Seq<A::State>,
    | #[trigger]
        is_filtered(chart, filter, both, r, pairs, values);
    pair_chart::law_pair_chart_recognizes(chart, filter, both, pairs, &r.automaton, t);
}

/// Whether a reason for having no chart holds.
pub open spec fn halted<A: BottomUpTa, T: Stopper>(
    chart: &Explicit,
    filter: &A,
    stop: &T,
    h: Halt,
) -> bool {
    match h {
        Halt::Cancelled => stop.may_stop(),
        Halt::TooLarge => !pair_chart::bounded(chart, filter),
    }
}

/// How many states or rules can be numbered.
const LIMIT: usize = 0xffff_ffff;

/// The pairs found so far and the rules between them.
struct Filtering<S: AutomatonState> {
    both: bool,
    pairs: Interner<(StateId, S)>,
    values: Interner<S>,
    origins: Vec<(StateId, usize)>,
    variants: Vec<Vec<StateId>>,
    seen: KeyTable,
    builder: ExplicitBuilder,
}

/// Whether the variants of a chart state are the pairs that have it.
spec fn variants_ok<S>(variants: Seq<Vec<StateId>>, pairs: Seq<(StateId, S)>) -> bool {
    forall|s: int, id: StateId|
        0 <= s < variants.len() ==> (#[trigger] variants[s]@.contains(id) <==> (id.0 < pairs.len()
            && pairs[id.0 as int].0.0 == s))
}

/// Whether the table holds the keys of the rules.
spec fn seen_ok(seen: Map<Seq<u32>, usize>, rules: Seq<RuleModel>) -> bool {
    forall|f: Symbol, ids: Seq<StateId>, q: StateId|
        seen.dom().contains(#[trigger] key_index::transition_key(f, ids, q))
            <==> automaton::has_transition(rules, f, ids, q)
}

spec fn accepting_ok<A: BottomUpTa>(
    chart: &Explicit,
    filter: &A,
    both: bool,
    pairs: Seq<(StateId, A::State)>,
    accepting: Set<StateId>,
) -> bool {
    forall|id: StateId| #[trigger]
        accepting.contains(id) <==> (id.0 < pairs.len() && pair_chart::pair_accepts(
            chart,
            filter,
            both,
            pairs[id.0 as int],
        ))
}

impl<S: AutomatonState> Filtering<S> {
    spec fn ok<A: BottomUpTa<State = S>>(&self, chart: &Explicit, filter: &A) -> bool {
        let pairs = self.pairs@;
        &&& pairs.len() <= u32::MAX
        &&& pairs.no_duplicates()
        &&& pair_chart::all_common(chart, filter, pairs)
        &&& origins_ok(self.origins@, pairs, self.values@)
        &&& self.variants@.len() == chart@.states
        &&& variants_ok(self.variants@, pairs)
        &&& self.builder@.states == pairs.len()
        &&& accepting_ok(chart, filter, self.both, pairs, self.builder@.accepting)
        &&& pair_chart::sound_rules(chart, filter, pairs, self.builder@.rules)
        &&& automaton::unique_transitions(self.builder@.rules)
        &&& self.builder@.rules.len() <= u32::MAX
        &&& seen_ok(self.seen@, self.builder@.rules)
    }

    /// Whether this has everything that `other` has.
    spec fn extends(&self, other: &Self) -> bool {
        other.both == self.both && other.pairs@.is_prefix_of(self.pairs@) && other.builder@.rules.is_prefix_of(
            self.builder@.rules,
        )
    }
}

proof fn lemma_known<T: AutomatonState>(list: Seq<T>, x: T)
    ensures
        interner::known(list, x.key()) <==> list.contains(x),
{
    if interner::known(list, x.key()) {
        let i = choose|i: int| #[trigger] interner::keyed(list, i, x.key());
        T::key_injective(list[i], x);
    }
    if list.contains(x) {
        let i = choose|i: int| 0 <= i < list.len() && list[i] == x;
        assert(interner::keyed(list, i, x.key()));
    }
}

/// Pairs keep their meaning when more are numbered.
proof fn lemma_pick_prefix<T>(a: Seq<T>, b: Seq<T>, ids: Seq<StateId>)
    requires
        a.is_prefix_of(b),
        pair_chart::below(ids, a.len()),
    ensures
        pair_chart::below(ids, b.len()),
        pair_chart::pick(a, ids) == pair_chart::pick(b, ids),
{
    assert forall|i: int| 0 <= i < ids.len() implies a[ids[i].0 as int] == b[ids[i].0 as int] by {
        assert(ids[i].0 < a.len());
    }
    assert(pair_chart::pick(a, ids) =~= pair_chart::pick(b, ids));
}

proof fn lemma_sound_prefix<A: BottomUpTa>(
    chart: &Explicit,
    filter: &A,
    a: Seq<(StateId, A::State)>,
    b: Seq<(StateId, A::State)>,
    rules: Seq<RuleModel>,
)
    requires
        a.is_prefix_of(b),
        pair_chart::sound_rules(chart, filter, a, rules),
    ensures
        pair_chart::sound_rules(chart, filter, b, rules),
{
    assert forall|k: int| 0 <= k < rules.len() implies pair_chart::sound_rule(
        chart,
        filter,
        b,
        #[trigger] rules[k],
    ) by {
        let rule = rules[k];
        assert(pair_chart::sound_rule(chart, filter, a, rule));
        lemma_pick_prefix(a, b, rule.children);
        let i = choose|i: int| #[trigger] pair_chart::drawn_from(chart@.rules, a, rule, i);
        assert(pair_chart::drawn_from(chart@.rules, b, rule, i));
    }
}

proof fn lemma_has_transition_prefix(
    a: Seq<RuleModel>,
    b: Seq<RuleModel>,
    f: Symbol,
    ids: Seq<StateId>,
    q: StateId,
)
    requires
        a.is_prefix_of(b),
        automaton::has_transition(a, f, ids, q),
    ensures
        automaton::has_transition(b, f, ids, q),
{
    let i = choose|i: int|
        0 <= i < a.len() && automaton::applies(#[trigger] a[i], f, ids) && a[i].result == q;
    assert(b[i] == a[i]);
}

proof fn lemma_emitted_prefix<S>(
    pairs: Seq<(StateId, S)>,
    a: Seq<RuleModel>,
    b: Seq<RuleModel>,
    f: Symbol,
    ids: Seq<StateId>,
    q: (StateId, S),
)
    requires
        a.is_prefix_of(b),
        pair_chart::emitted(pairs, a, f, ids, q),
    ensures
        pair_chart::emitted(pairs, b, f, ids, q),
{
    let id = choose|id: StateId|
        id.0 < pairs.len() && pairs[id.0 as int] == q && #[trigger] automaton::has_transition(
            a,
            f,
            ids,
            id,
        );
    lemma_has_transition_prefix(a, b, f, ids, id);
}

impl<S: AutomatonState> Filtering<S> {
    /// The number of a pair, which is given one when it is new.
    fn number<A: BottomUpTa<State = S>>(
        &mut self,
        chart: &Explicit,
        filter: &A,
        left: StateId,
        value: S,
    ) -> (r: Result<StateId, Halt>)
        requires
            old(self).ok(chart, filter),
            left.0 < chart@.states,
            pair_chart::common(chart, filter, (left, value)),
        ensures
            final(self).ok(chart, filter),
            final(self).extends(old(self)),
            final(self).builder@.rules == old(self).builder@.rules,
            match r {
                Ok(id) => id.0 < final(self).pairs@.len() && final(self).pairs@[id.0 as int] == (
                    left,
                    value,
                ),
                Err(h) => h == Halt::TooLarge && !pair_chart::bounded(chart, filter),
            },
    {
        let ghost before = self.pairs@;
        let ghost pair = (left, value);
        let copy = value.duplicate();
        let last = value.duplicate();
        let key_pair = (left, value.duplicate());
        proof {
            lemma_known(before, pair);
        }
        let found: Option<StateId> = self.pairs.get(&key_pair);
        if let Some(id) = found {
            proof {
                <(StateId, S)>::key_injective(before[id.0 as int], pair);
            }
            return Ok(id);
        }
        proof {
            let now = before.push(pair);
            assert forall|i: int| 0 <= i < now.len() implies pair_chart::common(
                chart,
                filter,
                #[trigger] now[i],
            ) by {
                if i < before.len() {
                    assert(pair_chart::common(chart, filter, before[i]));
                }
            }
            assert(!before.contains(pair));
            assert(now.no_duplicates()) by {
                assert forall|i: int, j: int| 0 <= i < j < now.len() implies now[i] != now[j] by {
                    if j == before.len() {
                        assert(before.contains(before[i]));
                    }
                }
            }
            if pair_chart::bounded(chart, filter) {
                let list = choose|list: Seq<pair_chart::Firing<S>>| #[trigger]
                    pair_chart::covers(chart, filter, list) && list.len() < u32::MAX;
                pair_chart::lemma_pairs_bounded(chart, filter, list, now);
            }
        }
        if self.pairs.len() >= LIMIT {
            return Err(Halt::TooLarge);
        }
        let ghost values = self.values@;
        proof {
            lemma_known(values, value);
            if !values.contains(value) {
                lemma_values_bounded(self.origins@, before, values);
            }
        }
        let value_id: StateId = self.values.intern(copy);
        let id: StateId = self.pairs.intern(key_pair);
        let q: StateId = self.builder.new_state();
        if chart.is_accepting(&left) && (!self.both || filter.is_accepting(&last)) {
            self.builder.add_accepting(q);
        }
        let ghost origins = self.origins@;
        let ghost variants = self.variants@;
        self.origins.push((left, value_id.index()));
        self.variants[left.index()].push(id);
        proof {
            let now = self.pairs@;
            assert(now == before.push(pair));
            assert(before.is_prefix_of(now));
            lemma_sound_prefix(chart, filter, before, now, self.builder@.rules);
            if values.contains(value) {
                S::key_injective(values[value_id.0 as int], value);
            }
            lemma_origins_push(origins, before, values, self.values@, pair, value_id.0 as usize);
            lemma_variants_push(variants, self.variants@, before, pair, id);
        }
        Ok(id)
    }
}

/// There are no more filter states than pairs.
proof fn lemma_values_bounded<S>(
    origins: Seq<(StateId, usize)>,
    pairs: Seq<(StateId, S)>,
    values: Seq<S>,
)
    requires
        origins_ok(origins, pairs, values),
    ensures
        values.len() <= pairs.len(),
{
    let seconds = product::seconds(pairs);
    assert forall|k: int| 0 <= k < values.len() implies seconds.contains(#[trigger] values[k]) by {
        assert(occurs_first(origins, k));
        let i = choose|i: int|
            0 <= i < origins.len() && (#[trigger] origins[i]).1 == k && forall|j: int|
                0 <= j < i ==> (#[trigger] origins[j]).1 < k;
        assert(seconds[i] == values[k]);
    }
    pair_chart::lemma_distinct_within(values, seconds);
}

proof fn lemma_origins_push<S>(
    origins: Seq<(StateId, usize)>,
    pairs: Seq<(StateId, S)>,
    values: Seq<S>,
    now: Seq<S>,
    pair: (StateId, S),
    k: usize,
)
    requires
        origins_ok(origins, pairs, values),
        now == values || (now == values.push(pair.1) && !values.contains(pair.1) && k
            == values.len()),
        k < now.len(),
        now[k as int] == pair.1,
    ensures
        origins_ok(origins.push((pair.0, k)), pairs.push(pair), now),
{
    let all = origins.push((pair.0, k));
    assert(now.no_duplicates()) by {
        if now != values {
            assert forall|i: int, j: int| 0 <= i < j < now.len() implies now[i] != now[j] by {
                if j == values.len() {
                    assert(values.contains(values[i]));
                }
            }
        }
    }
    assert forall|i: int| 0 <= i < all.len() implies (#[trigger] all[i]).0 == pairs.push(pair)[i].0
        && all[i].1 < now.len() && now[all[i].1 as int] == pairs.push(pair)[i].1 by {
        if i < origins.len() {
            assert(origins[i].0 == pairs[i].0 && origins[i].1 < values.len()
                && values[origins[i].1 as int] == pairs[i].1);
        }
    }
    assert forall|v: int| 0 <= v < now.len() implies #[trigger] occurs_first(all, v) by {
        if v < values.len() {
            assert(occurs_first(origins, v));
            let i = choose|i: int|
                0 <= i < origins.len() && (#[trigger] origins[i]).1 == v && forall|j: int|
                    0 <= j < i ==> (#[trigger] origins[j]).1 < v;
            assert(all[i].1 == v);
            assert forall|j: int| 0 <= j < i implies (#[trigger] all[j]).1 < v by {
                assert(origins[j].1 < v);
            }
        } else {
            assert(all[origins.len() as int].1 == v);
            assert forall|j: int| 0 <= j < origins.len() implies (#[trigger] all[j]).1 < v by {
                assert(origins[j].1 < values.len());
            }
        }
    }
}

proof fn lemma_variants_push<S>(
    before: Seq<Vec<StateId>>,
    after: Seq<Vec<StateId>>,
    pairs: Seq<(StateId, S)>,
    pair: (StateId, S),
    id: StateId,
)
    requires
        variants_ok(before, pairs),
        pair.0.0 < before.len(),
        id.0 == pairs.len(),
        after.len() == before.len(),
        forall|s: int| 0 <= s < before.len() && s != pair.0.0 ==> after[s] == before[s],
        after[pair.0.0 as int]@ == before[pair.0.0 as int]@.push(id),
    ensures
        variants_ok(after, pairs.push(pair)),
{
    let now = pairs.push(pair);
    assert forall|s: int, x: StateId| 0 <= s < after.len() implies (#[trigger] after[s]@.contains(x)
        <==> (x.0 < now.len() && now[x.0 as int].0.0 == s)) by {
        crate::symbol_set::lemma_push_contains(before[pair.0.0 as int]@, id, x);
        assert(before[s]@.contains(x) <==> (x.0 < pairs.len() && pairs[x.0 as int].0.0 == s));
        assert(x == id <==> x.0 == pairs.len());
    }
}

impl<S: AutomatonState> Filtering<S> {
    /// Adds a rule unless it is there already.
    fn emit<A: BottomUpTa<State = S>>(
        &mut self,
        chart: &Explicit,
        filter: &A,
        i: usize,
        ids: &Vec<StateId>,
        parent: StateId,
    ) -> (r: Result<(), Halt>)
        requires
            old(self).ok(chart, filter),
            i < chart@.rules.len(),
            parent.0 < old(self).pairs@.len(),
            pair_chart::below(ids@, old(self).pairs@.len()),
            product::firsts(pair_chart::pick(old(self).pairs@, ids@))
                == chart@.rules[i as int].children,
            old(self).pairs@[parent.0 as int].0 == chart@.rules[i as int].result,
            filter.steps_to(
                chart@.rules[i as int].symbol,
                product::seconds(pair_chart::pick(old(self).pairs@, ids@)),
                old(self).pairs@[parent.0 as int].1,
            ),
        ensures
            final(self).ok(chart, filter),
            final(self).extends(old(self)),
            final(self).pairs@ == old(self).pairs@,
            match r {
                Ok(()) => automaton::has_transition(
                    final(self).builder@.rules,
                    chart@.rules[i as int].symbol,
                    ids@,
                    parent,
                ),
                Err(h) => h == Halt::TooLarge && !pair_chart::bounded(chart, filter),
            },
    {
        let rule = chart.rule(i);
        let symbol = rule.symbol;
        let weight = rule.weight;
        let key = make_transition_key(symbol, ids.as_slice(), parent);
        let ghost rules = self.builder@.rules;
        if self.seen.get(key.as_slice()).is_some() {
            return Ok(());
        }
        if self.builder.num_rules() >= LIMIT {
            proof {
                if pair_chart::bounded(chart, filter) {
                    let list = choose|list: Seq<pair_chart::Firing<S>>| #[trigger]
                        pair_chart::covers(chart, filter, list) && list.len() < u32::MAX;
                    pair_chart::lemma_rules_bounded(chart, filter, list, self.pairs@, rules);
                }
            }
            return Err(Halt::TooLarge);
        }
        let ghost table = self.seen@;
        self.seen.insert(key, 0);
        self.builder.add_weighted_rule(symbol, copy_states(ids.as_slice()), parent, weight);
        proof {
            let model = RuleModel { symbol, children: ids@, result: parent, weight };
            let now = self.builder@.rules;
            assert(now == rules.push(model));
            assert(pair_chart::drawn_from(chart@.rules, self.pairs@, model, i as int));
            assert(pair_chart::sound_rule(chart, filter, self.pairs@, model));
            assert(automaton::applies(now[rules.len() as int], symbol, ids@));
            lemma_unique_push(rules, model);
            assert forall|f: Symbol, c: Seq<StateId>, q: StateId|
                self.seen@.dom().contains(#[trigger] key_index::transition_key(f, c, q))
                    <==> automaton::has_transition(now, f, c, q) by {
                assert(table.dom().contains(key_index::transition_key(f, c, q))
                    <==> automaton::has_transition(rules, f, c, q));
                lemma_has_transition_push(rules, model, f, c, q);
                if key_index::transition_key(f, c, q) == key_index::transition_key(
                    symbol,
                    ids@,
                    parent,
                ) {
                    key_index::lemma_transition_key_injective(f, c, q, symbol, ids@, parent);
                }
            }
        }
        Ok(())
    }

    /// Applies one rule of the chart to the pairs found so far.
    fn apply<A: BottomUpTa<State = S>, T: Stopper>(
        &mut self,
        chart: &Explicit,
        filter: &A,
        i: usize,
        stop: &T,
    ) -> (r: Result<(), Halt>)
        requires
            old(self).ok(chart, filter),
            i < chart@.rules.len(),
        ensures
            final(self).ok(chart, filter),
            final(self).extends(old(self)),
            r matches Err(h) ==> halted(chart, filter, stop, h),
            r is Ok && final(self).pairs@.len() == old(self).pairs@.len() ==> pair_chart::applied(
                chart,
                filter,
                final(self).pairs@,
                final(self).builder@.rules,
                i as int,
            ),
    {
        let ghost start = self.pairs@;
        let rule = chart.rule(i);
        let ghost model = chart@.rules[i as int];
        proof {
            use_type_invariant(chart);
            chart.lemma_well_formed();
            pair_chart::lemma_rule_states(chart@, i as int);
        }
        let mut pools: Vec<Vec<StateId>> = Vec::new();
        let mut c: usize = 0;
        while c < rule.children.len()
            invariant
                c <= rule.children@.len(),
                rule.children@ == model.children,
                pair_chart::below(model.children, chart@.states),
                self.variants@.len() == chart@.states,
                pools@.len() == c,
                forall|j: int|
                    0 <= j < c ==> (#[trigger] pools@[j])@ == self.variants@[model.children[j].0 as int]@,
            decreases rule.children@.len() - c,
        {
            assert(model.children[c as int].0 < chart@.states);
            pools.push(copy_states(self.variants[rule.children[c].index()].as_slice()));
            c += 1;
        }
        let combinations = cartesian(&pools);
        let ghost all = cartesian::contents(pools@);
        proof {
            assert forall|j: int, id: StateId| 0 <= j < all.len() implies (
            #[trigger] all[j].contains(id) <==> (id.0 < start.len() && start[id.0 as int].0
                == model.children[j])) by {
                let s = model.children[j].0 as int;
                assert(model.children[j].0 < chart@.states);
                assert(self.variants@[s]@.contains(id) <==> (id.0 < start.len()
                    && start[id.0 as int].0.0 == s));
            }
        }
        let mut k: usize = 0;
        while k < combinations.len()
            invariant
                k <= combinations@.len(),
                self.ok(chart, filter),
                self.extends(old(self)),
                start == old(self).pairs@,
                start.is_prefix_of(self.pairs@),
                i < chart@.rules.len(),
                model == chart@.rules[i as int],
                rule@ == model,
                model.result.0 < chart@.states,
                cartesian::contents(combinations@) == cartesian::tuples(all),
                all.len() == model.children.len(),
                forall|j: int, id: StateId|
                    0 <= j < all.len() ==> (#[trigger] all[j].contains(id) <==> (id.0 < start.len()
                        && start[id.0 as int].0 == model.children[j])),
                self.pairs@.len() == start.len() ==> forall|j: int|
                    0 <= j < k ==> tried(
                        filter,
                        self.pairs@,
                        self.builder@.rules,
                        model,
                        (#[trigger] combinations@[j])@,
                    ),
            decreases combinations@.len() - k,
        {
            if stop.stop_now() {
                return Err(Halt::Cancelled);
            }
            let ids = &combinations[k];
            let ghost then_pairs = self.pairs@;
            let ghost then_rules = self.builder@.rules;
            proof {
                assert(cartesian::contents(combinations@)[k as int] == ids@);
                cartesian::lemma_tuples(all, ids@);
                assert(cartesian::draws(ids@, all));
                assert forall|j: int| 0 <= j < ids@.len() implies (#[trigger] ids@[j]).0
                    < start.len() && start[ids@[j].0 as int].0 == model.children[j] by {
                    assert(all[j].contains(ids@[j]));
                }
                assert(pair_chart::below(ids@, start.len()));
                lemma_pick_prefix(start, self.pairs@, ids@);
                assert(product::firsts(pair_chart::pick(self.pairs@, ids@)) =~= model.children);
            }
            match self.try_combination(chart, filter, i, ids) {
                Ok(()) => {},
                Err(h) => {
                    return Err(h);
                },
            }
            proof {
                if self.pairs@.len() == start.len() {
                    assert(self.pairs@ =~= then_pairs);
                    assert forall|j: int| 0 <= j < k + 1 implies tried(
                        filter,
                        self.pairs@,
                        self.builder@.rules,
                        model,
                        (#[trigger] combinations@[j])@,
                    ) by {
                        if j < k {
                            assert(tried(filter, then_pairs, then_rules, model, combinations@[j]@));
                            lemma_tried_prefix(
                                filter,
                                then_pairs,
                                then_rules,
                                self.builder@.rules,
                                model,
                                combinations@[j]@,
                            );
                        }
                    }
                }
            }
            k += 1;
        }
        proof {
            if self.pairs@.len() == start.len() {
                assert(self.pairs@ =~= start);
                let pairs = self.pairs@;
                let rules = self.builder@.rules;
                assert forall|ids: Seq<StateId>, v: S|
                    pair_chart::below(ids, pairs.len()) && product::firsts(
                        pair_chart::pick(pairs, ids),
                    ) == model.children && #[trigger] filter.steps_to(
                        model.symbol,
                        product::seconds(pair_chart::pick(pairs, ids)),
                        v,
                    ) implies pair_chart::emitted(
                    pairs,
                    rules,
                    model.symbol,
                    ids,
                    (model.result, v),
                ) by {
                    let picked = pair_chart::pick(pairs, ids);
                    assert(product::firsts(picked).len() == ids.len());
                    assert forall|j: int| 0 <= j < ids.len() implies all[j].contains(
                        #[trigger] ids[j],
                    ) by {
                        assert(ids[j].0 < pairs.len());
                        assert(product::firsts(picked)[j] == pairs[ids[j].0 as int].0);
                    }
                    cartesian::lemma_tuples(all, ids);
                    let j = choose|j: int|
                        0 <= j < cartesian::tuples(all).len() && cartesian::tuples(all)[j] == ids;
                    assert(cartesian::contents(combinations@)[j] == combinations@[j]@);
                    assert(tried(filter, pairs, rules, model, combinations@[j]@));
                }
            }
        }
        Ok(())
    }
}

/// Whether every transition of a rule over the given pairs is among the rules.
spec fn tried<A: BottomUpTa>(
    filter: &A,
    pairs: Seq<(StateId, A::State)>,
    rules: Seq<RuleModel>,
    model: RuleModel,
    ids: Seq<StateId>,
) -> bool {
    forall|v: A::State| #[trigger]
        filter.steps_to(model.symbol, product::seconds(pair_chart::pick(pairs, ids)), v)
            ==> pair_chart::emitted(pairs, rules, model.symbol, ids, (model.result, v))
}

proof fn lemma_tried_prefix<A: BottomUpTa>(
    filter: &A,
    pairs: Seq<(StateId, A::State)>,
    a: Seq<RuleModel>,
    b: Seq<RuleModel>,
    model: RuleModel,
    ids: Seq<StateId>,
)
    requires
        a.is_prefix_of(b),
        tried(filter, pairs, a, model, ids),
    ensures
        tried(filter, pairs, b, model, ids),
{
    assert forall|v: A::State| #[trigger]
        filter.steps_to(
            model.symbol,
            product::seconds(pair_chart::pick(pairs, ids)),
            v,
        ) implies pair_chart::emitted(pairs, b, model.symbol, ids, (model.result, v)) by {
        lemma_emitted_prefix(pairs, a, b, model.symbol, ids, (model.result, v));
    }
}

proof fn lemma_unique_push(rules: Seq<RuleModel>, model: RuleModel)
    requires
        automaton::unique_transitions(rules),
        !automaton::has_transition(rules, model.symbol, model.children, model.result),
    ensures
        automaton::unique_transitions(rules.push(model)),
{
    let now = rules.push(model);
    assert forall|i: int| 0 <= i < now.len() implies !#[trigger] automaton::repeats(now, i) by {
        if automaton::repeats(now, i) {
            let j = choose|j: int|
                0 <= j < i && automaton::same_transition(#[trigger] now[j], now[i]);
            assert(now[j] == rules[j]);
            if i < rules.len() {
                assert(automaton::same_transition(rules[j], rules[i]));
                assert(automaton::repeats(rules, i));
            } else {
                assert(automaton::applies(rules[j], model.symbol, model.children));
            }
        }
    }
}

proof fn lemma_has_transition_push(
    rules: Seq<RuleModel>,
    model: RuleModel,
    f: Symbol,
    c: Seq<StateId>,
    q: StateId,
)
    ensures
        automaton::has_transition(rules.push(model), f, c, q) <==> (automaton::has_transition(
            rules,
            f,
            c,
            q,
        ) || (model.symbol == f && model.children == c && model.result == q)),
{
    let now = rules.push(model);
    if automaton::has_transition(rules, f, c, q) {
        lemma_has_transition_prefix(rules, now, f, c, q);
    }
    if model.symbol == f && model.children == c && model.result == q {
        assert(automaton::applies(now[rules.len() as int], f, c));
    }
    if automaton::has_transition(now, f, c, q) {
        let i = choose|i: int|
            0 <= i < now.len() && automaton::applies(#[trigger] now[i], f, c) && now[i].result == q;
        if i < rules.len() {
            assert(automaton::applies(rules[i], f, c));
        }
    }
}

impl<S: AutomatonState> Filtering<S> {
    /// Adds the transitions of a rule of the chart over the given pairs.
    fn try_combination<A: BottomUpTa<State = S>>(
        &mut self,
        chart: &Explicit,
        filter: &A,
        i: usize,
        ids: &Vec<StateId>,
    ) -> (r: Result<(), Halt>)
        requires
            old(self).ok(chart, filter),
            i < chart@.rules.len(),
            chart@.rules[i as int].result.0 < chart@.states,
            pair_chart::below(ids@, old(self).pairs@.len()),
            product::firsts(pair_chart::pick(old(self).pairs@, ids@))
                == chart@.rules[i as int].children,
        ensures
            final(self).ok(chart, filter),
            final(self).extends(old(self)),
            r matches Err(h) ==> h == Halt::TooLarge && !pair_chart::bounded(chart, filter),
            r is Ok && final(self).pairs@.len() == old(self).pairs@.len() ==> tried(
                filter,
                final(self).pairs@,
                final(self).builder@.rules,
                chart@.rules[i as int],
                ids@,
            ),
    {
        let rule = chart.rule(i);
        let ghost model = chart@.rules[i as int];
        let ghost start = self.pairs@;
        let ghost picked = pair_chart::pick(start, ids@);
        let mut values: Vec<S> = Vec::new();
        let mut c: usize = 0;
        while c < ids.len()
            invariant
                c <= ids@.len(),
                self.pairs@ == start,
                pair_chart::below(ids@, start.len()),
                values@.len() == c,
                forall|j: int| 0 <= j < c ==> #[trigger] values@[j] == start[ids@[j].0 as int].1,
            decreases ids@.len() - c,
        {
            assert(ids@[c as int].0 < start.len());
            let pair = self.pairs.resolve(ids[c]);
            values.push(pair.1.duplicate());
            c += 1;
        }
        assert(values@ =~= product::seconds(picked));
        let results: Vec<S> = filter.step(rule.symbol, values.as_slice());
        let mut k: usize = 0;
        proof {
            assert forall|j: int| 0 <= j < results@.len() implies filter.steps_to(
                model.symbol,
                product::seconds(picked),
                #[trigger] results@[j],
            ) by {
                assert(results@.contains(results@[j]));
            }
        }
        while k < results.len()
            invariant
                k <= results@.len(),
                self.ok(chart, filter),
                self.extends(old(self)),
                start == old(self).pairs@,
                start.is_prefix_of(self.pairs@),
                i < chart@.rules.len(),
                model == chart@.rules[i as int],
                rule@ == model,
                model.result.0 < chart@.states,
                picked == pair_chart::pick(start, ids@),
                pair_chart::below(ids@, start.len()),
                product::firsts(picked) == model.children,
                forall|j: int|
                    0 <= j < results@.len() ==> filter.steps_to(
                        model.symbol,
                        product::seconds(picked),
                        #[trigger] results@[j],
                    ),
                self.pairs@.len() == start.len() ==> forall|j: int|
                    0 <= j < k ==> pair_chart::emitted(
                        self.pairs@,
                        self.builder@.rules,
                        model.symbol,
                        ids@,
                        (model.result, #[trigger] results@[j]),
                    ),
            decreases results@.len() - k,
        {
            let ghost q = (model.result, results@[k as int]);
            let ghost then_pairs = self.pairs@;
            let ghost then_rules = self.builder@.rules;
            proof {
                assert forall|j: int| 0 <= j < picked.len() implies pair_chart::common(
                    chart,
                    filter,
                    #[trigger] picked[j],
                ) by {
                    assert(ids@[j].0 < start.len());
                    assert(pair_chart::common(chart, filter, self.pairs@[ids@[j].0 as int]));
                }
                assert(automaton::applies(chart@.rules[i as int], model.symbol, model.children));
                assert(pair_chart::joins(chart, filter, model.symbol, picked, q));
                pair_chart::lemma_common_step(chart, filter, model.symbol, picked, q);
            }
            let value = results[k].duplicate();
            let parent: StateId = match self.number(chart, filter, rule.result, value) {
                Ok(parent) => parent,
                Err(h) => {
                    return Err(h);
                },
            };
            proof {
                lemma_pick_prefix(start, self.pairs@, ids@);
            }
            match self.emit(chart, filter, i, ids, parent) {
                Ok(()) => {},
                Err(h) => {
                    return Err(h);
                },
            }
            proof {
                if self.pairs@.len() == start.len() {
                    assert(self.pairs@ =~= then_pairs);
                    assert(pair_chart::emitted(
                        self.pairs@,
                        self.builder@.rules,
                        model.symbol,
                        ids@,
                        q,
                    ));
                    assert forall|j: int| 0 <= j < k + 1 implies pair_chart::emitted(
                        self.pairs@,
                        self.builder@.rules,
                        model.symbol,
                        ids@,
                        (model.result, #[trigger] results@[j]),
                    ) by {
                        if j < k {
                            lemma_emitted_prefix(
                                then_pairs,
                                then_rules,
                                self.builder@.rules,
                                model.symbol,
                                ids@,
                                (model.result, results@[j]),
                            );
                        }
                    }
                }
            }
            k += 1;
        }
        proof {
            if self.pairs@.len() == start.len() {
                assert(self.pairs@ =~= start);
                assert forall|v: S| #[trigger]
                    filter.steps_to(
                        model.symbol,
                        product::seconds(pair_chart::pick(self.pairs@, ids@)),
                        v,
                    ) implies pair_chart::emitted(
                    self.pairs@,
                    self.builder@.rules,
                    model.symbol,
                    ids@,
                    (model.result, v),
                ) by {
                    assert(results@.contains(v));
                    let j = choose|j: int| 0 <= j < results@.len() && results@[j] == v;
                    assert(results@[j] == v);
                }
            }
        }
        Ok(())
    }
}

/// Whether every rule of the chart has been applied to all pairs.
spec fn complete<A: BottomUpTa>(
    chart: &Explicit,
    filter: &A,
    pairs: Seq<(StateId, A::State)>,
    rules: Seq<RuleModel>,
    n: int,
) -> bool {
    forall|i: int| 0 <= i < n ==> #[trigger] pair_chart::applied(chart, filter, pairs, rules, i)
}

proof fn lemma_applied_prefix<A: BottomUpTa>(
    chart: &Explicit,
    filter: &A,
    pairs: Seq<(StateId, A::State)>,
    a: Seq<RuleModel>,
    b: Seq<RuleModel>,
    i: int,
)
    requires
        a.is_prefix_of(b),
        pair_chart::applied(chart, filter, pairs, a, i),
    ensures
        pair_chart::applied(chart, filter, pairs, b, i),
{
    let rule = chart@.rules[i];
    assert forall|ids: Seq<StateId>, v: A::State|
        pair_chart::below(ids, pairs.len()) && product::firsts(pair_chart::pick(pairs, ids))
            == rule.children && #[trigger] filter.steps_to(
            rule.symbol,
            product::seconds(pair_chart::pick(pairs, ids)),
            v,
        ) implies pair_chart::emitted(pairs, b, rule.symbol, ids, (rule.result, v)) by {
        lemma_emitted_prefix(pairs, a, b, rule.symbol, ids, (rule.result, v));
    }
}

impl<S: AutomatonState> Filtering<S> {
    /// Applies every rule of the chart once; reports whether new pairs were found.
    fn round<A: BottomUpTa<State = S>, T: Stopper>(
        &mut self,
        chart: &Explicit,
        filter: &A,
        stop: &T,
    ) -> (r: Result<bool, Halt>)
        requires
            old(self).ok(chart, filter),
        ensures
            final(self).ok(chart, filter),
            final(self).extends(old(self)),
            match r {
                Err(h) => halted(chart, filter, stop, h),
                Ok(changed) => {
                    &&& changed ==> final(self).pairs@.len() > old(self).pairs@.len()
                    &&& !changed ==> complete(
                        chart,
                        filter,
                        final(self).pairs@,
                        final(self).builder@.rules,
                        chart@.rules.len() as int,
                    )
                },
            },
    {
        let ghost start = self.pairs@;
        let before: usize = self.pairs.len();
        let n: usize = chart.num_rules();
        let mut i: usize = 0;
        while i < n
            invariant
                i <= n,
                n == chart@.rules.len(),
                self.ok(chart, filter),
                self.extends(old(self)),
                start == old(self).pairs@,
                start.is_prefix_of(self.pairs@),
                self.pairs@.len() == start.len() ==> complete(
                    chart,
                    filter,
                    self.pairs@,
                    self.builder@.rules,
                    i as int,
                ),
            decreases n - i,
        {
            let ghost then_pairs = self.pairs@;
            let ghost then_rules = self.builder@.rules;
            if stop.stop_now() {
                return Err(Halt::Cancelled);
            }
            match self.apply(chart, filter, i, stop) {
                Ok(()) => {},
                Err(e) => {
                    return Err(e);
                },
            }
            proof {
                if self.pairs@.len() == start.len() {
                    assert(self.pairs@ =~= then_pairs);
                    assert forall|j: int| 0 <= j < i + 1 implies #[trigger] pair_chart::applied(
                        chart,
                        filter,
                        self.pairs@,
                        self.builder@.rules,
                        j,
                    ) by {
                        if j < i {
                            assert(pair_chart::applied(chart, filter, then_pairs, then_rules, j));
                            lemma_applied_prefix(
                                chart,
                                filter,
                                then_pairs,
                                then_rules,
                                self.builder@.rules,
                                j,
                            );
                        }
                    }
                }
            }
            i += 1;
        }
        Ok(self.pairs.len() > before)
    }

    /// Nothing found yet.
    fn new<A: BottomUpTa<State = S>>(chart: &Explicit, filter: &A, both: bool) -> (f: Self)
        ensures
            f.ok(chart, filter),
            f.both == both,
            f.pairs@.len() == 0,
    {
        let n: u32 = chart.num_states();
        let mut variants: Vec<Vec<StateId>> = Vec::new();
        let mut s: u32 = 0;
        while s < n
            invariant
                s <= n,
                variants@.len() == s,
                forall|j: int| 0 <= j < s ==> (#[trigger] variants@[j])@.len() == 0,
            decreases n - s,
        {
            variants.push(Vec::new());
            s += 1;
        }
        Filtering {
            both,
            pairs: Interner::new(),
            values: Interner::new(),
            origins: Vec::new(),
            variants,
            seen: KeyTable::new(),
            builder: ExplicitBuilder::new(),
        }
    }
}

/// Whether the pairs are the ones that the states stand for.
spec fn numbered<A: BottomUpTa>(
    chart: &Explicit,
    filter: &A,
    both: bool,
    r: NonNullFilteredChart,
    pairs: Seq<(StateId, A::State)>,
) -> bool {
    exists|values: Seq<A::State>| #[trigger] is_filtered(chart, filter, both, r, pairs, values)
}

proof fn lemma_numbered<A: BottomUpTa>(
    chart: &Explicit,
    filter: &A,
    both: bool,
    r: NonNullFilteredChart,
    pairs: Seq<(StateId, A::State)>,
    values: Seq<A::State>,
)
    requires
        is_filtered(chart, filter, both, r, pairs, values),
    ensures
        numbered(chart, filter, both, r, pairs),
{
}

/// The chart of all pairs that trees reach.
///
/// Pairs are collected in rounds until none is new. The stopper is asked before every
/// rule and every combination of pairs; when it asks to stop, nothing is returned.
fn collect_pairs<A: BottomUpTa, T: Stopper>(
    chart: &Explicit,
    filter: &A,
    both: bool,
    stop: &T,
) -> (r: Result<(NonNullFilteredChart, Interner<(StateId, A::State)>), Halt>)
    ensures
        match r {
            Ok((f, pairs)) => numbered(chart, filter, both, f, pairs@),
            Err(h) => halted(chart, filter, stop, h),
        },
        stop.must_stop() ==> r matches Err(Halt::Cancelled),
{
    if stop.stop_now() {
        return Err(Halt::Cancelled);
    }
    let mut work: Filtering<A::State> = Filtering::new(chart, filter, both);
    let mut changed = true;
    while changed
        invariant
            work.ok(chart, filter),
            work.both == both,
            !changed ==> complete(
                chart,
                filter,
                work.pairs@,
                work.builder@.rules,
                chart@.rules.len() as int,
            ),
        decreases u32::MAX - work.pairs@.len() + (if changed {
            1int
        } else {
            0
        }),
    {
        if stop.stop_now() {
            return Err(Halt::Cancelled);
        }
        changed = match work.round(chart, filter, stop) {
            Ok(changed) => changed,
            Err(e) => {
                return Err(e);
            },
        };
    }
    let Filtering { both: _, pairs, values, origins, variants: _, seen: _, builder } = work;
    proof {
        let list_pairs = pairs@;
        let rules = builder@.rules;
        assert forall|p: (StateId, A::State)| #[trigger]
            list_pairs.contains(p) <==> pair_chart::common(chart, filter, p) by {
            if list_pairs.contains(p) {
                let i = choose|i: int| 0 <= i < list_pairs.len() && list_pairs[i] == p;
                assert(pair_chart::common(chart, filter, list_pairs[i]));
            }
            if pair_chart::common(chart, filter, p) {
                let t = choose|t: SymbolTree| #[trigger]
                    recognition::reaches(chart, t, p.0) && recognition::reaches(
                        filter,
                        t,
                        p.1,
                    );
                assert(forall|i: int|
                    0 <= i < chart@.rules.len() ==> #[trigger] pair_chart::applied(
                        chart,
                        filter,
                        list_pairs,
                        rules,
                        i,
                    ));
                pair_chart::lemma_closed(chart, filter, list_pairs, rules, t, p);
            }
        }
    }
    let automaton = builder.build();
    let f = NonNullFilteredChart { automaton, state_origins: origins };
    proof {
        assert(pair_chart::is_pair_chart(chart, filter, both, pairs@, f.automaton@));
        lemma_numbered(chart, filter, both, f, pairs@, values@);
    }
    Ok((f, pairs))
}

/// Filters a chart: keeps the derivations that get some state in the filter.
pub fn filter_chart<A: BottomUpTa, T: Stopper>(chart: &Explicit, filter: &A, stop: &T) -> (r: Result<
    NonNullFilteredChart,
    Halt,
>)
    ensures
        match r {
            Ok(f) => filtered(chart, filter, false, f),
            Err(h) => halted(chart, filter, stop, h),
        },
        stop.must_stop() ==> r matches Err(Halt::Cancelled),
{
    match collect_pairs(chart, filter, false, stop) {
        Ok((f, pairs)) => {
            proof {
                let values = choose|values: Seq<A::State>| #[trigger]
                    is_filtered(chart, filter, false, f, pairs@, values);
                lemma_filtered(chart, filter, false, f, pairs@, values);
            }
            Ok(f)
        },
        Err(e) => Err(e),
    }
}

/// Intersects a chart with another automaton: keeps the derivations that both accept.
/// Also returns the pairs that the states of the result stand for.
pub fn intersect_chart<A: BottomUpTa, T: Stopper>(chart: &Explicit, right: &A, stop: &T) -> (r: Result<
    (Explicit, Interner<(StateId, A::State)>),
    Halt,
>)
    ensures
        match r {
            Ok((product, pairs)) => pair_chart::is_pair_chart(chart, right, true, pairs@, product@),
            Err(h) => halted(chart, right, stop, h),
        },
        stop.must_stop() ==> r matches Err(Halt::Cancelled),
{
    match collect_pairs(chart, right, true, stop) {
        Ok((f, pairs)) => Ok((f.automaton, pairs)),
        Err(e) => Err(e),
    }
}

/// The intersection of a chart with another automaton accepts exactly the trees that
/// both accept.
pub proof fn law_intersection_recognizes<A: BottomUpTa>(
    chart: &Explicit,
    right: &A,
    pairs: Seq<(StateId, A::State)>,
    result: &Explicit,
    t: SymbolTree,
)
    requires
        pair_chart::is_pair_chart(chart, right, true, pairs, result@),
        result@.well_formed(),
    ensures
        recognition::recognizes(result, t) <==> (recognition::recognizes(chart, t)
            && recognition::recognizes(right, t)),
{
    pair_chart::law_pair_chart_recognizes(chart, right, true, pairs, result, t);
}

} // verus!
