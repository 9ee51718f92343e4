//! Collecting the products that a replay goes through, from the top down.
use super::child_index::ChildIndex;
use super::data;
use super::data::{ReplayData, RightModel, RightRules};
use super::joins;
use super::joins::{LeftModel, LeftRules, Slot, SlotModel};
use super::partners::PartnerSet;
use super::products::ProductMap;
use super::walks;
use super::walks::WalkModel;
use crate::ids::StateId;
use crate::worklist;
use vstd::prelude::*;

verus! {

/// Whether two rules join over pairs: they share a symbol, and their children are pairs.
pub open spec fn is_joinable(
    left: LeftModel,
    right: RightModel,
    pairs: Seq<(StateId, StateId)>,
    i: int,
    j: int,
) -> bool {
    &&& right.symbols[j].contains(left.symbols[i])
    &&& left.children[i].len() == right.children[j].len()
    &&& forall|p: int|
        0 <= p < left.children[i].len() ==> pairs.contains(
            (#[trigger] left.children[i][p], right.children[j][p]),
        )
}

/// Whether the results of the rules that join with a rule on the right are pairs.
pub open spec fn is_rule_closed(
    left: LeftModel,
    right: RightModel,
    pairs: Seq<(StateId, StateId)>,
    j: int,
) -> bool {
    forall|i: int|
        0 <= i < left.children.len() && #[trigger] is_joinable(left, right, pairs, i, j)
            ==> pairs.contains((left.results[i], right.results[j]))
}

/// Whether a pair is the result of two rules that join over others.
pub open spec fn is_justified(
    left: LeftModel,
    right: RightModel,
    pairs: Seq<(StateId, StateId)>,
    pair: (StateId, StateId),
) -> bool {
    exists|i: int, j: int|
        0 <= i < left.children.len() && 0 <= j < right.children.len() && pair == (
            left.results[i],
            right.results[j],
        ) && #[trigger] is_joinable(left, right, pairs, i, j)
}

/// Whether each pair is the result of rules that join over earlier ones.
pub open spec fn are_justified(
    left: LeftModel,
    right: RightModel,
    pairs: Seq<(StateId, StateId)>,
) -> bool {
    forall|k: int|
        0 <= k < pairs.len() ==> is_justified(left, right, pairs.take(k), #[trigger] pairs[k])
}

/// Whether sets list for each right state the left states that are paired with it.
pub open spec fn are_partners(
    partners: Seq<Seq<StateId>>,
    pairs: Seq<(StateId, StateId)>,
) -> bool {
    forall|l: StateId, r: StateId|
        r.0 < partners.len() ==> (#[trigger] partners[r.0 as int].contains(l) <==> pairs.contains(
            (l, r),
        ))
}

/// Whether states lead from an initial state down to the last one.
pub open spec fn is_descent(right: RightModel, initial: Seq<StateId>, path: Seq<StateId>) -> bool
    decreases path.len(),
{
    if path.len() == 0 {
        false
    } else if path.len() == 1 {
        initial.contains(path[0])
    } else {
        &&& is_descent(right, initial, path.drop_last())
        &&& is_child_of(right, path[path.len() - 2], path.last())
    }
}

/// Whether a state is a child in some rule of another.
pub open spec fn is_child_of(right: RightModel, parent: StateId, child: StateId) -> bool {
    exists|j: int|
        0 <= j < right.children.len() && right.results[j] == parent
            && #[trigger] right.children[j].contains(child)
}

/// Whether a state lies below an initial state.
pub open spec fn is_reached(right: RightModel, initial: Seq<StateId>, q: StateId) -> bool {
    exists|path: Seq<StateId>| #[trigger] is_descent(right, initial, path) && path.last() == q
}

/// Whether ranks fall from results to children.
pub open spec fn is_ranked(right: RightModel, rank: spec_fn(StateId) -> nat) -> bool {
    forall|j: int, p: int|
        0 <= j < right.children.len() && 0 <= p < right.children[j].len() ==> rank(
            #[trigger] right.children[j][p],
        ) < rank(right.results[j])
}

/// Whether no state lies below itself.
pub open spec fn is_acyclic(right: RightModel) -> bool {
    exists|rank: spec_fn(StateId) -> nat| #[trigger] is_ranked(right, rank)
}

/// Whether rules on the right mention only the first `n` states.
pub open spec fn rules_below(right: RightModel, n: nat) -> bool {
    &&& forall|j: int| 0 <= j < right.results.len() ==> (#[trigger] right.results[j]).0 < n
    &&& forall|j: int, p: int|
        0 <= j < right.children.len() && 0 <= p < right.children[j].len() ==> (
        #[trigger] right.children[j][p]).0 < n
}

/// Pairs stay pairs.
proof fn lemma_extended(
    left: LeftModel,
    right: RightModel,
    before: Seq<(StateId, StateId)>,
    pair: (StateId, StateId),
)
    requires
        are_justified(left, right, before),
        is_justified(left, right, before, pair),
    ensures
        are_justified(left, right, before.push(pair)),
{
    let now = before.push(pair);
    assert forall|k: int| 0 <= k < now.len() implies is_justified(
        left,
        right,
        now.take(k),
        #[trigger] now[k],
    ) by {
        if k < before.len() {
            assert(now.take(k) =~= before.take(k));
            assert(before[k] == now[k]);
        } else {
            assert(now.take(k) =~= before);
        }
    }
}

/// Rules that join over some pairs join over more.
proof fn lemma_joinable_more(
    left: LeftModel,
    right: RightModel,
    before: Seq<(StateId, StateId)>,
    now: Seq<(StateId, StateId)>,
    i: int,
    j: int,
)
    requires
        is_joinable(left, right, before, i, j),
        forall|x: (StateId, StateId)| #[trigger] before.contains(x) ==> now.contains(x),
    ensures
        is_joinable(left, right, now, i, j),
{
    assert forall|p: int| 0 <= p < left.children[i].len() implies now.contains(
        (#[trigger] left.children[i][p], right.children[j][p]),
    ) by {
        assert(before.contains((left.children[i][p], right.children[j][p])));
    }
}

/// Whether pairs were added, all for right states outside a set of states.
pub open spec fn is_grown(
    before: Seq<(StateId, StateId)>,
    now: Seq<(StateId, StateId)>,
    kept: spec_fn(StateId) -> bool,
) -> bool {
    &&& forall|x: (StateId, StateId)| #[trigger] before.contains(x) ==> now.contains(x)
    &&& forall|x: (StateId, StateId)| #[trigger]
        now.contains(x) && kept(x.1) ==> before.contains(x)
}

/// A closed rule stays closed while its children get no new pairs.
proof fn lemma_stays_closed(
    left: LeftModel,
    right: RightModel,
    before: Seq<(StateId, StateId)>,
    now: Seq<(StateId, StateId)>,
    kept: spec_fn(StateId) -> bool,
    j: int,
)
    requires
        is_rule_closed(left, right, before, j),
        is_grown(before, now, kept),
        0 <= j < right.children.len(),
        forall|p: int|
            0 <= p < right.children[j].len() ==> kept(#[trigger] right.children[j][p]),
    ensures
        is_rule_closed(left, right, now, j),
{
    assert forall|i: int|
        0 <= i < left.children.len() && #[trigger] is_joinable(
            left,
            right,
            now,
            i,
            j,
        ) implies now.contains((left.results[i], right.results[j])) by {
        assert(is_joinable(left, right, before, i, j)) by {
            assert forall|p: int| 0 <= p < left.children[i].len() implies before.contains(
                (#[trigger] left.children[i][p], right.children[j][p]),
            ) by {
                let x = (left.children[i][p], right.children[j][p]);
                assert(now.contains(x));
                assert(kept(right.children[j][p]));
            }
        }
        assert(before.contains((left.results[i], right.results[j])));
    }
}

/// The rules on both sides, indexed.
struct Sides<'s> {
    left: &'s LeftRules,
    right: &'s RightRules,
    left_index: ChildIndex,
    by_result: Vec<Vec<usize>>,
}

impl<'s> Sides<'s> {
    spec fn wf(&self) -> bool {
        &&& self.left@.is_table()
        &&& self.right@.is_table()
        &&& self.left_index@ == self.left@.children
        &&& rules_below(self.right@, self.by_result@.len())
        &&& self.by_result@.len() < StateId::STUCK
        &&& forall|i: int|
            0 <= i < self.left@.results.len() ==> (#[trigger] self.left@.results[i]).0
                < StateId::STUCK
        &&& self.right@.children.len() <= usize::MAX
        &&& forall|q: int, k: int|
            0 <= q < self.by_result@.len() && 0 <= k < self.by_result@[q]@.len() ==> {
                let j = #[trigger] self.by_result@[q]@[k];
                j < self.right@.children.len() && self.right@.results[j as int].0 == q
            }
        &&& forall|j: int|
            0 <= j < self.right@.children.len() ==> self.by_result@[(
            #[trigger] self.right@.results[j]).0 as int]@.contains(j as usize)
        &&& forall|q: int| 0 <= q < self.by_result@.len() ==> rises(#[trigger] self.by_result@[q]@)
    }
}

/// Whether numbers increase.
spec fn rises(list: Seq<usize>) -> bool {
    forall|i: int, k: int| 0 <= i < k < list.len() ==> #[trigger] list[i] < #[trigger] list[k]
}

/// The number behind the first `k` of a list.
spec fn bound(list: Seq<usize>, k: int) -> nat {
    if k == 0 {
        0
    } else {
        (list[k - 1] + 1) as nat
    }
}

/// The rules that match increase.
proof fn lemma_matches_rise(
    left: LeftModel,
    symbols: Set<crate::ids::Symbol>,
    slots: Seq<SlotModel>,
    n: nat,
)
    requires
        n <= left.children.len() <= usize::MAX,
    ensures
        rises(joins::matches_below(left, symbols, slots, n)),
    decreases n,
{
    if n > 0 {
        let rest = joins::matches_below(left, symbols, slots, (n - 1) as nat);
        lemma_matches_rise(left, symbols, slots, (n - 1) as nat);
        joins::lemma_matches(left, symbols, slots, (n - 1) as nat);
        let all = joins::matches_below(left, symbols, slots, n);
        assert forall|i: int, k: int| 0 <= i < k < all.len() implies #[trigger] all[i]
            < #[trigger] all[k] by {
            if k < rest.len() {
                assert(rest[i] < rest[k]);
            } else {
                assert(rest[i] < n - 1);
            }
        }
    }
}

/// What was collected so far.
struct Walk {
    products: ProductMap,
    partners: Vec<PartnerSet>,
    visited: Vec<bool>,
    done: Ghost<Set<StateId>>,
}

/// Whether states that are done are closed, and so are those below them.
spec fn is_done(
    left: LeftModel,
    right: RightModel,
    pairs: Seq<(StateId, StateId)>,
    done: Set<StateId>,
) -> bool {
    forall|j: int|
        0 <= j < right.children.len() && done.contains(#[trigger] right.results[j])
            ==> is_rule_closed(left, right, pairs, j) && forall|p: int|
            0 <= p < right.children[j].len() ==> done.contains(#[trigger] right.children[j][p])
}

impl Walk {
    /// What was found and visited.
    spec fn model(&self) -> WalkModel {
        WalkModel {
            pairs: self.products@,
            visited: Set::new(|q: StateId| self.has_visited(q)),
        }
    }

    spec fn wf(&self, s: Sides<'_>, initial: Seq<StateId>) -> bool {
        &&& self.partners@.len() == s.by_result@.len()
        &&& self.visited@.len() == s.by_result@.len()
        &&& are_partners(data::partner_lists(self.partners@), self.products@)
        &&& are_justified(s.left@, s.right@, self.products@)
        &&& forall|q: StateId|
            q.0 < self.visited@.len() && #[trigger] self.visited@[q.0 as int] ==> is_reached(
                s.right@,
                initial,
                q,
            )
        &&& forall|x: (StateId, StateId)| #[trigger]
            self.products@.contains(x) ==> x.1.0 < self.visited@.len()
                && self.visited@[x.1.0 as int]
        &&& forall|q: StateId| #[trigger]
            self.done@.contains(q) ==> q.0 < self.visited@.len() && self.visited@[q.0 as int]
    }

    /// Whether a right state was visited.
    spec fn has_visited(&self, q: StateId) -> bool {
        q.0 < self.visited@.len() && self.visited@[q.0 as int]
    }
}

/// Adds the results of the rules that join with a rule on the right; says whether all could
/// be numbered.
fn process_rule(
    s: &Sides<'_>,
    products: &mut ProductMap,
    partners: &mut Vec<PartnerSet>,
    j: usize,
) -> (ok: bool)
    requires
        s.wf(),
        j < s.right@.children.len(),
        old(partners)@.len() == s.by_result@.len(),
        are_partners(data::partner_lists(old(partners)@), old(products)@),
        are_justified(s.left@, s.right@, old(products)@),
    ensures
        final(partners)@.len() == old(partners)@.len(),
        are_partners(data::partner_lists(final(partners)@), final(products)@),
        are_justified(s.left@, s.right@, final(products)@),
        is_grown(
            old(products)@,
            final(products)@,
            |q: StateId| q != s.right@.results[j as int],
        ),
        !ok ==> final(products)@.len() >= 0xffff_ffff && final(products)@.no_duplicates(),
        ok ==> forall|i: int|
            0 <= i < s.left@.children.len() && #[trigger] is_joinable(
                s.left@,
                s.right@,
                old(products)@,
                i,
                j as int,
            ) ==> final(products)@.contains((s.left@.results[i], s.right@.results[j as int])),
        ok ==> final(products)@ == walks::with_results(
            s.left@,
            s.right@,
            old(products)@,
            j as int,
            s.left@.children.len(),
        ),
{
    let ghost left = s.left@;
    let ghost right = s.right@;
    let ghost before = products@;
    let ghost start = data::partner_lists(partners@);
    let ghost kept = |q: StateId| q != right.results[j as int];
    let children = &s.right.children[j];
    let left_count: usize = s.left.children.len();
    assert(right.children[j as int] == children@);
    let matches: Vec<usize>;
    {
        let mut slots: Vec<Slot<'_>> = Vec::new();
        let mut p: usize = 0;
        while p < children.len()
            invariant
                p <= children@.len(),
                s.wf(),
                right == s.right@,
                j < right.children.len(),
                children@ == right.children[j as int],
                partners@.len() == s.by_result@.len(),
                start == data::partner_lists(partners@),
                slots@.len() == p,
                forall|k: int|
                    0 <= k < p ==> (#[trigger] slots@[k])@ == SlotModel::Within(
                        start[children@[k].0 as int],
                    ),
            decreases children@.len() - p,
        {
            let q: usize = children[p].index();
            assert(right.children[j as int][p as int].0 < s.by_result@.len());
            slots.push(Slot::Within(&partners[q]));
            p += 1;
        }
        matches = s.left.join(&s.left_index, &s.right.symbols[j], &slots);
        proof {
            let models = joins::slot_models(slots@);
            assert(right.symbols[j as int] == s.right.symbols@[j as int]@);
            lemma_joins(left, right, before, start, models, j as int, s.left.children@.len());
            lemma_matches_rise(left, right.symbols[j as int], models, left.children.len());
        }
    }
    let mut k: usize = 0;
    let result = s.right.results[j];
    while k < matches.len()
        invariant
            k <= matches@.len(),
            s.wf(),
            left == s.left@,
            right == s.right@,
            left_count == left.children.len(),
            j < right.children.len(),
            result == right.results[j as int],
            kept == (|q: StateId| q != right.results[j as int]),
            partners@.len() == s.by_result@.len(),
            partners@.len() == old(partners)@.len(),
            before == old(products)@,
            forall|x: int|
                0 <= x < matches@.len() ==> (#[trigger] matches@[x]) < left.children.len()
                    && is_joinable(left, right, before, matches@[x] as int, j as int),
            are_partners(data::partner_lists(partners@), products@),
            are_justified(left, right, products@),
            is_grown(before, products@, kept),
            forall|x: int|
                0 <= x < k ==> products@.contains(
                    (left.results[#[trigger] matches@[x] as int], result),
                ),
            rises(matches@),
            forall|i: int|
                0 <= i < left.children.len() && #[trigger] is_joinable(
                    left,
                    right,
                    before,
                    i,
                    j as int,
                ) ==> matches@.contains(i as usize),
            products@ == walks::with_results(
                left,
                right,
                before,
                j as int,
                bound(matches@, k as int),
            ),
        decreases matches@.len() - k,
    {
        let i: usize = matches[k];
        proof {
            let m = bound(matches@, k as int);
            assert(k > 0 ==> matches@[k - 1] < matches@[k as int]);
            assert forall|x: int| m <= x < i implies !#[trigger] is_joinable(
                left,
                right,
                before,
                x,
                j as int,
            ) by {
                lemma_gap(matches@, k as int, x);
            }
            walks::lemma_results_skip(left, right, before, j as int, m, i as nat);
        }
        let l = s.left.results[i];
        let ghost earlier = products@;
        let ghost listed = data::partner_lists(partners@);
        if products.pairs().len() >= 0xffff_ffff {
            return false;
        }
        proof {
            assert(is_joinable(left, right, before, i as int, j as int));
            lemma_joinable_more(left, right, before, earlier, i as int, j as int);
            assert(is_justified(left, right, earlier, (l, result)));
            assert(right.results[j as int].0 < s.by_result@.len());
        }
        let (_, fresh) = products.get_or_insert(l, result);
        let place: usize = result.index();
        if fresh {
            proof {
                lemma_extended(left, right, earlier, (l, result));
            }
            let mut own = PartnerSet::new();
            let slot = &mut partners[place];
            std::mem::swap(slot, &mut own);
            let _ = own.insert(l);
            partners.set(place, own);
        }
        proof {
            let now = data::partner_lists(partners@);
            let pair = (l, result);
            assert(products@.contains(pair)) by {
                if fresh {
                    assert(products@[earlier.len() as int] == pair);
                }
            }
            assert forall|x: (StateId, StateId)| #[trigger] earlier.contains(x) implies products@.contains(
                x,
            ) by {
                let y = choose|y: int| 0 <= y < earlier.len() && earlier[y] == x;
                assert(products@[y] == x);
            }
            assert forall|x: (StateId, StateId)| #[trigger] products@.contains(x) implies x == pair
                || earlier.contains(x) by {
                let y = choose|y: int| 0 <= y < products@.len() && products@[y] == x;
                if y < earlier.len() {
                    assert(earlier[y] == x);
                }
            }
            assert(is_grown(before, products@, kept)) by {
                assert forall|x: (StateId, StateId)| #[trigger]
                    products@.contains(x) && kept(x.1) implies before.contains(x) by {
                    assert(earlier.contains(x));
                }
                assert forall|x: (StateId, StateId)| #[trigger] before.contains(x) implies products@.contains(
                    x,
                ) by {
                    assert(earlier.contains(x));
                }
            }
            assert(are_partners(now, products@)) by {
                assert forall|a: StateId, r: StateId| r.0 < now.len() implies (
                #[trigger] now[r.0 as int].contains(a) <==> products@.contains((a, r))) by {
                    assert(listed[r.0 as int].contains(a) <==> earlier.contains((a, r)));
                    if r == result && fresh {
                        let set = listed[r.0 as int];
                        assert(!set.contains(l));
                        assert(now[r.0 as int] == set.push(l));
                        if set.contains(a) {
                            let y = choose|y: int| 0 <= y < set.len() && set[y] == a;
                            assert(set.push(l)[y] == a);
                        }
                        if set.push(l).contains(a) && a != l {
                            let y = choose|y: int|
                                0 <= y < set.push(l).len() && set.push(l)[y] == a;
                            assert(set[y] == a);
                        }
                        assert(set.push(l)[set.len() as int] == l);
                    } else {
                        assert(now[r.0 as int] == listed[r.0 as int]);
                    }
                }
            }
        }
        k += 1;
    }
    proof {
        let m = bound(matches@, k as int);
        assert forall|x: int| m <= x < left.children.len() implies !#[trigger] is_joinable(
            left,
            right,
            before,
            x,
            j as int,
        ) by {
            lemma_gap(matches@, k as int, x);
        }
        walks::lemma_results_skip(left, right, before, j as int, m, left.children.len());
        assert forall|i: int|
            0 <= i < left.children.len() && #[trigger] is_joinable(
                left,
                right,
                before,
                i,
                j as int,
            ) implies products@.contains((left.results[i], right.results[j as int])) by {
            assert(matches@.contains(i as usize));
            let x = choose|x: int| 0 <= x < matches@.len() && matches@[x] == i as usize;
            assert(i as usize == i);
            assert(products@.contains((left.results[matches@[x] as int], result)));
        }
    }
    true
}

/// No number of a rising list lies between two neighbours.
proof fn lemma_gap(list: Seq<usize>, k: int, x: int)
    requires
        rises(list),
        0 <= k <= list.len(),
        bound(list, k) <= x,
        k < list.len() ==> x < list[k],
        0 <= x <= usize::MAX,
    ensures
        !list.contains(x as usize),
{
    if list.contains(x as usize) {
        let i = choose|i: int| 0 <= i < list.len() && list[i] == x as usize;
        if i < k {
            if i < k - 1 {
                assert(list[i] < list[k - 1]);
            }
        } else if i > k {
            assert(list[k] < list[i]);
        }
    }
}

/// A rule is found exactly when it joins.
proof fn lemma_joins(
    left: LeftModel,
    right: RightModel,
    pairs: Seq<(StateId, StateId)>,
    partners: Seq<Seq<StateId>>,
    slots: Seq<SlotModel>,
    j: int,
    n: nat,
)
    requires
        n == left.children.len() <= usize::MAX,
        0 <= j < right.children.len(),
        are_partners(partners, pairs),
        slots.len() == right.children[j].len(),
        forall|p: int| 0 <= p < right.children[j].len() ==> (#[trigger] right.children[j][p]).0
            < partners.len(),
        forall|p: int|
            0 <= p < slots.len() ==> (#[trigger] slots[p]) == SlotModel::Within(
                partners[right.children[j][p].0 as int],
            ),
    ensures
        forall|x: int|
            0 <= x < joins::matches(left, right.symbols[j], slots).len() ==> {
                let i = #[trigger] joins::matches(left, right.symbols[j], slots)[x];
                i < left.children.len() && is_joinable(left, right, pairs, i as int, j)
            },
        forall|i: int|
            0 <= i < left.children.len() && #[trigger] is_joinable(left, right, pairs, i, j)
                ==> joins::matches(left, right.symbols[j], slots).contains(i as usize),
{
    joins::lemma_matches(left, right.symbols[j], slots, n);
    assert forall|i: int| 0 <= i < left.children.len() implies (#[trigger] is_joinable(
        left,
        right,
        pairs,
        i,
        j,
    ) <==> joins::is_match(left, i, right.symbols[j], slots)) by {
        if is_joinable(left, right, pairs, i, j) {
            assert forall|p: int| 0 <= p < slots.len() implies (#[trigger] slots[p]).admits(
                left.children[i][p],
            ) by {
                let r = right.children[j][p];
                assert(pairs.contains((left.children[i][p], r)));
                assert(partners[r.0 as int].contains(left.children[i][p]));
            }
        }
        if joins::is_match(left, i, right.symbols[j], slots) {
            assert forall|p: int| 0 <= p < left.children[i].len() implies pairs.contains(
                (#[trigger] left.children[i][p], right.children[j][p]),
            ) by {
                let r = right.children[j][p];
                assert(slots[p].admits(left.children[i][p]));
                assert(partners[r.0 as int].contains(left.children[i][p]));
            }
        }
    }
    assert forall|i: int|
        0 <= i < left.children.len() && #[trigger] is_joinable(
            left,
            right,
            pairs,
            i,
            j,
        ) implies joins::matches(left, right.symbols[j], slots).contains(i as usize) by {
        lemma_match_found(left, right.symbols[j], slots, n, i);
    }
}

proof fn lemma_match_found(
    left: LeftModel,
    symbols: Set<crate::ids::Symbol>,
    slots: Seq<SlotModel>,
    n: nat,
    i: int,
)
    requires
        0 <= i < n <= left.children.len() <= usize::MAX,
        joins::is_match(left, i, symbols, slots),
    ensures
        joins::matches_below(left, symbols, slots, n).contains(i as usize),
    decreases n,
{
    let rest = joins::matches_below(left, symbols, slots, (n - 1) as nat);
    let all = joins::matches_below(left, symbols, slots, n);
    if i == n - 1 {
        assert(all[rest.len() as int] == i as usize);
    } else {
        lemma_match_found(left, symbols, slots, (n - 1) as nat, i);
        let k = choose|k: int| 0 <= k < rest.len() && rest[k] == i as usize;
        assert(all[k] == i as usize);
    }
}

/// No more are unmarked than there are.
proof fn lemma_unmarked_bounded(a: Seq<bool>)
    ensures
        worklist::unmarked(a) <= a.len(),
    decreases a.len(),
{
    if a.len() > 0 {
        lemma_unmarked_bounded(a.drop_last());
    }
}

/// Marking more leaves fewer unmarked.
proof fn lemma_unmarked_less(a: Seq<bool>, b: Seq<bool>)
    requires
        a.len() == b.len(),
        forall|i: int| 0 <= i < a.len() && #[trigger] a[i] ==> b[i],
    ensures
        worklist::unmarked(b) <= worklist::unmarked(a),
    decreases a.len(),
{
    if a.len() > 0 {
        let x = a.drop_last();
        let y = b.drop_last();
        assert forall|i: int| 0 <= i < x.len() && #[trigger] x[i] implies y[i] by {
            assert(a[i] ==> b[i]);
        }
        lemma_unmarked_less(x, y);
        assert(a[a.len() - 1] ==> b[a.len() - 1]);
    }
}

/// What grew twice grew.
proof fn lemma_grown_twice(
    a: Seq<(StateId, StateId)>,
    b: Seq<(StateId, StateId)>,
    c: Seq<(StateId, StateId)>,
    first: spec_fn(StateId) -> bool,
    second: spec_fn(StateId) -> bool,
)
    requires
        is_grown(a, b, first),
        is_grown(b, c, second),
        forall|q: StateId| #[trigger] first(q) ==> second(q),
    ensures
        is_grown(a, c, first),
{
    assert forall|x: (StateId, StateId)| #[trigger] a.contains(x) implies c.contains(x) by {
        assert(b.contains(x));
    }
    assert forall|x: (StateId, StateId)| #[trigger] c.contains(x) && first(x.1) implies a.contains(
        x,
    ) by {
        assert(b.contains(x));
    }
}

/// States that are done stay so while they get no new pairs.
proof fn lemma_stays_done(
    left: LeftModel,
    right: RightModel,
    before: Seq<(StateId, StateId)>,
    now: Seq<(StateId, StateId)>,
    kept: spec_fn(StateId) -> bool,
    done: Set<StateId>,
)
    requires
        right.is_table(),
        is_done(left, right, before, done),
        is_grown(before, now, kept),
        forall|q: StateId| #[trigger] done.contains(q) ==> kept(q),
    ensures
        is_done(left, right, now, done),
{
    assert forall|j: int|
        0 <= j < right.children.len() && done.contains(
            #[trigger] right.results[j],
        ) implies is_rule_closed(left, right, now, j) && forall|p: int|
        0 <= p < right.children[j].len() ==> done.contains(#[trigger] right.children[j][p]) by {
        lemma_stays_closed(left, right, before, now, kept, j);
    }
}

impl Walk {
    /// Whether the walk went on: what was visited stays so and gets no new pairs.
    spec fn leads_to(&self, now: Walk) -> bool {
        &&& self.visited@.len() == now.visited@.len()
        &&& forall|q: StateId| #[trigger] self.has_visited(q) ==> now.has_visited(q)
        &&& is_grown(self.products@, now.products@, |q: StateId| self.has_visited(q))
    }

    /// Whether all that the walk visited anew is done, except for some states.
    spec fn settles(&self, now: Walk, except: Set<StateId>) -> bool {
        &&& forall|q: StateId| #[trigger] self.done@.contains(q) ==> now.done@.contains(q)
        &&& forall|q: StateId| #[trigger]
            now.has_visited(q) && !now.done@.contains(q) ==> except.contains(q) || (
            self.has_visited(q) && !self.done@.contains(q))
        &&& forall|q: StateId| #[trigger]
            now.done@.contains(q) ==> self.done@.contains(q) || !self.has_visited(q)
        &&& forall|q: StateId| #[trigger] except.contains(q) ==> !now.done@.contains(q)
    }

    /// Two steps of a walk are one.
    proof fn lemma_leads_twice(&self, mid: Walk, now: Walk)
        requires
            self.leads_to(mid),
            mid.leads_to(now),
        ensures
            self.leads_to(now),
    {
        let first = |q: StateId| self.has_visited(q);
        let second = |q: StateId| mid.has_visited(q);
        assert forall|q: StateId| #[trigger] first(q) implies second(q) by {
            assert(self.has_visited(q));
        }
        lemma_grown_twice(self.products@, mid.products@, now.products@, first, second);
        assert forall|q: StateId| #[trigger] self.has_visited(q) implies now.has_visited(q) by {
            assert(mid.has_visited(q));
        }
    }
}

/// A child of a state that is reached is reached.
proof fn lemma_reached_below(
    right: RightModel,
    initial: Seq<StateId>,
    parent: StateId,
    child: StateId,
)
    requires
        is_reached(right, initial, parent),
        is_child_of(right, parent, child),
    ensures
        is_reached(right, initial, child),
{
    let path = choose|path: Seq<StateId>| #[trigger]
        is_descent(right, initial, path) && path.last() == parent;
    let longer = path.push(child);
    assert(longer.drop_last() =~= path);
    assert(is_descent(right, initial, longer));
}

/// Collects the pairs of a right state, after those of the states below it; says whether all
/// could be numbered.
#[verifier::rlimit(60)]
fn visit(
    w: &mut Walk,
    s: &Sides<'_>,
    q: StateId,
    Ghost(initial): Ghost<Seq<StateId>>,
    Ghost(rank): Ghost<spec_fn(StateId) -> nat>,
    Ghost(depth): Ghost<nat>,
) -> (ok: bool)
    requires
        s.wf(),
        old(w).wf(*s, initial),
        worklist::unmarked(old(w).visited@) < depth,
        q.0 < s.by_result@.len(),
        is_reached(s.right@, initial, q),
        is_ranked(s.right@, rank) ==> is_done(
            s.left@,
            s.right@,
            old(w).products@,
            old(w).done@,
        ) && forall|x: StateId| #[trigger]
            old(w).has_visited(x) && !old(w).done@.contains(x) ==> rank(x) > rank(q),
    ensures
        final(w).wf(*s, initial),
        old(w).leads_to(*final(w)),
        final(w).has_visited(q),
        !ok ==> final(w).products@.len() >= 0xffff_ffff && final(w).products@.no_duplicates(),
        ok && is_ranked(s.right@, rank) ==> is_done(
            s.left@,
            s.right@,
            final(w).products@,
            final(w).done@,
        ) && final(w).done@.contains(q) && old(w).settles(*final(w), Set::empty()),
        ok ==> final(w).model() == walks::after_visit(
            s.left@,
            s.right@,
            old(w).model(),
            q,
            depth,
        ),
    decreases worklist::unmarked(old(w).visited@),
{
    let ghost start = *w;
    let ghost left = s.left@;
    let ghost right = s.right@;
    let ghost ranked = is_ranked(right, rank);
    let place: usize = q.index();
    if w.visited[place] {
        assert(start.has_visited(q));
        assert(ranked ==> start.done@.contains(q));
        return true;
    }
    w.visited.set(place, true);
    proof {
        worklist::lemma_unmarked_update(start.visited@, place as int);
        assert forall|x: StateId| w.has_visited(x) implies is_reached(right, initial, x) by {
            if x != q {
                assert(start.visited@[x.0 as int]);
            }
        }
        assert(!start.done@.contains(q));
        assert(w.wf(*s, initial));
        assert(start.leads_to(*w));
        assert(start.settles(*w, set![q]));
        assert(w.has_visited(q));
        assert(w.model().visited =~= start.model().visited.insert(q));
    }
    let ghost opened = w.model();
    let ghost less = (depth - 1) as nat;
    let rules = &s.by_result[place];
    let mut k: usize = 0;
    while k < rules.len()
        invariant
            k <= rules@.len(),
            s.wf(),
            left == s.left@,
            right == s.right@,
            ranked == is_ranked(right, rank),
            place == q.0,
            place < s.by_result@.len(),
            rules@ == s.by_result@[place as int]@,
            start == *old(w),
            is_reached(right, initial, q),
            ranked ==> forall|x: StateId| #[trigger]
                start.has_visited(x) && !start.done@.contains(x) ==> rank(x) > rank(q),
            !start.has_visited(q),
            w.wf(*s, initial),
            start.leads_to(*w),
            w.has_visited(q),
            worklist::unmarked(w.visited@) < worklist::unmarked(start.visited@),
            ranked ==> is_done(left, right, w.products@, w.done@),
            ranked ==> start.settles(*w, set![q]),
            ranked ==> forall|i: int|
                0 <= i < k ==> is_rule_closed(
                    left,
                    right,
                    w.products@,
                    #[trigger] rules@[i] as int,
                ),
            ranked ==> forall|i: int, p: int|
                0 <= i < k && 0 <= p < right.children[rules@[i] as int].len()
                    ==> w.done@.contains(#[trigger] right.children[rules@[i] as int][p]),
            less == depth - 1,
            worklist::unmarked(start.visited@) < depth,
            w.model() == walks::after_rules(
                left,
                right,
                opened,
                q,
                bound(rules@, k as int),
                less,
            ),
        decreases rules@.len() - k,
    {
        let j: usize = rules[k];
        assert(s.by_result@[place as int]@[k as int] == j);
        let ghost entered = w.model();
        proof {
            assert(rises(s.by_result@[place as int]@));
            let m = bound(rules@, k as int);
            assert(k > 0 ==> rules@[k - 1] < rules@[k as int]);
            assert forall|x: int| m <= x < j implies #[trigger] right.results[x] != q by {
                if right.results[x] == q {
                    assert(s.by_result@[right.results[x].0 as int]@.contains(x as usize));
                    lemma_gap(rules@, k as int, x);
                }
            }
            walks::lemma_rules_skip(left, right, opened, q, m, j as nat, less);
        }
        let children = &s.right.children[j];
        assert(right.children[j as int] == children@);
        assert(right.results[j as int] == q);
        let mut p: usize = 0;
        while p < children.len()
            invariant
                p <= children@.len(),
                k < rules@.len(),
                j == rules@[k as int],
                j < right.children.len(),
                children@ == right.children[j as int],
                right.results[j as int] == q,
                s.wf(),
                left == s.left@,
                right == s.right@,
                ranked == is_ranked(right, rank),
                place == q.0,
                place < s.by_result@.len(),
                rules@ == s.by_result@[place as int]@,
                start == *old(w),
                is_reached(right, initial, q),
                ranked ==> forall|x: StateId| #[trigger]
                    start.has_visited(x) && !start.done@.contains(x) ==> rank(x) > rank(q),
                !start.has_visited(q),
                w.wf(*s, initial),
                start.leads_to(*w),
                w.has_visited(q),
                worklist::unmarked(w.visited@) < worklist::unmarked(start.visited@),
                ranked ==> is_done(left, right, w.products@, w.done@),
                ranked ==> start.settles(*w, set![q]),
                ranked ==> forall|i: int|
                    0 <= i < k ==> is_rule_closed(
                        left,
                        right,
                        w.products@,
                        #[trigger] rules@[i] as int,
                    ),
                ranked ==> forall|i: int, x: int|
                    0 <= i < k && 0 <= x < right.children[rules@[i] as int].len()
                        ==> w.done@.contains(#[trigger] right.children[rules@[i] as int][x]),
                ranked ==> forall|x: int|
                    0 <= x < p ==> w.done@.contains(#[trigger] children@[x]),
                less == depth - 1,
                worklist::unmarked(start.visited@) < depth,
                w.model() == walks::after_children(
                    left,
                    right,
                    entered,
                    children@,
                    p as nat,
                    less,
                ),
            decreases children@.len() - p,
        {
            let c = children[p];
            let ghost before = *w;
            proof {
                assert(right.children[j as int][p as int] == c);
                assert(right.children[j as int].contains(c));
                assert(is_child_of(right, q, c));
                lemma_reached_below(right, initial, q, c);
                if ranked {
                    assert(rank(c) < rank(q));
                    assert forall|x: StateId| #[trigger]
                        before.has_visited(x) && !before.done@.contains(x) implies rank(x) > rank(
                        c,
                    ) by {
                        if x != q {
                            assert(!set![q].contains(x));
                            assert(start.has_visited(x) && !start.done@.contains(x));
                        }
                    }
                }
            }
            if !visit(w, s, c, Ghost(initial), Ghost(rank), Ghost(less)) {
                proof {
                    start.lemma_leads_twice(before, *w);
                }
                return false;
            }
            proof {
                start.lemma_leads_twice(before, *w);
                assert forall|i: int| 0 <= i < before.visited@.len()
                    && #[trigger] before.visited@[i] implies w.visited@[i] by {
                    let x = StateId(i as u32);
                    assert(before.has_visited(x));
                    assert(w.has_visited(x));
                }
                lemma_unmarked_less(before.visited@, w.visited@);
                if ranked {
                    lemma_settles_twice(start, before, *w, q);
                    let kept = |x: StateId| before.has_visited(x);
                    assert forall|i: int| 0 <= i < k implies is_rule_closed(
                        left,
                        right,
                        w.products@,
                        #[trigger] rules@[i] as int,
                    ) by {
                        let r = rules@[i] as int;
                        assert(s.by_result@[place as int]@[i] == rules@[i]);
                        assert forall|x: int| 0 <= x < right.children[r].len() implies kept(
                            #[trigger] right.children[r][x],
                        ) by {
                            assert(before.done@.contains(right.children[rules@[i] as int][x]));
                        }
                        lemma_stays_closed(left, right, before.products@, w.products@, kept, r);
                    }
                }
            }
            p += 1;
        }
        let ghost before = *w;
        let ok = process_rule(s, &mut w.products, &mut w.partners, j);
        proof {
            assert(w.model().visited =~= before.model().visited);
            let kept = |x: StateId| x != right.results[j as int];
            assert(is_grown(before.products@, w.products@, kept));
            let first = |x: StateId| start.has_visited(x);
            assert forall|x: StateId| #[trigger] first(x) implies kept(x) by {}
            lemma_grown_twice(start.products@, before.products@, w.products@, first, kept);
            assert forall|x: (StateId, StateId)| #[trigger] w.products@.contains(x) implies x.1.0
                < w.visited@.len() && w.visited@[x.1.0 as int] by {
                if kept(x.1) {
                    assert(before.products@.contains(x));
                } else {
                    assert(w.has_visited(q));
                }
            }
            assert(w.wf(*s, initial));
            assert(start.leads_to(*w)) by {
                assert forall|x: StateId| #[trigger] start.has_visited(x) implies w.has_visited(
                    x,
                ) by {
                    assert(before.has_visited(x));
                }
            }
            if ok && ranked {
                assert(set![q].contains(q));
                assert(!before.done@.contains(q));
                assert forall|x: StateId| #[trigger] before.done@.contains(x) implies kept(x) by {}
                lemma_stays_done(left, right, before.products@, w.products@, kept, before.done@);
                assert forall|i: int| 0 <= i < k + 1 implies is_rule_closed(
                    left,
                    right,
                    w.products@,
                    #[trigger] rules@[i] as int,
                ) by {
                    let r = rules@[i] as int;
                    assert(s.by_result@[place as int]@[i] == rules@[i]);
                    assert forall|x: int| 0 <= x < right.children[r].len() implies kept(
                        #[trigger] right.children[r][x],
                    ) by {
                        if i < k {
                            assert(before.done@.contains(right.children[rules@[i] as int][x]));
                        } else {
                            assert(before.done@.contains(children@[x]));
                        }
                    }
                    if i < k {
                        lemma_stays_closed(left, right, before.products@, w.products@, kept, r);
                    } else {
                        lemma_closed_now(left, right, before.products@, w.products@, kept, r);
                    }
                }
                assert forall|i: int, x: int|
                    0 <= i < k + 1 && 0 <= x < right.children[rules@[i] as int].len() implies
                    w.done@.contains(#[trigger] right.children[rules@[i] as int][x]) by {
                    if i == k {
                        assert(before.done@.contains(children@[x]));
                    }
                }
                assert(start.settles(*w, set![q])) by {
                    assert forall|x: StateId| #[trigger]
                        w.has_visited(x) && !w.done@.contains(x) implies set![q].contains(x) || (
                    start.has_visited(x) && !start.done@.contains(x)) by {
                        assert(before.has_visited(x));
                    }
                }
            }
        }
        if !ok {
            return false;
        }
        k += 1;
    }
    let ghost last = *w;
    proof {
        let m = bound(rules@, k as int);
        let n = right.children.len();
        assert(rises(s.by_result@[place as int]@));
        assert(k > 0 ==> s.by_result@[place as int]@[k - 1] == rules@[k - 1]);
        assert forall|x: int| m <= x < n implies #[trigger] right.results[x] != q by {
            if right.results[x] == q {
                assert(s.by_result@[right.results[x].0 as int]@.contains(x as usize));
                lemma_gap(rules@, k as int, x);
            }
        }
        walks::lemma_rules_skip(left, right, opened, q, m, n, less);
        w.done@ = w.done@.insert(q);
        assert(w.model().visited =~= last.model().visited);
        if ranked {
            assert forall|j: int|
                0 <= j < right.children.len() && w.done@.contains(
                    #[trigger] right.results[j],
                ) implies is_rule_closed(left, right, w.products@, j) && forall|p: int|
                0 <= p < right.children[j].len() ==> w.done@.contains(
                    #[trigger] right.children[j][p],
                ) by {
                if right.results[j] == q {
                    assert(s.by_result@[q.0 as int]@.contains(j as usize));
                    let i = choose|i: int| 0 <= i < rules@.len() && rules@[i] == j as usize;
                    assert(is_rule_closed(left, right, last.products@, rules@[i] as int));
                    assert forall|p: int| 0 <= p < right.children[j].len() implies w.done@.contains(
                        #[trigger] right.children[j][p],
                    ) by {
                        assert(last.done@.contains(right.children[rules@[i] as int][p]));
                    }
                } else {
                    assert(last.done@.contains(right.results[j]));
                }
            }
            assert(start.settles(*w, Set::empty())) by {
                assert forall|x: StateId| #[trigger]
                    w.has_visited(x) && !w.done@.contains(x) implies Set::<StateId>::empty().contains(
                    x,
                ) || (start.has_visited(x) && !start.done@.contains(x)) by {
                    assert(last.has_visited(x));
                    assert(!set![q].contains(x));
                }
                assert forall|x: StateId| #[trigger] w.done@.contains(x) implies start.done@.contains(
                    x,
                ) || !start.has_visited(x) by {
                    if x != q {
                        assert(last.done@.contains(x));
                    }
                }
            }
        }
        assert(start.leads_to(*w)) by {
            assert forall|x: StateId| #[trigger] start.has_visited(x) implies w.has_visited(x) by {
                assert(last.has_visited(x));
            }
        }
        assert(w.has_visited(q)) by {
            assert(last.has_visited(q));
        }
    }
    true
}

/// What settled before settles on, with one state still open.
proof fn lemma_settles_twice(start: Walk, mid: Walk, now: Walk, q: StateId)
    requires
        start.settles(mid, set![q]),
        mid.settles(now, Set::empty()),
        start.leads_to(mid),
        mid.has_visited(q),
    ensures
        start.settles(now, set![q]),
{
    let one = set![q];
    assert forall|x: StateId| #[trigger] start.done@.contains(x) implies now.done@.contains(x) by {
        assert(mid.done@.contains(x));
    }
    assert forall|x: StateId| #[trigger]
        now.has_visited(x) && !now.done@.contains(x) implies one.contains(x) || (start.has_visited(
        x,
    ) && !start.done@.contains(x)) by {
        assert(!Set::<StateId>::empty().contains(x));
        assert(mid.has_visited(x) && !mid.done@.contains(x));
    }
    assert forall|x: StateId| #[trigger] now.done@.contains(x) implies start.done@.contains(x)
        || !start.has_visited(x) by {
        if !mid.done@.contains(x) && start.has_visited(x) {
            assert(mid.has_visited(x));
        }
    }
    assert forall|x: StateId| #[trigger] one.contains(x) implies !now.done@.contains(x) by {
        assert(!mid.done@.contains(x));
    }
}

/// A rule whose results over some pairs were added is closed, if its children got no pairs.
proof fn lemma_closed_now(
    left: LeftModel,
    right: RightModel,
    before: Seq<(StateId, StateId)>,
    now: Seq<(StateId, StateId)>,
    kept: spec_fn(StateId) -> bool,
    j: int,
)
    requires
        is_grown(before, now, kept),
        0 <= j < right.children.len(),
        forall|p: int|
            0 <= p < right.children[j].len() ==> kept(#[trigger] right.children[j][p]),
        forall|i: int|
            0 <= i < left.children.len() && #[trigger] is_joinable(left, right, before, i, j)
                ==> now.contains((left.results[i], right.results[j])),
    ensures
        is_rule_closed(left, right, now, j),
{
    assert forall|i: int|
        0 <= i < left.children.len() && #[trigger] is_joinable(
            left,
            right,
            now,
            i,
            j,
        ) implies now.contains((left.results[i], right.results[j])) by {
        assert(is_joinable(left, right, before, i, j)) by {
            assert forall|p: int| 0 <= p < left.children[i].len() implies before.contains(
                (#[trigger] left.children[i][p], right.children[j][p]),
            ) by {
                assert(now.contains((left.children[i][p], right.children[j][p])));
                assert(kept(right.children[j][p]));
            }
        }
    }
}

/// The rules of each of the first `n` states, in order.
fn rules_by_result(right: &RightRules, n: usize) -> (r: Vec<Vec<usize>>)
    requires
        right@.is_table(),
        rules_below(right@, n as nat),
    ensures
        r@.len() == n,
        forall|q: int, k: int|
            0 <= q < n && 0 <= k < r@[q]@.len() ==> {
                let j = #[trigger] r@[q]@[k];
                j < right@.children.len() && right@.results[j as int].0 == q
            },
        forall|j: int|
            0 <= j < right@.children.len() ==> r@[(#[trigger] right@.results[j]).0 as int]@.contains(
                j as usize,
            ),
        forall|q: int| 0 <= q < n ==> rises(#[trigger] r@[q]@),
{
    let mut r: Vec<Vec<usize>> = Vec::new();
    while r.len() < n
        invariant
            r@.len() <= n,
            forall|q: int| 0 <= q < r@.len() ==> (#[trigger] r@[q])@.len() == 0,
        decreases n - r@.len(),
    {
        r.push(Vec::new());
    }
    let mut j: usize = 0;
    while j < right.results.len()
        invariant
            j <= right.results@.len(),
            right@.is_table(),
            rules_below(right@, n as nat),
            r@.len() == n,
            forall|q: int, k: int|
                0 <= q < n && 0 <= k < r@[q]@.len() ==> {
                    let i = #[trigger] r@[q]@[k];
                    i < j && right@.results[i as int].0 == q
                },
            forall|i: int|
                0 <= i < j ==> r@[(#[trigger] right@.results[i]).0 as int]@.contains(i as usize),
            forall|q: int| 0 <= q < n ==> rises(#[trigger] r@[q]@),
        decreases right.results@.len() - j,
    {
        let place: usize = right.results[j].index();
        assert(right@.results[j as int].0 < n);
        let ghost before = r@;
        r[place].push(j);
        proof {
            let now = r@;
            assert(now[place as int]@ == before[place as int]@.push(j));
            assert forall|q: int| 0 <= q < n implies rises(#[trigger] now[q]@) by {
                assert(rises(before[q]@));
                if q == place {
                    assert forall|i: int, k: int| 0 <= i < k < now[q]@.len() implies
                        #[trigger] now[q]@[i] < #[trigger] now[q]@[k] by {
                        assert(before[q]@[i] == now[q]@[i]);
                        if k < before[q]@.len() {
                            assert(before[q]@[i] < before[q]@[k]);
                        }
                    }
                } else {
                    assert(now[q]@ == before[q]@);
                }
            }
            assert forall|i: int| 0 <= i < j + 1 implies now[(#[trigger] right@.results[i]).0 as int]@.contains(
                i as usize,
            ) by {
                let q = right@.results[i].0 as int;
                if i == j {
                    assert(now[q]@[before[q]@.len() as int] == j);
                } else {
                    assert(before[q]@.contains(i as usize));
                    let k = choose|k: int| 0 <= k < before[q]@.len() && before[q]@[k] == i as usize;
                    assert(now[q]@[k] == i as usize);
                }
            }
            assert forall|q: int, k: int| 0 <= q < n && 0 <= k < now[q]@.len() implies {
                let i = #[trigger] now[q]@[k];
                i < j + 1 && right@.results[i as int].0 == q
            } by {
                if k < before[q]@.len() {
                    assert(before[q]@[k] == now[q]@[k]);
                }
            }
        }
        j += 1;
    }
    r
}

/// Whether rules give more pairs than can be numbered.
pub open spec fn has_too_many(left: LeftModel, right: RightModel) -> bool {
    exists|pairs: Seq<(StateId, StateId)>| #[trigger]
        are_justified(left, right, pairs) && pairs.no_duplicates() && pairs.len() >= u32::MAX
}

/// Every state on a descent from initial states that are done is done.
proof fn lemma_descent_done(
    left: LeftModel,
    right: RightModel,
    pairs: Seq<(StateId, StateId)>,
    done: Set<StateId>,
    initial: Seq<StateId>,
    path: Seq<StateId>,
)
    requires
        right.is_table(),
        is_done(left, right, pairs, done),
        forall|i: int| 0 <= i < initial.len() ==> done.contains(#[trigger] initial[i]),
        is_descent(right, initial, path),
    ensures
        done.contains(path.last()),
    decreases path.len(),
{
    if path.len() == 1 {
        let i = choose|i: int| 0 <= i < initial.len() && initial[i] == path[0];
        assert(done.contains(initial[i]));
    } else {
        let rest = path.drop_last();
        lemma_descent_done(left, right, pairs, done, initial, rest);
        let parent = path[path.len() - 2];
        assert(rest.last() == parent);
        let child = path.last();
        let j = choose|j: int|
            0 <= j < right.children.len() && right.results[j] == parent
                && #[trigger] right.children[j].contains(child);
        let p = choose|p: int| 0 <= p < right.children[j].len() && right.children[j][p] == child;
        assert(done.contains(right.results[j]));
        assert(done.contains(right.children[j][p]));
    }
}

impl ReplayData {
    /// Collects the products of the rules on both sides, from the initial states of the right
    /// side down, and the partners of each right state.
    ///
    /// A right state is visited once: its rules are taken in order, each after its children
    /// were visited, and each adds the products of the left rules that join with it, in their
    /// order. So each product comes after the products that it is made of. If no right state
    /// lies below itself, none is missing that has a right state below an initial one.
    pub fn collect(
        left: LeftRules,
        right: RightRules,
        initial: &Vec<StateId>,
        states: usize,
    ) -> (r: Option<Self>)
        requires
            left@.is_table(),
            right@.is_table(),
            rules_below(right@, states as nat),
            states < StateId::STUCK,
            forall|i: int|
                0 <= i < left@.results.len() ==> (#[trigger] left@.results[i]).0 < StateId::STUCK,
            forall|i: int| 0 <= i < initial@.len() ==> (#[trigger] initial@[i]).0 < states,
        ensures
            match r {
                Some(data) => {
                    &&& data@.left == left@
                    &&& data@.right == right@
                    &&& data@.partners.len() == states
                    &&& data@.pairs == walks::collected(left@, right@, initial@, states as nat)
                    &&& data@.pairs.no_duplicates()
                    &&& are_partners(data@.partners, data@.pairs)
                    &&& are_justified(left@, right@, data@.pairs)
                    &&& forall|x: (StateId, StateId)| #[trigger]
                        data@.pairs.contains(x) ==> is_reached(right@, initial@, x.1)
                    &&& is_acyclic(right@) ==> forall|j: int|
                        0 <= j < right@.children.len() && is_reached(
                            right@,
                            initial@,
                            #[trigger] right@.results[j],
                        ) ==> is_rule_closed(left@, right@, data@.pairs, j)
                },
                None => has_too_many(left@, right@),
            },
    {
        let ghost l = left@;
        let ghost m = right@;
        let ghost rank = choose|rank: spec_fn(StateId) -> nat| #[trigger] is_ranked(m, rank);
        let count: usize = right.children.len();
        assert(right@.children.len() == count);
        let w: Walk;
        {
            let sides = Sides {
                left: &left,
                right: &right,
                left_index: ChildIndex::build(&left.children),
                by_result: rules_by_result(&right, states),
            };
            let mut partners: Vec<PartnerSet> = Vec::new();
            let mut visited: Vec<bool> = Vec::new();
            while visited.len() < states
                invariant
                    visited@.len() <= states,
                    partners@.len() == visited@.len(),
                    forall|i: int| 0 <= i < visited@.len() ==> !#[trigger] visited@[i],
                    forall|i: int| 0 <= i < partners@.len() ==> (#[trigger] partners@[i])@.len() == 0,
                decreases states - visited@.len(),
            {
                visited.push(false);
                partners.push(PartnerSet::new());
            }
            let mut walk = Walk {
                products: ProductMap::new(),
                partners,
                visited,
                done: Ghost(Set::empty()),
            };
            assert(walk.wf(sides, initial@));
            assert(is_done(l, m, walk.products@, walk.done@));
            let ghost nothing = WalkModel { pairs: Seq::empty(), visited: Set::empty() };
            proof {
                assert(walk.model().pairs =~= nothing.pairs);
                assert(walk.model().visited =~= nothing.visited);
            }
            let mut k: usize = 0;
            while k < initial.len()
                invariant
                    k <= initial@.len(),
                    l == left@,
                    m == right@,
                    sides.wf(),
                    sides.left@ == l,
                    sides.right@ == m,
                    sides.by_result@.len() == states,
                    walk.wf(sides, initial@),
                    forall|i: int| 0 <= i < initial@.len() ==> (#[trigger] initial@[i]).0 < states,
                    is_ranked(m, rank) ==> is_done(l, m, walk.products@, walk.done@),
                    is_ranked(m, rank) ==> forall|x: StateId| #[trigger]
                        walk.has_visited(x) ==> walk.done@.contains(x),
                    is_ranked(m, rank) ==> forall|i: int|
                        0 <= i < k ==> walk.done@.contains(#[trigger] initial@[i]),
                    walk.model() == walks::after_children(
                        l,
                        m,
                        nothing,
                        initial@,
                        k as nat,
                        (states + 1) as nat,
                    ),
                decreases initial@.len() - k,
            {
                let q = initial[k];
                let ghost before = walk;
                proof {
                    let path = seq![q];
                    assert(initial@.contains(q));
                    assert(is_descent(m, initial@, path));
                    assert(path.last() == q);
                }
                proof {
                    lemma_unmarked_bounded(walk.visited@);
                }
                let ghost depth = (states + 1) as nat;
                if !visit(&mut walk, &sides, q, Ghost(initial@), Ghost(rank), Ghost(depth)) {
                    assert(are_justified(l, m, walk.products@));
                    return None;
                }
                proof {
                    if is_ranked(m, rank) {
                        assert forall|x: StateId| #[trigger] walk.has_visited(
                            x,
                        ) implies walk.done@.contains(x) by {
                            assert(!Set::<StateId>::empty().contains(x));
                        }
                    }
                }
                k += 1;
            }
            w = walk;
        }
        let Walk { products, partners, visited: _, done: Ghost(done) } = w;
        let ghost listed = products@;
        let kept = products.pairs();
        assert(kept@.no_duplicates());
        proof {
            if is_acyclic(m) {
                assert(is_ranked(m, rank));
                assert forall|j: int|
                    0 <= j < m.children.len() && is_reached(
                        m,
                        initial@,
                        #[trigger] m.results[j],
                    ) implies is_rule_closed(l, m, listed, j) by {
                    let path = choose|path: Seq<StateId>| #[trigger]
                        is_descent(m, initial@, path) && path.last() == m.results[j];
                    lemma_descent_done(l, m, listed, done, initial@, path);
                }
            }
        }
        Some(ReplayData::new(left, right, partners, products))
    }
}

} // verus!
