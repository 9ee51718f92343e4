//! Joining the rules of a grammar with sets of states.
use super::child_index;
use super::child_index::ChildIndex;
use super::partners::PartnerSet;
use crate::ids::{StateId, Symbol};
use crate::symbol_set::SymbolSet;
use vstd::prelude::*;

verus! {

/// The rules of a grammar, by columns.
pub struct LeftRules {
    pub symbols: Vec<Symbol>,
    pub children: Vec<Vec<StateId>>,
    pub results: Vec<StateId>,
}

/// The rules of a grammar, by columns.
pub struct LeftModel {
    pub symbols: Seq<Symbol>,
    pub children: Seq<Seq<StateId>>,
    pub results: Seq<StateId>,
}

impl View for LeftRules {
    type V = LeftModel;

    open spec fn view(&self) -> LeftModel {
        LeftModel {
            symbols: self.symbols@,
            children: child_index::lists(self.children@),
            results: self.results@,
        }
    }
}

impl LeftModel {
    /// Whether the columns belong together.
    pub open spec fn is_table(self) -> bool {
        self.symbols.len() == self.children.len() && self.results.len() == self.children.len()
    }
}

/// What is asked of one child of a rule.
pub enum Slot<'p> {
    Exactly(StateId),
    Within(&'p PartnerSet),
    Free,
}

/// What is asked of one child of a rule.
pub enum SlotModel {
    Exactly(StateId),
    Within(Seq<StateId>),
    Free,
}

impl<'p> View for Slot<'p> {
    type V = SlotModel;

    open spec fn view(&self) -> SlotModel {
        match *self {
            Slot::Exactly(q) => SlotModel::Exactly(q),
            Slot::Within(s) => SlotModel::Within(s@),
            Slot::Free => SlotModel::Free,
        }
    }
}

impl SlotModel {
    /// Whether a child is as asked.
    pub open spec fn admits(self, q: StateId) -> bool {
        match self {
            SlotModel::Exactly(x) => q == x,
            SlotModel::Within(s) => s.contains(q),
            SlotModel::Free => true,
        }
    }
}

/// What is asked of the children of a rule.
pub open spec fn slot_models(slots: Seq<Slot<'_>>) -> Seq<SlotModel> {
    Seq::new(slots.len(), |i: int| slots[i]@)
}

/// Whether a rule is as asked.
pub open spec fn is_match(
    left: LeftModel,
    i: int,
    symbols: Set<Symbol>,
    slots: Seq<SlotModel>,
) -> bool {
    &&& symbols.contains(left.symbols[i])
    &&& left.children[i].len() == slots.len()
    &&& forall|p: int| 0 <= p < slots.len() ==> (#[trigger] slots[p]).admits(left.children[i][p])
}

/// The rules below `n` that are as asked, in increasing order.
pub open spec fn matches_below(
    left: LeftModel,
    symbols: Set<Symbol>,
    slots: Seq<SlotModel>,
    n: nat,
) -> Seq<usize>
    decreases n,
{
    if n == 0 {
        Seq::empty()
    } else {
        let rest = matches_below(left, symbols, slots, (n - 1) as nat);
        if is_match(left, n - 1, symbols, slots) {
            rest.push((n - 1) as usize)
        } else {
            rest
        }
    }
}

/// The rules that are as asked, in increasing order.
pub open spec fn matches(
    left: LeftModel,
    symbols: Set<Symbol>,
    slots: Seq<SlotModel>,
) -> Seq<usize> {
    matches_below(left, symbols, slots, left.children.len())
}

/// The rules in a list that are as asked.
spec fn kept(
    left: LeftModel,
    symbols: Set<Symbol>,
    slots: Seq<SlotModel>,
    list: Seq<usize>,
) -> Seq<usize>
    decreases list.len(),
{
    if list.len() == 0 {
        Seq::empty()
    } else {
        let rest = kept(left, symbols, slots, list.drop_last());
        if is_match(left, list.last() as int, symbols, slots) {
            rest.push(list.last())
        } else {
            rest
        }
    }
}

/// Among the rules with a child that is asked for are all that are as asked.
proof fn lemma_kept(
    left: LeftModel,
    symbols: Set<Symbol>,
    slots: Seq<SlotModel>,
    p: usize,
    q: StateId,
    n: nat,
)
    requires
        p < slots.len(),
        slots[p as int] == SlotModel::Exactly(q),
        n <= left.children.len() <= usize::MAX,
    ensures
        kept(left, symbols, slots, child_index::with_child(left.children.take(n as int), p, q))
            == matches_below(left, symbols, slots, n),
    decreases n,
{
    if n > 0 {
        lemma_kept(left, symbols, slots, p, q, (n - 1) as nat);
        let all = left.children.take(n as int);
        assert(all.drop_last() =~= left.children.take(n - 1));
        assert(all.last() == left.children[n - 1]);
        let found = child_index::with_child(all, p, q);
        let rest = child_index::with_child(all.drop_last(), p, q);
        if is_match(left, n - 1, symbols, slots) {
            assert(slots[p as int].admits(left.children[n - 1][p as int]));
        }
        if p < all.last().len() && all.last()[p as int] == q {
            assert(found.drop_last() =~= rest);
            assert(found.last() == (n - 1) as usize);
        }
    }
}

/// A rule that is found is as asked.
pub proof fn lemma_matches(
    left: LeftModel,
    symbols: Set<Symbol>,
    slots: Seq<SlotModel>,
    n: nat,
)
    requires
        n <= left.children.len() <= usize::MAX,
    ensures
        forall|k: int|
            0 <= k < matches_below(left, symbols, slots, n).len() ==> {
                let i = #[trigger] matches_below(left, symbols, slots, n)[k];
                i < n && is_match(left, i as int, symbols, slots)
            },
    decreases n,
{
    if n > 0 {
        lemma_matches(left, symbols, slots, (n - 1) as nat);
        let rest = matches_below(left, symbols, slots, (n - 1) as nat);
        assert forall|k: int| 0 <= k < matches_below(left, symbols, slots, n).len() implies {
            let i = #[trigger] matches_below(left, symbols, slots, n)[k];
            i < n && is_match(left, i as int, symbols, slots)
        } by {
            if k < rest.len() {
                assert(matches_below(left, symbols, slots, n)[k] == rest[k]);
            }
        }
    }
}

impl<'p> Slot<'p> {
    /// Whether a child is as asked.
    fn admits_state(&self, q: StateId) -> (b: bool)
        ensures
            b == self@.admits(q),
    {
        match self {
            Slot::Exactly(x) => *x == q,
            Slot::Within(s) => s.contains(q),
            Slot::Free => true,
        }
    }
}

impl LeftRules {
    /// Whether a rule is as asked.
    fn matches_rule(&self, i: usize, symbols: &SymbolSet, slots: &Vec<Slot<'_>>) -> (b: bool)
        requires
            self@.is_table(),
            i < self@.children.len(),
        ensures
            b == is_match(self@, i as int, symbols@, slot_models(slots@)),
    {
        let ghost models = slot_models(slots@);
        if !symbols.contains(self.symbols[i]) {
            return false;
        }
        let children = &self.children[i];
        assert(self@.children[i as int] == children@);
        if children.len() != slots.len() {
            return false;
        }
        let mut p: usize = 0;
        while p < slots.len()
            invariant
                p <= slots@.len(),
                children@.len() == slots@.len(),
                self@.children[i as int] == children@,
                models == slot_models(slots@),
                forall|k: int| 0 <= k < p ==> (#[trigger] models[k]).admits(children@[k]),
            decreases slots@.len() - p,
        {
            assert(models[p as int] == slots@[p as int]@);
            if !slots[p].admits_state(children[p]) {
                assert(!models[p as int].admits(self@.children[i as int][p as int]));
                return false;
            }
            p += 1;
        }
        true
    }

    /// The rules that are as asked.
    pub fn join(&self, index: &ChildIndex, symbols: &SymbolSet, slots: &Vec<Slot<'_>>) -> (r: Vec<
        usize,
    >)
        requires
            self@.is_table(),
            index@ == self@.children,
        ensures
            r@ == matches(self@, symbols@, slot_models(slots@)),
    {
        let ghost models = slot_models(slots@);
        let ghost left = self@;
        let count: usize = self.children.len();
        let mut r: Vec<usize> = Vec::new();
        let mut p: usize = 0;
        while p < slots.len()
            invariant
                p <= slots@.len(),
                models == slot_models(slots@),
                left == self@,
                left.is_table(),
                count == left.children.len(),
                index@ == left.children,
                r@.len() == 0,
            decreases slots@.len() - p,
        {
            if let Slot::Exactly(q) = &slots[p] {
                let list = index.find(p, *q);
                proof {
                    assert(models[p as int] == SlotModel::Exactly(*q));
                    lemma_kept(left, symbols@, models, p, *q, count as nat);
                    assert(left.children.take(count as int) =~= left.children);
                    assert(list@.take(0) =~= Seq::empty());
                    assert(r@ =~= Seq::empty());
                }
                let mut k: usize = 0;
                while k < list.len()
                    invariant
                        k <= list@.len(),
                        models == slot_models(slots@),
                        left == self@,
                        left.is_table(),
                        count == left.children.len(),
                        list@ == child_index::with_child(left.children, p, *q),
                        r@ == kept(left, symbols@, models, list@.take(k as int)),
                    decreases list@.len() - k,
                {
                    proof {
                        child_index::lemma_with_child(left.children, p, *q, list@[k as int]);
                        assert(list@.contains(list@[k as int]));
                        assert(list@.take(k + 1).drop_last() =~= list@.take(k as int));
                        assert(list@.take(k + 1).last() == list@[k as int]);
                    }
                    if self.matches_rule(list[k], symbols, slots) {
                        r.push(list[k]);
                    }
                    k += 1;
                }
                assert(list@.take(k as int) =~= list@);
                return r;
            }
            p += 1;
        }
        assert(r@ =~= Seq::empty());
        let mut i: usize = 0;
        while i < count
            invariant
                i <= count,
                models == slot_models(slots@),
                left == self@,
                left.is_table(),
                count == left.children.len(),
                r@ == matches_below(left, symbols@, models, i as nat),
            decreases count - i,
        {
            if self.matches_rule(i, symbols, slots) {
                r.push(i);
            }
            i += 1;
        }
        r
    }
}

} // verus!
