//! The data of a replay, and what it visits.
use super::candidates::Event;
use super::child_index;
use super::child_index::ChildIndex;
use super::joins::{LeftModel, LeftRules};
use super::partners::PartnerSet;
use super::products::ProductMap;
use crate::ids::{StateId, Symbol};
use crate::symbol_set::SymbolSet;
use vstd::prelude::*;

verus! {

/// The condensed rules on the right, by columns.
pub struct RightRules {
    pub symbols: Vec<SymbolSet>,
    pub children: Vec<Vec<StateId>>,
    pub results: Vec<StateId>,
}

/// The condensed rules on the right, by columns.
pub struct RightModel {
    pub symbols: Seq<Set<Symbol>>,
    pub children: Seq<Seq<StateId>>,
    pub results: Seq<StateId>,
}

/// The symbols of each rule.
pub open spec fn symbol_sets(v: Seq<SymbolSet>) -> Seq<Set<Symbol>> {
    Seq::new(v.len(), |i: int| v[i]@)
}

impl View for RightRules {
    type V = RightModel;

    open spec fn view(&self) -> RightModel {
        RightModel {
            symbols: symbol_sets(self.symbols@),
            children: child_index::lists(self.children@),
            results: self.results@,
        }
    }
}

impl RightModel {
    /// Whether the columns belong together.
    pub open spec fn is_table(self) -> bool {
        self.symbols.len() == self.children.len() && self.results.len() == self.children.len()
    }
}

/// The states in each set.
pub open spec fn partner_lists(v: Seq<PartnerSet>) -> Seq<Seq<StateId>> {
    Seq::new(v.len(), |i: int| v[i]@)
}

/// The data of a replay.
pub struct ReplayModel {
    pub left: LeftModel,
    pub right: RightModel,
    /// For each right state, the left states that it was seen with.
    pub partners: Seq<Seq<StateId>>,
    pub pairs: Seq<(StateId, StateId)>,
}

/// The data of a replay.
pub struct ReplayData {
    pub(super) left: LeftRules,
    pub(super) right: RightRules,
    pub(super) partners: Vec<PartnerSet>,
    pub(super) products: ProductMap,
    pub(super) left_index: ChildIndex,
    pub(super) right_index: ChildIndex,
}

impl View for ReplayData {
    type V = ReplayModel;

    closed spec fn view(&self) -> ReplayModel {
        ReplayModel {
            left: self.left@,
            right: self.right@,
            partners: partner_lists(self.partners@),
            pairs: self.products@,
        }
    }
}

/// A rule on the right with an event's state among its children.
#[derive(Clone, Copy, PartialEq, Eq, Structural, Debug)]
pub struct Visit {
    pub event: Event,
    pub position: usize,
    pub rule: usize,
}

/// The visits of an event to the listed rules, in one place.
pub open spec fn visits_at(e: Event, p: usize, ids: Seq<usize>) -> Seq<Visit> {
    Seq::new(ids.len(), |k: int| Visit { event: e, position: p, rule: ids[k] })
}

/// The visits of an event in the listed places.
pub open spec fn visits_in(m: ReplayModel, e: Event, places: Seq<usize>) -> Seq<Visit>
    decreases places.len(),
{
    if places.len() == 0 {
        Seq::empty()
    } else {
        visits_in(m, e, places.drop_last()) + visits_at(
            e,
            places.last(),
            child_index::with_child(m.right.children, places.last(), e.right),
        )
    }
}

/// The visits of events: for each place in which a rule on the left has the event's left
/// state, the rules on the right with its right state there.
pub open spec fn visits_of(m: ReplayModel, events: Seq<Event>) -> Seq<Visit>
    decreases events.len(),
{
    if events.len() == 0 {
        Seq::empty()
    } else {
        visits_of(m, events.drop_last()) + visits_in(
            m,
            events.last(),
            child_index::places(m.left.children, events.last().left),
        )
    }
}

/// Whether a visit is to a rule with the event's state in its place.
pub open spec fn is_visit(m: ReplayModel, v: Visit) -> bool {
    &&& v.rule < m.right.children.len()
    &&& v.position < m.right.children[v.rule as int].len()
    &&& m.right.children[v.rule as int][v.position as int] == v.event.right
}

impl ReplayData {
    #[verifier::type_invariant]
    pub(super) closed spec fn wf(&self) -> bool {
        &&& self.left@.is_table()
        &&& self.right@.is_table()
        &&& self.left_index@ == self.left@.children
        &&& self.right_index@ == self.right@.children
    }

    /// What the data say.
    pub(super) proof fn lemma_fields(&self)
        requires
            self.wf(),
        ensures
            self@ == (ReplayModel {
                left: self.left@,
                right: self.right@,
                partners: partner_lists(self.partners@),
                pairs: self.products@,
            }),
            self.left@.is_table(),
            self.right@.is_table(),
            self.left_index@ == self.left@.children,
            self.right_index@ == self.right@.children,
    {
    }

    /// Indexes the rules on both sides.
    pub fn new(
        left: LeftRules,
        right: RightRules,
        partners: Vec<PartnerSet>,
        products: ProductMap,
    ) -> (r: Self)
        requires
            left@.is_table(),
            right@.is_table(),
        ensures
            r@.left == left@,
            r@.right == right@,
            r@.partners == partner_lists(partners@),
            r@.pairs == products@,
    {
        let left_index = ChildIndex::build(&left.children);
        let right_index = ChildIndex::build(&right.children);
        ReplayData { left, right, partners, products, left_index, right_index }
    }

    /// One event for each product, in order, up to a number.
    pub fn events(&self, max_events: Option<usize>) -> (r: Vec<Event>)
        ensures
            r@.len() == (match max_events {
                Some(n) => if n < self@.pairs.len() {
                    n as nat
                } else {
                    self@.pairs.len()
                },
                None => self@.pairs.len(),
            }),
            forall|i: int|
                0 <= i < r@.len() ==> #[trigger] r@[i] == (Event {
                    product: StateId(i as u32),
                    left: self@.pairs[i].0,
                    right: self@.pairs[i].1,
                }),
    {
        let pairs = self.products.pairs();
        let count: usize = match max_events {
            Some(n) => if n < pairs.len() {
                n
            } else {
                pairs.len()
            },
            None => pairs.len(),
        };
        let mut r: Vec<Event> = Vec::new();
        let mut i: usize = 0;
        while i < count
            invariant
                i <= count <= pairs@.len(),
                pairs@ == self@.pairs,
                r@.len() == i,
                forall|k: int|
                    0 <= k < i ==> #[trigger] r@[k] == (Event {
                        product: StateId(k as u32),
                        left: self@.pairs[k].0,
                        right: self@.pairs[k].1,
                    }),
            decreases count - i,
        {
            r.push(Event { product: StateId(i as u32), left: pairs[i].0, right: pairs[i].1 });
            i += 1;
        }
        r
    }

    /// The visits of events.
    pub fn visits(&self, events: &Vec<Event>) -> (r: Vec<Visit>)
        ensures
            r@ == visits_of(self@, events@),
            forall|k: int| 0 <= k < r@.len() ==> is_visit(self@, #[trigger] r@[k]),
    {
        proof {
            use_type_invariant(self);
        }
        let ghost m = self@;
        let mut r: Vec<Visit> = Vec::new();
        let mut i: usize = 0;
        assert(events@.take(0) =~= Seq::empty());
        assert(r@ =~= Seq::empty());
        while i < events.len()
            invariant
                i <= events@.len(),
                m == self@,
                self.wf(),
                r@ == visits_of(m, events@.take(i as int)),
                forall|k: int| 0 <= k < r@.len() ==> is_visit(m, #[trigger] r@[k]),
            decreases events@.len() - i,
        {
            let e = events[i];
            let ghost start = r@;
            proof {
                assert(events@.take(i + 1).drop_last() =~= events@.take(i as int));
                assert(events@.take(i + 1).last() == e);
            }
            let places = self.left_index.places_of(e.left);
            let mut j: usize = 0;
            assert(places@.take(0) =~= Seq::empty());
            assert(start + visits_in(m, e, places@.take(0)) =~= start);
            while j < places.len()
                invariant
                    j <= places@.len(),
                    m == self@,
                    self.wf(),
                    r@ == start + visits_in(m, e, places@.take(j as int)),
                    forall|k: int| 0 <= k < r@.len() ==> is_visit(m, #[trigger] r@[k]),
                decreases places@.len() - j,
            {
                let p: usize = places[j];
                let ids = self.right_index.find(p, e.right);
                let ghost earlier = r@;
                let ghost found = visits_at(e, p, ids@);
                let rule_count: usize = self.right.children.len();
                proof {
                    assert(places@.take(j + 1).drop_last() =~= places@.take(j as int));
                    assert(places@.take(j + 1).last() == p);
                    assert(earlier + found.take(0) =~= earlier);
                }
                let mut k: usize = 0;
                while k < ids.len()
                    invariant
                        k <= ids@.len(),
                        m == self@,
                        self.wf(),
                        rule_count == m.right.children.len(),
                        ids@ == child_index::with_child(m.right.children, p, e.right),
                        found == visits_at(e, p, ids@),
                        r@ == earlier + found.take(k as int),
                        forall|k: int| 0 <= k < r@.len() ==> is_visit(m, #[trigger] r@[k]),
                    decreases ids@.len() - k,
                {
                    proof {
                        child_index::lemma_with_child(
                            m.right.children,
                            p,
                            e.right,
                            ids@[k as int],
                        );
                        assert(ids@.contains(ids@[k as int]));
                    }
                    let ghost last = r@;
                    r.push(Visit { event: e, position: p, rule: ids[k] });
                    proof {
                        assert(found.take(k + 1) =~= found.take(k as int).push(found[k as int]));
                        assert(r@ =~= last.push(found[k as int]));
                        assert(r@ =~= earlier + found.take(k + 1));
                    }
                    k += 1;
                }
                proof {
                    assert(found.take(k as int) =~= found);
                    assert(r@ =~= start + visits_in(m, e, places@.take(j + 1)));
                }
                j += 1;
            }
            assert(places@.take(j as int) =~= places@);
            i += 1;
        }
        assert(events@.take(i as int) =~= events@);
        r
    }
}

} // verus!
