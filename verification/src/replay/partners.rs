//! Sets of states that were seen together with a state.
use crate::ids::StateId;
use crate::tables;
use fixedbitset::FixedBitSet;
use vstd::prelude::*;

verus! {

/// The different states of a list, each where it occurs first.
pub open spec fn firsts(list: Seq<StateId>) -> Seq<StateId>
    decreases list.len(),
{
    if list.len() == 0 {
        Seq::empty()
    } else {
        let rest = firsts(list.drop_last());
        if rest.contains(list.last()) {
            rest
        } else {
            rest.push(list.last())
        }
    }
}

pub proof fn lemma_firsts(list: Seq<StateId>)
    ensures
        forall|q: StateId| #[trigger] firsts(list).contains(q) <==> list.contains(q),
    decreases list.len(),
{
    if list.len() > 0 {
        let short = list.drop_last();
        lemma_firsts(short);
        let rest = firsts(short);
        assert forall|q: StateId| #[trigger] firsts(list).contains(q) <==> list.contains(q) by {
            if list.contains(q) {
                if rest.contains(q) {
                    let j = choose|j: int| 0 <= j < rest.len() && rest[j] == q;
                    assert(firsts(list)[j] == q);
                } else {
                    let k = choose|k: int| 0 <= k < list.len() && list[k] == q;
                    if k < short.len() {
                        assert(short[k] == q);
                        assert(short.contains(q));
                    }
                    assert(firsts(list)[firsts(list).len() - 1] == q);
                }
            }
            if firsts(list).contains(q) {
                let j = choose|j: int| 0 <= j < firsts(list).len() && firsts(list)[j] == q;
                if j < rest.len() {
                    assert(rest[j] == q);
                    assert(rest.contains(q));
                    let k = choose|k: int| 0 <= k < short.len() && short[k] == q;
                    assert(list[k] == q);
                } else {
                    assert(list[list.len() - 1] == q);
                }
            }
        }
    }
}

/// States in the order in which they came, each once.
pub struct PartnerSet {
    states: Vec<StateId>,
    bits: FixedBitSet,
}

impl View for PartnerSet {
    type V = Seq<StateId>;

    closed spec fn view(&self) -> Seq<StateId> {
        self.states@
    }
}

/// Whether the bits mark exactly the listed states.
spec fn marks(bits: FixedBitSet, states: Seq<StateId>) -> bool {
    &&& states.no_duplicates()
    &&& forall|i: int|
        0 <= i < states.len() ==> tables::bit_ones(bits).contains(
            (#[trigger] states[i]).0 as usize,
        )
    &&& forall|k: usize| #[trigger]
        tables::bit_ones(bits).contains(k) ==> k <= u32::MAX && states.contains(StateId(k as u32))
}

impl PartnerSet {
    #[verifier::type_invariant]
    spec fn wf(&self) -> bool {
        marks(self.bits, self.states@)
    }

    /// The empty set.
    pub fn new() -> (s: Self)
        ensures
            s@ == Seq::<StateId>::empty(),
    {
        PartnerSet { states: Vec::new(), bits: FixedBitSet::with_capacity(0) }
    }

    /// Adds a state; says whether it is new.
    pub fn insert(&mut self, state: StateId) -> (fresh: bool)
        requires
            state.0 < StateId::STUCK,
        ensures
            fresh == !old(self)@.contains(state),
            final(self)@ == (if fresh {
                old(self)@.push(state)
            } else {
                old(self)@
            }),
    {
        proof {
            use_type_invariant(&*self);
        }
        let mut own = PartnerSet::new();
        std::mem::swap(self, &mut own);
        proof {
            use_type_invariant(&own);
        }
        let PartnerSet { mut states, mut bits } = own;
        let ghost before = states@;
        let place: usize = state.index();
        if bits.contains(place) {
            proof {
                assert(before.contains(StateId(place as u32)));
            }
            *self = PartnerSet { states, bits };
            return false;
        }
        let ghost old_ones = tables::bit_ones(bits);
        proof {
            if before.contains(state) {
                let i = choose|i: int| 0 <= i < before.len() && before[i] == state;
                assert(tables::bit_ones(bits).contains(before[i].0 as usize));
            }
        }
        if bits.len() <= place {
            bits.grow(place + 1);
        }
        bits.insert(place);
        states.push(state);
        proof {
            assert(states@ == before.push(state));
            assert forall|k: usize| #[trigger] tables::bit_ones(bits).contains(k) implies k
                <= u32::MAX && states@.contains(StateId(k as u32)) by {
                if k == place {
                    assert(states@[before.len() as int] == state);
                } else {
                    assert(old_ones.contains(k));
                    let i = choose|i: int|
                        0 <= i < before.len() && before[i] == StateId(k as u32);
                    assert(states@[i] == StateId(k as u32));
                }
            }
            assert forall|i: int| 0 <= i < states@.len() implies tables::bit_ones(bits).contains(
                (#[trigger] states@[i]).0 as usize,
            ) by {
                if i < before.len() {
                    assert(before[i] == states@[i]);
                }
            }
        }
        *self = PartnerSet { states, bits };
        true
    }

    /// Whether a state is in the set.
    pub fn contains(&self, state: StateId) -> (b: bool)
        ensures
            b == self@.contains(state),
    {
        proof {
            use_type_invariant(self);
            if self.states@.contains(state) {
                let i = choose|i: int| 0 <= i < self.states@.len() && self.states@[i] == state;
                assert(tables::bit_ones(self.bits).contains(self.states@[i].0 as usize));
            }
        }
        self.bits.contains(state.index())
    }

    /// The number of states.
    pub fn len(&self) -> (n: usize)
        ensures
            n == self@.len(),
    {
        self.states.len()
    }

    pub fn is_empty(&self) -> (b: bool)
        ensures
            b == (self@.len() == 0),
    {
        self.states.len() == 0
    }

    /// The states in the order in which they came.
    pub fn states(&self) -> (r: &Vec<StateId>)
        ensures
            r@ == self@,
            r@.no_duplicates(),
    {
        proof {
            use_type_invariant(self);
        }
        &self.states
    }
}

} // verus!
