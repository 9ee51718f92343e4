//! Collections of outside crates: what they hold, and the calls made on them.
use crate::ids::StateId;
use fixedbitset::FixedBitSet;
use hashbrown::HashMap;
use rustc_hash::FxBuildHasher;
use smallvec::SmallVec;
use vstd::prelude::*;

verus! {

/// The bit set of the `fixedbitset` crate.
#[verifier::external_type_specification]
#[verifier::external_body]
pub struct ExFixedBitSet(FixedBitSet);

/// The positions of the enabled bits of a bit set.
pub uninterp spec fn bit_ones(b: FixedBitSet) -> Set<usize>;

/// The number of bits, enabled or not, that a bit set has room for.
pub uninterp spec fn bit_len(b: FixedBitSet) -> nat;

/// `FixedBitSet::with_capacity`: a set of `bits` disabled bits.
pub assume_specification[ FixedBitSet::with_capacity ](bits: usize) -> (b: FixedBitSet)
    ensures
        bit_ones(b) == Set::<usize>::empty(),
        bit_len(b) == bits,
;

/// `FixedBitSet::contains`: whether a bit is enabled; bits past the end are not.
pub assume_specification[ FixedBitSet::contains ](b: &FixedBitSet, bit: usize) -> (r: bool)
    ensures
        r == bit_ones(*b).contains(bit),
;

/// `FixedBitSet::len`: the number of bits the set has room for.
pub assume_specification[ FixedBitSet::len ](b: &FixedBitSet) -> (n: usize)
    ensures
        n == bit_len(*b),
;

/// `FixedBitSet::insert`: enables one bit, which must lie inside the set.
pub assume_specification[ FixedBitSet::insert ](b: &mut FixedBitSet, bit: usize)
    requires
        (bit as nat) < bit_len(*old(b)),
    ensures
        bit_ones(*final(b)) == bit_ones(*old(b)).insert(bit),
        bit_len(*final(b)) == bit_len(*old(b)),
;

/// `FixedBitSet::grow`: makes room for `bits` bits; the new ones are disabled
/// and a smaller number changes nothing.
pub assume_specification[ FixedBitSet::grow ](b: &mut FixedBitSet, bits: usize)
    ensures
        bit_ones(*final(b)) == bit_ones(*old(b)),
        bit_len(*final(b)) == if (bits as nat) > bit_len(*old(b)) {
            bits as nat
        } else {
            bit_len(*old(b))
        },
;

/// `FixedBitSet::ones`: the enabled positions in increasing order, once each.
#[verifier::external_body]
pub(crate) fn bit_positions(b: &FixedBitSet) -> (v: Vec<usize>)
    ensures
        forall|i: int, j: int| 0 <= i < j < v@.len() ==> v@[i] < v@[j],
        forall|k: usize| v@.contains(k) <==> bit_ones(*b).contains(k),
        forall|i: int| 0 <= i < v@.len() ==> (#[trigger] v@[i] as nat) < bit_len(*b),
{
    b.ones().collect()
}

/// A tuple of states kept inline while it is short: the `SmallVec` of the
/// `smallvec` crate.
#[verifier::external_body]
#[derive(Debug)]
pub struct StateTuple {
    items: SmallVec<[StateId; 2]>,
}

/// The states of a tuple, from left to right.
pub uninterp spec fn tuple_states(t: StateTuple) -> Seq<StateId>;

impl View for StateTuple {
    type V = Seq<StateId>;

    open spec fn view(&self) -> Seq<StateId> {
        tuple_states(*self)
    }
}

impl StateTuple {
    /// A tuple of the given states.
    pub fn new(states: Vec<StateId>) -> (t: Self)
        ensures
            t@ == states@,
    {
        StateTuple::from_vec(states)
    }

    /// `SmallVec::from_vec`: the tuple with the vector's states.
    #[verifier::external_body]
    pub(crate) fn from_vec(v: Vec<StateId>) -> (t: Self)
        ensures
            tuple_states(t) == v@,
    {
        StateTuple { items: SmallVec::from_vec(v) }
    }

    /// `SmallVec::as_slice`: the states as a slice.
    #[verifier::external_body]
    pub(crate) fn as_slice(&self) -> (s: &[StateId])
        ensures
            s@ == tuple_states(*self),
    {
        self.items.as_slice()
    }
}

/// A hash map from words of integers to positions: the `HashMap` of the
/// `hashbrown` crate with the `FxBuildHasher` of the `rustc-hash` crate.
#[verifier::external_body]
#[derive(Debug)]
pub struct KeyTable {
    entries: HashMap<Vec<u32>, usize, FxBuildHasher>,
}

/// The entries of a key table.
pub uninterp spec fn table_entries(t: KeyTable) -> Map<Seq<u32>, usize>;

/// What a table without entries holds.
pub open spec fn no_entries() -> Map<Seq<u32>, usize> {
    Map::empty()
}

impl View for KeyTable {
    type V = Map<Seq<u32>, usize>;

    open spec fn view(&self) -> Map<Seq<u32>, usize> {
        table_entries(*self)
    }
}

impl KeyTable {
    /// `HashMap::default`: a table without entries.
    #[verifier::external_body]
    pub(crate) fn new() -> (t: Self)
        ensures
            table_entries(t) == no_entries(),
    {
        KeyTable { entries: HashMap::default() }
    }

    /// `HashMap::get`: the position stored under a key, if there is one.
    #[verifier::external_body]
    pub(crate) fn get(&self, key: &[u32]) -> (r: Option<usize>)
        ensures
            r == (if table_entries(*self).dom().contains(key@) {
                Some(table_entries(*self)[key@])
            } else {
                None
            }),
    {
        self.entries.get(key).copied()
    }

    /// `HashMap::insert`: stores a position under a key, in place of an older one.
    #[verifier::external_body]
    pub(crate) fn insert(&mut self, key: Vec<u32>, position: usize)
        ensures
            table_entries(*final(self)) == table_entries(*old(self)).insert(key@, position),
    {
        self.entries.insert(key, position);
    }
}

} // verus!
