//! Dense integer identifiers for states and symbols.
use vstd::prelude::*;

verus! {

/// Dense integer identifier for an automaton state.
///
/// Identifiers start at zero, so they can index vectors and bit sets. The one
/// special value is [`StateId::stuck`], which stands for a rejected subtree and
/// is never the name of an ordinary state.
#[derive(Clone, Copy, PartialEq, Eq, Structural, Hash, PartialOrd, Ord, Debug, Default)]
pub struct StateId(pub u32);

impl StateId {
    /// The number of the sentinel state.
    pub const STUCK: u32 = 0xffff_ffff;

    /// Sentinel meaning "this subtree has no valid state".
    pub fn stuck() -> (q: StateId)
        ensures
            q == StateId(Self::STUCK),
    {
        StateId(Self::STUCK)
    }

    /// The position of this state in a vector or bit set.
    pub fn index(self) -> (i: usize)
        ensures
            i == self.0,
    {
        self.0 as usize
    }

    /// Whether this identifier is the stuck sentinel.
    pub fn is_stuck(self) -> (b: bool)
        ensures
            b == (self.0 == Self::STUCK),
    {
        self.0 == Self::STUCK
    }
}

/// Identifier for a node label or grammar symbol.
///
/// Symbols are not interpreted: the application owns the signature and maps
/// labels to symbols.
#[derive(Clone, Copy, PartialEq, Eq, Structural, Hash, PartialOrd, Ord, Debug, Default)]
pub struct Symbol(pub u32);

/// Number of children a symbol expects.
pub type Arity = u8;

} // verus!
