//! Rule weights, carried as the bits of a double.
use vstd::prelude::*;

verus! {

/// The weight of a transition rule: the bits of an IEEE 754 double.
///
/// Weights are carried, compared with the bounds of the unit interval and handed
/// on. No arithmetic is done on them.
#[derive(Clone, Copy, PartialEq, Eq, Structural, Hash, Debug)]
pub struct Weight {
    pub bits: u64,
}

/// The bits of `1.0`.
pub const ONE_BITS: u64 = 0x3ff0_0000_0000_0000;

/// The bits of negative zero.
pub const NEGATIVE_ZERO_BITS: u64 = 0x8000_0000_0000_0000;

/// The bits of positive infinity.
pub const INFINITY_BITS: u64 = 0x7ff0_0000_0000_0000;

impl Weight {
    /// Whether the weight is a finite value in `[0, 1]`: the doubles from positive
    /// zero to one have increasing bits from zero on, and negative zero equals zero.
    pub open spec fn probability(self) -> bool {
        self.bits <= ONE_BITS || self.bits == NEGATIVE_ZERO_BITS
    }

    /// Whether the weight is greater than one, infinity included.
    pub open spec fn above_one(self) -> bool {
        ONE_BITS < self.bits <= INFINITY_BITS
    }

    /// The weight of a rule that was given none.
    pub fn one() -> (w: Weight)
        ensures
            w.bits == ONE_BITS,
    {
        Weight { bits: ONE_BITS }
    }

    pub fn is_probability(self) -> (b: bool)
        ensures
            b == self.probability(),
    {
        self.bits <= ONE_BITS || self.bits == NEGATIVE_ZERO_BITS
    }

    pub fn exceeds_one(self) -> (b: bool)
        ensures
            b == self.above_one(),
    {
        ONE_BITS < self.bits && self.bits <= INFINITY_BITS
    }
}

} // verus!
