//! What the bits of a weight say: sign, exponent and fraction.
use crate::weight::Weight;
use vstd::prelude::*;

verus! {

/// Whether the sign is that of a negative number.
pub open spec fn is_negative(w: Weight) -> bool {
    w.bits as int / 0x8000_0000_0000_0000 == 1
}

/// The exponent, which for a number from one up to two is 1023.
pub open spec fn exponent(w: Weight) -> int {
    w.bits as int / 0x10_0000_0000_0000 % 0x800
}

/// The fraction behind the leading digit.
pub open spec fn fraction(w: Weight) -> int {
    w.bits as int % 0x10_0000_0000_0000
}

/// Whether the bits are those of no number.
pub open spec fn is_no_number(w: Weight) -> bool {
    exponent(w) == 2047 && fraction(w) > 0
}

/// Whether a weight is zero, with either sign.
pub open spec fn is_zero(w: Weight) -> bool {
    exponent(w) == 0 && fraction(w) == 0
}

/// Whether a weight is one.
pub open spec fn is_one(w: Weight) -> bool {
    !is_negative(w) && exponent(w) == 1023 && fraction(w) == 0
}

/// A weight is a probability where it is zero, one, or a positive number below one, and
/// only there; it is above one where it is a greater number, infinity included. No weight
/// is both, and what is no number is neither.
pub proof fn law_weights_compare_with_one(w: Weight)
    ensures
        w.probability() <==> is_zero(w) || is_one(w) || (!is_negative(w) && exponent(w) < 1023),
        w.above_one() <==> !is_negative(w) && !is_no_number(w) && (exponent(w) > 1023 || (exponent(
            w,
        ) == 1023 && fraction(w) > 0)),
        !(w.probability() && w.above_one()),
        is_no_number(w) ==> !w.probability() && !w.above_one(),
{
    let b = w.bits as int;
    let s = b / 0x8000_0000_0000_0000;
    let e = b / 0x10_0000_0000_0000;
    assert(0 <= e < 0x1000);
    assert(s == e / 0x800);
    assert(b == e * 0x10_0000_0000_0000 + fraction(w));
}

} // verus!
