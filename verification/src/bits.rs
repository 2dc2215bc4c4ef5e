//! Single-precision values by their bit patterns.
//!
//! The library moves, orders and selects numbers; it never does arithmetic on
//! them itself. A number is held as the `u32` of its IEEE 754 binary32
//! encoding, and the arithmetic is asked of a unit that the caller supplies
//! (see [`FloatOp`]). Ordering needs no arithmetic: away from NaN, the order of
//! two numbers is the order of their sign-magnitude integers.

use vstd::prelude::*;

verus! {

/// The encoding of `0.0`.
pub const ZERO: u32 = 0;

/// The encoding of `1.0`.
pub const ONE: u32 = 0x3f80_0000;

/// The first encoding of a negative number (`-0.0`): the sign bit alone.
pub const NEG_ZERO: u32 = 0x8000_0000;

/// The encoding of positive infinity. A larger magnitude encodes a NaN.
pub const INFINITY: u32 = 0x7f80_0000;

/// The encoding with its sign bit cleared.
pub open spec fn magnitude(b: u32) -> int {
    if b >= NEG_ZERO {
        b - NEG_ZERO
    } else {
        b as int
    }
}

/// Whether the encoding is a NaN.
pub open spec fn is_nan(b: u32) -> bool {
    magnitude(b) > INFINITY
}

/// The sign-magnitude integer of an encoding. Away from NaN it orders as the
/// numbers do, and the two zeros have the same one.
pub open spec fn position(b: u32) -> int {
    if b >= NEG_ZERO {
        -magnitude(b)
    } else {
        magnitude(b)
    }
}

/// `a > b` as numbers: false as soon as one of the two is a NaN.
pub open spec fn greater(a: u32, b: u32) -> bool {
    !is_nan(a) && !is_nan(b) && position(a) > position(b)
}

/// `b > 0.0`.
pub open spec fn positive(b: u32) -> bool {
    greater(b, ZERO)
}

/// The encoding of the absolute value.
pub open spec fn absolute(b: u32) -> u32 {
    magnitude(b) as u32
}

/// One arithmetic operation on encodings, as it is put to the caller's
/// arithmetic unit (an `Fn(FloatOp) -> u32` that answers with the encoding of
/// the result). The library fixes which operations are asked for, on which
/// operands and in which order; how one is rounded is the unit's affair.
#[derive(Debug, Clone, Copy, PartialEq, Eq, Structural)]
pub enum FloatOp {
    /// The sum of the two operands.
    Add(u32, u32),
    /// The first operand less the second.
    Sub(u32, u32),
    /// The product of the two operands.
    Mul(u32, u32),
    /// The first operand over the second.
    Div(u32, u32),
    /// The product of the first two operands plus the third, rounded once.
    MulAdd(u32, u32, u32),
    /// The square root.
    Sqrt(u32),
    /// The number nearest to a count.
    FromCount(usize),
}

/// `r` is an answer that the unit gives to `op`.
pub open spec fn yields<F: Fn(FloatOp) -> u32>(unit: F, op: FloatOp, r: u32) -> bool {
    unit.ensures((op,), r)
}

/// The unit accepts every operation.
pub open spec fn total<F: Fn(FloatOp) -> u32>(unit: F) -> bool {
    forall|op: FloatOp| #[trigger] unit.requires((op,))
}

/// The unit gives one answer to each operation.
pub open spec fn deterministic<F: Fn(FloatOp) -> u32>(unit: F) -> bool {
    forall|op: FloatOp, a: u32, b: u32|
        #[trigger] yields(unit, op, a) && #[trigger] yields(unit, op, b) ==> a == b
}

/// Whether the encoding is a NaN.
pub fn nan(b: u32) -> (res: bool)
    ensures
        res == is_nan(b),
{
    if b >= NEG_ZERO {
        b - NEG_ZERO > INFINITY
    } else {
        b > INFINITY
    }
}

/// `a > b` as numbers.
pub fn gt(a: u32, b: u32) -> (res: bool)
    ensures
        res == greater(a, b),
{
    if nan(a) || nan(b) {
        false
    } else if a >= NEG_ZERO {
        b > a
    } else if b >= NEG_ZERO {
        a > 0 || b > NEG_ZERO
    } else {
        a > b
    }
}

/// The encoding of the absolute value.
pub fn abs(b: u32) -> (res: u32)
    ensures
        res == absolute(b),
{
    if b >= NEG_ZERO {
        b - NEG_ZERO
    } else {
        b
    }
}

} // verus!
