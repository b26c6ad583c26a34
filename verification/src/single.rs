use vstd::prelude::*;

verus! {

/// Bit pattern of positive infinity, the largest value that is a number.
pub const INFINITY_BITS: u32 = 0x7F80_0000;

/// Bit pattern of negative infinity.
pub const NEGATIVE_INFINITY_BITS: u32 = 0xFF80_0000;

/// A single-precision quantity (IEEE 754 binary32), held by its bit pattern.
///
/// The library orders and carries such quantities; computing them is left to
/// the functions that its callers hand in.
#[derive(Clone, Copy, Debug, PartialEq, Eq, Structural)]
pub struct Single {
    pub bits: u32,
}

impl Single {
    /// Place of the value among all bit patterns: sign and magnitude of the
    /// pattern, with both zeros at 0. On numbers this is the numeric order;
    /// patterns beyond infinity, which are not numbers, get the places outside
    /// both infinities, so that any list can be sorted.
    pub open spec fn key(self) -> int {
        if self.bits < 0x8000_0000 {
            self.bits as int
        } else {
            0x8000_0000 - self.bits
        }
    }

    /// The pattern stands for a number, an infinity included.
    pub open spec fn is_number(self) -> bool {
        self.bits <= INFINITY_BITS || 0x8000_0000 <= self.bits <= NEGATIVE_INFINITY_BITS
    }

    /// Both are numbers, and `self` is less. A pattern that is not a number is
    /// neither less nor greater than anything.
    pub open spec fn lt(self, other: Self) -> bool {
        self.is_number() && other.is_number() && self.key() < other.key()
    }

    /// The greater of two numbers, `self` if neither is; where one is not a
    /// number, the other.
    pub open spec fn greater(self, other: Self) -> Self {
        if !self.is_number() || self.lt(other) {
            other
        } else {
            self
        }
    }

    /// The value is a number greater than zero.
    pub open spec fn positive(self) -> bool {
        0 < self.bits <= INFINITY_BITS
    }

    /// The value zero.
    pub fn zero() -> (r: Self)
        ensures
            r.bits == 0,
            r.key() == 0,
    {
        Single { bits: 0 }
    }

    /// The place of the value among all bit patterns.
    pub fn order_key(self) -> (r: i64)
        ensures
            r == self.key(),
    {
        if self.bits < 0x8000_0000 {
            self.bits as i64
        } else {
            0x8000_0000i64 - self.bits as i64
        }
    }

    /// Whether the value is a number greater than zero.
    pub fn is_positive(self) -> (r: bool)
        ensures
            r == self.positive(),
    {
        self.bits > 0 && self.bits <= INFINITY_BITS
    }

    /// Whether the pattern stands for a number.
    pub fn holds_number(self) -> (r: bool)
        ensures
            r == self.is_number(),
    {
        self.bits <= INFINITY_BITS || (self.bits >= 0x8000_0000 && self.bits
            <= NEGATIVE_INFINITY_BITS)
    }

    /// Whether both are numbers and `self` is less.
    pub fn less_than(self, other: Self) -> (r: bool)
        ensures
            r == self.lt(other),
    {
        self.holds_number() && other.holds_number() && self.order_key() < other.order_key()
    }

    /// The greater of two numbers, `self` if neither is; where one is not a
    /// number, the other.
    pub fn max(self, other: Self) -> (r: Self)
        ensures
            r == self.greater(other),
    {
        if !self.holds_number() || self.less_than(other) {
            other
        } else {
            self
        }
    }
}

impl Single {
    /// Numbers are ordered by sign and size: patterns without the sign bit as they
    /// count up, those with it as they count down and below the former, the two
    /// zeros as one; what is no number is not ordered.
    pub proof fn law_order_goes_by_sign_and_size(a: Single, b: Single)
        ensures
            a.bits <= 0x7F80_0000 && b.bits <= 0x7F80_0000 ==> (a.lt(b) <==> a.bits < b.bits),
            0x8000_0000 <= a.bits <= 0xFF80_0000 && 0x8000_0000 <= b.bits <= 0xFF80_0000 ==> (a.lt(
                b,
            ) <==> b.bits < a.bits),
            0x8000_0000 <= a.bits <= 0xFF80_0000 && b.bits <= 0x7F80_0000 ==> (a.lt(b) <==> !(a.bits
                == 0x8000_0000 && b.bits == 0)),
            a.bits <= 0x7F80_0000 && 0x8000_0000 <= b.bits ==> !a.lt(b),
            0x7F80_0000 < a.bits < 0x8000_0000 || 0xFF80_0000 < a.bits ==> !a.lt(b) && !b.lt(a),
            a.positive() <==> 0 < a.bits <= 0x7F80_0000,
    {
    }
}

} // verus!
