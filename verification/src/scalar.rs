//! Single-precision numbers by their bit patterns.
//!
//! Norms, coordinates and scores pass through the library as IEEE 754 binary32
//! bit patterns. The library compares, clamps, stores and looks them up; the
//! arithmetic on them belongs to the caller.
use vstd::prelude::*;

verus! {

/// The pattern of the sign bit.
pub const SIGN_BIT: u32 = 0x8000_0000;

/// The magnitude of infinity; a larger magnitude is not a number.
pub const INFINITY_MAGNITUDE: u32 = 0x7f80_0000;

/// The bit pattern of one.
pub const ONE_BITS: u32 = 0x3f80_0000;

/// A binary32 number given by its bit pattern.
#[derive(Clone, Copy, Debug, PartialEq, Eq, Structural)]
pub struct Scalar {
    pub bits: u32,
}

impl Scalar {
    /// The pattern without its sign bit.
    pub open spec fn magnitude(self) -> int {
        self.bits as int % SIGN_BIT as int
    }

    /// Whether the pattern stands for no number.
    pub open spec fn nan(self) -> bool {
        self.magnitude() > INFINITY_MAGNITUDE
    }

    /// An integer that orders all numbers as their values do. Both zeros are at 0.
    pub open spec fn order(self) -> int {
        if self.bits >= SIGN_BIT {
            -self.magnitude()
        } else {
            self.magnitude()
        }
    }

    /// The value of `self` is greater than that of `other`. False where either is no number.
    pub open spec fn greater(self, other: Scalar) -> bool {
        !self.nan() && !other.nan() && self.order() > other.order()
    }

    /// The value of `self` is not less than that of `other`. False where either is no number.
    pub open spec fn at_least(self, other: Scalar) -> bool {
        !self.nan() && !other.nan() && self.order() >= other.order()
    }

    /// The key that sorts numbers from the greatest to the least, and what is no number last.
    pub open spec fn descending_key(self) -> i128 {
        if self.nan() {
            SIGN_BIT as i128
        } else {
            -self.order() as i128
        }
    }

    /// The value held within the range from zero to one. A pattern that is no number stays.
    pub open spec fn clamped_unit(self) -> Scalar {
        if (Scalar { bits: 0 }).greater(self) {
            Scalar { bits: 0 }
        } else if self.greater(Scalar { bits: ONE_BITS }) {
            Scalar { bits: ONE_BITS }
        } else {
            self
        }
    }

    /// The number with the given bit pattern.
    pub fn from_bits(bits: u32) -> (r: Scalar)
        ensures
            r.bits == bits,
    {
        Scalar { bits }
    }

    /// The bit pattern.
    pub fn to_bits(self) -> (r: u32)
        ensures
            r == self.bits,
    {
        self.bits
    }

    /// Whether the pattern stands for no number.
    pub fn is_nan(self) -> (r: bool)
        ensures
            r == self.nan(),
    {
        self.bits % SIGN_BIT > INFINITY_MAGNITUDE
    }

    fn order_value(self) -> (r: i64)
        ensures
            r == self.order(),
    {
        let magnitude: i64 = (self.bits % SIGN_BIT) as i64;
        if self.bits >= SIGN_BIT {
            -magnitude
        } else {
            magnitude
        }
    }

    /// An integer that orders all numbers as their values do.
    pub fn order_key(self) -> (r: i128)
        ensures
            r == self.order(),
    {
        self.order_value() as i128
    }

    /// Whether the value is greater than that of `other`.
    pub fn is_greater(self, other: Scalar) -> (r: bool)
        ensures
            r == self.greater(other),
    {
        !self.is_nan() && !other.is_nan() && self.order_value() > other.order_value()
    }

    /// Whether the value is not less than that of `other`.
    pub fn is_at_least(self, other: Scalar) -> (r: bool)
        ensures
            r == self.at_least(other),
    {
        !self.is_nan() && !other.is_nan() && self.order_value() >= other.order_value()
    }

    /// The key by which a descending sort orders the number.
    pub fn sort_key(self) -> (r: i128)
        ensures
            r == self.descending_key(),
    {
        if self.is_nan() {
            SIGN_BIT as i128
        } else {
            -(self.order_value() as i128)
        }
    }

    /// The value held within the range from zero to one.
    pub fn clamp_unit(self) -> (r: Scalar)
        ensures
            r == self.clamped_unit(),
    {
        let zero = Scalar { bits: 0 };
        let one = Scalar { bits: ONE_BITS };
        if zero.is_greater(self) {
            zero
        } else if self.is_greater(one) {
            one
        } else {
            self
        }
    }
}

/// What a descending sort puts first: a number before what is no number, and
/// of two numbers the one that is not smaller.
pub proof fn lemma_descending_key(a: Scalar, b: Scalar)
    ensures
        !a.nan() && b.nan() ==> a.descending_key() < b.descending_key(),
        !a.nan() && !b.nan() ==> (a.descending_key() < b.descending_key() <==> a.greater(b)),
        !a.nan() && !b.nan() ==> (a.descending_key() <= b.descending_key() <==> a.at_least(b)),
{
}

/// How bit patterns compare: what is no number compares with nothing. Of two numbers without a
/// sign the one with the greater pattern is greater, of two with a sign the one with the smaller
/// pattern, and one with a sign is greater than none without. Both zeros are equal.
pub proof fn law_patterns_compare(a: Scalar, b: Scalar)
    ensures
        a.nan() <==> 0x7f80_0000 < a.bits < 0x8000_0000 || 0xff80_0000 < a.bits,
        a.nan() || b.nan() ==> !a.greater(b) && !a.at_least(b),
        !a.nan() && !b.nan() ==> {
            &&& a.at_least(b) <==> !b.greater(a)
            &&& a.bits < 0x8000_0000 && b.bits < 0x8000_0000 ==> (a.greater(b) <==> a.bits > b.bits)
            &&& a.bits >= 0x8000_0000 && b.bits >= 0x8000_0000 ==> (a.greater(b) <==> a.bits < b.bits)
            &&& a.bits < 0x8000_0000 && b.bits >= 0x8000_0000 ==> (a.greater(b) <==> a.bits != 0 || b.bits
                != 0x8000_0000)
            &&& a.bits >= 0x8000_0000 && b.bits < 0x8000_0000 ==> !a.greater(b)
        },
{
}

/// A number is held within the range from zero to one: inside it stays as it is, and outside it
/// becomes the bound that it passes. What is no number stays.
pub proof fn law_clamped(a: Scalar)
    ensures
        a.bits <= 0x3f80_0000 || a.bits == 0x8000_0000 || a.nan() ==> a.clamped_unit() == a,
        0x3f80_0000 < a.bits <= 0x7f80_0000 ==> a.clamped_unit().bits == 0x3f80_0000,
        0x8000_0000 < a.bits <= 0xff80_0000 ==> a.clamped_unit().bits == 0,
        a.clamped_unit().clamped_unit() == a.clamped_unit(),
{
}

} // verus!
