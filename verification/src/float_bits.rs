//! Numbers of the IEEE 754 binary formats, carried as their bit patterns.
//!
//! Patterns without the sign bit order as the magnitudes do, so every comparison
//! is one of integers.
use vstd::prelude::*;

verus! {

/// An IEEE 754 number of 32 bits, held as its bit pattern.
#[derive(Clone, Copy, PartialEq, Eq, Structural, Debug, Hash)]
pub struct Float32 {
    pub bits: u32,
}

impl Float32 {
    /// The pattern without its sign bit.
    pub open spec fn magnitude(self) -> int {
        self.bits as int % 0x8000_0000
    }

    /// Whether the pattern is that of no number.
    pub open spec fn is_nan(self) -> bool {
        self.magnitude() > 0x7f80_0000
    }

    /// An integer that orders the numbers as their values do; both zeros have
    /// the same.
    pub open spec fn key(self) -> int {
        if self.bits >= 0x8000_0000 {
            -self.magnitude()
        } else {
            self.magnitude()
        }
    }

    /// Whether `self < other`; never where one of them is no number.
    pub open spec fn is_below(self, other: Float32) -> bool {
        !self.is_nan() && !other.is_nan() && self.key() < other.key()
    }

    /// Whether `self <= other`; never where one of them is no number.
    pub open spec fn is_at_most(self, other: Float32) -> bool {
        !self.is_nan() && !other.is_nan() && self.key() <= other.key()
    }

    /// The pattern without its sign bit.
    pub fn unsigned(self) -> (r: u32)
        ensures
            r == self.magnitude(),
    {
        if self.bits >= 0x8000_0000 {
            self.bits - 0x8000_0000
        } else {
            self.bits
        }
    }

    /// Whether the pattern is that of no number.
    pub fn nan(self) -> (r: bool)
        ensures
            r == self.is_nan(),
    {
        self.unsigned() > 0x7f80_0000
    }

    /// The integer that orders the numbers as their values do.
    pub fn order_key(self) -> (r: i64)
        ensures
            r == self.key(),
    {
        if self.bits >= 0x8000_0000 {
            -(self.unsigned() as i64)
        } else {
            self.unsigned() as i64
        }
    }

    /// `self < other`.
    pub fn below(self, other: Float32) -> (r: bool)
        ensures
            r == self.is_below(other),
    {
        !self.nan() && !other.nan() && self.order_key() < other.order_key()
    }

    /// `self <= other`.
    pub fn at_most(self, other: Float32) -> (r: bool)
        ensures
            r == self.is_at_most(other),
    {
        !self.nan() && !other.nan() && self.order_key() <= other.order_key()
    }
}

/// An IEEE 754 number of 64 bits, held as its bit pattern.
#[derive(Clone, Copy, PartialEq, Eq, Structural, Debug, Hash)]
pub struct Float64 {
    pub bits: u64,
}

impl Float64 {
    /// The pattern without its sign bit.
    pub open spec fn magnitude(self) -> int {
        self.bits as int % 0x8000_0000_0000_0000
    }

    /// Whether the pattern is that of no number.
    pub open spec fn is_nan(self) -> bool {
        self.magnitude() > 0x7ff0_0000_0000_0000
    }

    /// An integer that orders the numbers as their values do; both zeros have
    /// the same.
    pub open spec fn key(self) -> int {
        if self.bits >= 0x8000_0000_0000_0000 {
            -self.magnitude()
        } else {
            self.magnitude()
        }
    }

    /// Whether `self < other`; never where one of them is no number.
    pub open spec fn is_below(self, other: Float64) -> bool {
        !self.is_nan() && !other.is_nan() && self.key() < other.key()
    }

    /// Whether `self <= other`; never where one of them is no number.
    pub open spec fn is_at_most(self, other: Float64) -> bool {
        !self.is_nan() && !other.is_nan() && self.key() <= other.key()
    }

    /// The pattern without its sign bit.
    pub fn unsigned(self) -> (r: u64)
        ensures
            r == self.magnitude(),
    {
        if self.bits >= 0x8000_0000_0000_0000 {
            self.bits - 0x8000_0000_0000_0000
        } else {
            self.bits
        }
    }

    /// Whether the pattern is that of no number.
    pub fn nan(self) -> (r: bool)
        ensures
            r == self.is_nan(),
    {
        self.unsigned() > 0x7ff0_0000_0000_0000
    }

    /// The integer that orders the numbers as their values do.
    pub fn order_key(self) -> (r: i128)
        ensures
            r == self.key(),
    {
        if self.bits >= 0x8000_0000_0000_0000 {
            -(self.unsigned() as i128)
        } else {
            self.unsigned() as i128
        }
    }

    /// `self < other`.
    pub fn below(self, other: Float64) -> (r: bool)
        ensures
            r == self.is_below(other),
    {
        !self.nan() && !other.nan() && self.order_key() < other.order_key()
    }

    /// `self <= other`.
    pub fn at_most(self, other: Float64) -> (r: bool)
        ensures
            r == self.is_at_most(other),
    {
        !self.nan() && !other.nan() && self.order_key() <= other.order_key()
    }
}

/// Exactly one of three holds of two numbers: one is below the other, or they
/// are equal in order.
pub proof fn comparison_is_total(a: Float32, b: Float32)
    requires
        !a.is_nan(),
        !b.is_nan(),
    ensures
        a.is_below(b) || b.is_below(a) || a.key() == b.key(),
        !(a.is_below(b) && b.is_below(a)),
        a.is_at_most(b) <==> !b.is_below(a),
{
}

/// Numbers of 32 bits order by their patterns: among those without a sign the larger
/// pattern is the larger number, among those with one the smaller; a number with a sign
/// is below one without, unless both are zero; and what is no number is neither below
/// nor above anything.
pub proof fn patterns_order_as_numbers(a: Float32, b: Float32)
    ensures
        a.bits <= 0x7f80_0000 && b.bits <= 0x7f80_0000 ==> (a.is_below(b) <==> a.bits < b.bits)
            && (a.is_at_most(b) <==> a.bits <= b.bits),
        0x8000_0000 <= a.bits <= 0xff80_0000 && 0x8000_0000 <= b.bits <= 0xff80_0000 ==> (
        a.is_below(b) <==> a.bits > b.bits),
        0x8000_0000 <= a.bits <= 0xff80_0000 && b.bits <= 0x7f80_0000 ==> a.is_at_most(b) && (
        a.is_below(b) <==> a.bits != 0x8000_0000 || b.bits != 0) && !b.is_below(a),
        a.bits % 0x8000_0000 > 0x7f80_0000 ==> !a.is_below(b) && !b.is_below(a) && !a.is_at_most(b)
            && !b.is_at_most(a),
{
}

/// Numbers of 64 bits order by their patterns in the same way.
pub proof fn long_patterns_order_as_numbers(a: Float64, b: Float64)
    ensures
        a.bits <= 0x7ff0_0000_0000_0000 && b.bits <= 0x7ff0_0000_0000_0000 ==> (a.is_below(b)
            <==> a.bits < b.bits) && (a.is_at_most(b) <==> a.bits <= b.bits),
        0x8000_0000_0000_0000 <= a.bits <= 0xfff0_0000_0000_0000 && b.bits
            <= 0x7ff0_0000_0000_0000 ==> a.is_at_most(b) && (a.is_below(b) <==> a.bits
            != 0x8000_0000_0000_0000 || b.bits != 0),
        a.bits % 0x8000_0000_0000_0000 > 0x7ff0_0000_0000_0000 ==> !a.is_below(b) && !b.is_below(a)
            && !a.is_at_most(b) && !b.is_at_most(a),
{
}

} // verus!
