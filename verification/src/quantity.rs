//! Measured quantities.
//!
//! Watts, watt-hours, percent per hour and the like are carried as the 64
//! bits of an IEEE 754 binary64 number. The order of two such numbers can be
//! read off their bits: the magnitude bits of a number grow with its
//! magnitude.

use vstd::prelude::*;

verus! {

/// A binary64 number, by its bits.
#[derive(Clone, Copy, Debug, PartialEq, Eq, Structural)]
pub struct Quantity {
    pub bits: u64,
}

/// The bit that holds the sign.
pub const SIGN_BIT: u64 = 0x8000_0000_0000_0000;

/// The magnitude bits of infinity. Anything above is not a number.
pub const INFINITY_BITS: u64 = 0x7FF0_0000_0000_0000;

/// 0.1
pub const TENTH_BITS: u64 = 0x3FB9_9999_9999_999A;

/// 0.5
pub const HALF_BITS: u64 = 0x3FE0_0000_0000_0000;

/// 1.0
pub const ONE_BITS: u64 = 0x3FF0_0000_0000_0000;

/// 2.0
pub const TWO_BITS: u64 = 0x4000_0000_0000_0000;

/// 3.0
pub const THREE_BITS: u64 = 0x4008_0000_0000_0000;

/// 5.0
pub const FIVE_BITS: u64 = 0x4014_0000_0000_0000;

/// 8.0
pub const EIGHT_BITS: u64 = 0x4020_0000_0000_0000;

/// 10.0
pub const TEN_BITS: u64 = 0x4024_0000_0000_0000;

/// 12.0
pub const TWELVE_BITS: u64 = 0x4028_0000_0000_0000;

/// 40.0
pub const FORTY_BITS: u64 = 0x4044_0000_0000_0000;

/// 96.0
pub const NINETY_SIX_BITS: u64 = 0x4058_0000_0000_0000;

/// 480.0
pub const EIGHT_HOURS_BITS: u64 = 0x407E_0000_0000_0000;

impl Quantity {
    /// The bits without the sign.
    pub open spec fn magnitude(self) -> int {
        if self.bits >= SIGN_BIT {
            self.bits - SIGN_BIT
        } else {
            self.bits as int
        }
    }

    /// Whether this is a number at all.
    pub open spec fn is_number(self) -> bool {
        self.magnitude() <= INFINITY_BITS
    }

    /// A number's place in the order of all numbers. Both zeros stand at 0.
    pub open spec fn rank(self) -> int {
        if self.bits >= SIGN_BIT {
            -self.magnitude()
        } else {
            self.magnitude()
        }
    }

    /// `self < other`, which is false when either is not a number.
    pub open spec fn less(self, other: Quantity) -> bool {
        self.is_number() && other.is_number() && self.rank() < other.rank()
    }

    /// `self <= other`, which is false when either is not a number.
    pub open spec fn at_most(self, other: Quantity) -> bool {
        self.is_number() && other.is_number() && self.rank() <= other.rank()
    }

    /// The quantity with these bits.
    pub fn from_bits(bits: u64) -> (r: Quantity)
        ensures
            r.bits == bits,
    {
        Quantity { bits }
    }

    /// Zero.
    pub fn zero() -> (r: Quantity)
        ensures
            r.bits == 0,
            r.is_number(),
            r.rank() == 0,
    {
        Quantity { bits: 0 }
    }

    fn order(self) -> (r: i64)
        ensures
            r == self.rank(),
    {
        if self.bits >= SIGN_BIT {
            -((self.bits - SIGN_BIT) as i64)
        } else {
            self.bits as i64
        }
    }

    fn valid(self) -> (r: bool)
        ensures
            r == self.is_number(),
    {
        if self.bits >= SIGN_BIT {
            self.bits - SIGN_BIT <= INFINITY_BITS
        } else {
            self.bits <= INFINITY_BITS
        }
    }

    /// Whether `self` is less than `other`.
    pub fn is_less(self, other: Quantity) -> (r: bool)
        ensures
            r == self.less(other),
    {
        self.valid() && other.valid() && self.order() < other.order()
    }

    /// Whether `self` is at most `other`.
    pub fn is_at_most(self, other: Quantity) -> (r: bool)
        ensures
            r == self.at_most(other),
    {
        self.valid() && other.valid() && self.order() <= other.order()
    }

    /// Whether `self` is less than the number with these bits.
    pub fn is_below(self, bits: u64) -> (r: bool)
        ensures
            r == self.less(Quantity { bits }),
    {
        self.is_less(Quantity { bits })
    }

    /// Whether `self` is greater than the number with these bits.
    pub fn is_above(self, bits: u64) -> (r: bool)
        ensures
            r == (Quantity { bits }).less(self),
    {
        Quantity { bits }.is_less(self)
    }

    /// Whether `self` is at least the number with these bits.
    pub fn reaches(self, bits: u64) -> (r: bool)
        ensures
            r == (Quantity { bits }).at_most(self),
    {
        Quantity { bits }.is_at_most(self)
    }
}

/// Of two numbers one is less than the other or both stand at the same
/// place, and never two of these at once.
pub proof fn numbers_are_totally_ordered(a: Quantity, b: Quantity)
    requires
        a.is_number(),
        b.is_number(),
    ensures
        a.less(b) || b.less(a) || a.rank() == b.rank(),
        !(a.less(b) && b.less(a)),
        a.at_most(b) == !b.less(a),
{
}

/// Nothing compares with what is not a number.
pub proof fn no_order_without_a_number(a: Quantity, b: Quantity)
    requires
        !a.is_number() || !b.is_number(),
    ensures
        !a.less(b),
        !a.at_most(b),
{
}

/// The order is transitive.
pub proof fn order_is_transitive(a: Quantity, b: Quantity, c: Quantity)
    requires
        a.less(b),
        b.less(c),
    ensures
        a.less(c),
{
}

} // verus!
