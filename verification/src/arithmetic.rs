//! The operations on quantities.

use crate::binary::{NAN_BITS, SPAN};
use crate::quantity::{Quantity, INFINITY_BITS, SIGN_BIT};
use crate::rounding::{
    added, divided, multiplied, nearest_to_whole, rounded_whole, subtracted, whole_part,
};
use vstd::prelude::*;

verus! {

use crate::binary::{
    clamped, difference, greater, is_negative, lesser, magnitudes_grow, nearest_exists, negated,
    one_in_units, only_zeros_have_no_size, product, quotient, rounded_to, signed_whole,
    small_wholes_are_exact, sum, units, whole, whole_above, whole_near, wholes_are_their_own,
    with_sign,
};
use crate::rounding::rounding_by_parts;

impl Quantity {
    /// Whether this quantity carries a minus sign.
    pub fn has_minus(self) -> (r: bool)
        ensures
            r == is_negative(self),
    {
        self.bits >= SIGN_BIT
    }

    fn mag(self) -> (r: u64)
        ensures
            r == self.magnitude(),
    {
        if self.bits >= SIGN_BIT {
            self.bits - SIGN_BIT
        } else {
            self.bits
        }
    }

    fn signed(negative: bool, mag: u64) -> (r: Quantity)
        requires
            mag < SIGN_BIT,
        ensures
            r == with_sign(negative, mag as nat),
    {
        if negative {
            Quantity { bits: mag + SIGN_BIT }
        } else {
            Quantity { bits: mag }
        }
    }

    /// This quantity with the other sign.
    pub fn opposite(self) -> (r: Quantity)
        ensures
            r == negated(self),
    {
        Quantity::signed(!self.has_minus(), self.mag())
    }

    /// `self - other`.
    pub fn minus(self, other: Quantity) -> (r: Quantity)
        ensures
            r == difference(self, other),
    {
        self.plus(other.opposite())
    }

    /// `self + other`.
    pub fn plus(self, other: Quantity) -> (r: Quantity)
        ensures
            r == sum(self, other),
    {
        let a: u64 = self.mag();
        let b: u64 = other.mag();
        if a > INFINITY_BITS || b > INFINITY_BITS {
            return Quantity { bits: NAN_BITS };
        }
        if a == INFINITY_BITS {
            return if b == INFINITY_BITS && self.has_minus() != other.has_minus() {
                Quantity { bits: NAN_BITS }
            } else {
                self
            };
        }
        if b == INFINITY_BITS {
            return other;
        }
        proof {
            only_zeros_have_no_size(self);
            only_zeros_have_no_size(other);
            if a < b {
                magnitudes_grow(a as nat, b as nat);
            } else if b < a {
                magnitudes_grow(b as nat, a as nat);
            }
        }
        if self.has_minus() == other.has_minus() {
            let total: u64 = if a >= b {
                added(a, b)
            } else {
                added(b, a)
            };
            Quantity::signed(self.has_minus(), total)
        } else if a == b {
            Quantity { bits: 0 }
        } else if a > b {
            Quantity::signed(self.has_minus(), subtracted(a, b))
        } else {
            Quantity::signed(other.has_minus(), subtracted(b, a))
        }
    }

    /// `self * other`.
    pub fn times(self, other: Quantity) -> (r: Quantity)
        ensures
            r == product(self, other),
    {
        let a: u64 = self.mag();
        let b: u64 = other.mag();
        let negative: bool = self.has_minus() != other.has_minus();
        proof {
            only_zeros_have_no_size(self);
            only_zeros_have_no_size(other);
        }
        if a > INFINITY_BITS || b > INFINITY_BITS {
            return Quantity { bits: NAN_BITS };
        }
        if a == INFINITY_BITS || b == INFINITY_BITS {
            return if a == 0 || b == 0 {
                Quantity { bits: NAN_BITS }
            } else {
                Quantity::signed(negative, INFINITY_BITS)
            };
        }
        Quantity::signed(negative, multiplied(a, b))
    }

    /// `self / other`.
    pub fn over(self, other: Quantity) -> (r: Quantity)
        ensures
            r == quotient(self, other),
    {
        let a: u64 = self.mag();
        let b: u64 = other.mag();
        let negative: bool = self.has_minus() != other.has_minus();
        proof {
            only_zeros_have_no_size(self);
            only_zeros_have_no_size(other);
        }
        if a > INFINITY_BITS || b > INFINITY_BITS {
            return Quantity { bits: NAN_BITS };
        }
        if a == INFINITY_BITS {
            return if b == INFINITY_BITS {
                Quantity { bits: NAN_BITS }
            } else {
                Quantity::signed(negative, INFINITY_BITS)
            };
        }
        if b == INFINITY_BITS {
            return Quantity::signed(negative, 0);
        }
        if b == 0 {
            return if a == 0 {
                Quantity { bits: NAN_BITS }
            } else {
                Quantity::signed(negative, INFINITY_BITS)
            };
        }
        Quantity::signed(negative, divided(a, b))
    }

    /// The quantity nearest to a whole number.
    pub fn of(n: u64) -> (r: Quantity)
        ensures
            r == whole(n as nat),
    {
        Quantity::signed(false, nearest_to_whole(n))
    }

    /// The quantity nearest to a whole number of either sign.
    pub fn of_signed(n: i64) -> (r: Quantity)
        requires
            n > i64::MIN,
        ensures
            r == signed_whole(n as int),
    {
        if n < 0 {
            Quantity::of((-n) as u64).opposite()
        } else {
            Quantity::of(n as u64)
        }
    }

    /// The lesser of two quantities.
    pub fn min(self, other: Quantity) -> (r: Quantity)
        ensures
            r == lesser(self, other),
    {
        if other.is_less(self) || self.mag() > INFINITY_BITS {
            other
        } else {
            self
        }
    }

    /// The greater of two quantities.
    pub fn max(self, other: Quantity) -> (r: Quantity)
        ensures
            r == greater(self, other),
    {
        if self.is_less(other) || self.mag() > INFINITY_BITS {
            other
        } else {
            self
        }
    }

    /// This quantity, held within `low..=high`.
    pub fn clamp(self, low: Quantity, high: Quantity) -> (r: Quantity)
        ensures
            r == clamped(self, low, high),
    {
        if self.is_less(low) {
            low
        } else if high.is_less(self) {
            high
        } else {
            self
        }
    }
}

impl Quantity {
    /// This quantity rounded to a whole number, halves away from zero, and
    /// held within `0..=max`.
    pub fn round(self, max: u32) -> (r: u32)
        ensures
            r == rounded_to(self, max as nat),
    {
        let mag: u64 = self.mag();
        if mag > INFINITY_BITS || self.has_minus() {
            0
        } else if mag == INFINITY_BITS {
            max
        } else {
            rounded_whole(mag, max)
        }
    }

    /// This quantity rounded to a whole one, halves away from zero.
    pub fn rounded(self) -> (r: Quantity)
        ensures
            r == whole_near(self),
    {
        let mag: u64 = self.mag();
        if mag >= INFINITY_BITS {
            return self;
        }
        match whole_part(mag) {
            None => {
                proof {
                    rounding_by_parts(units(mag as nat), one_in_units());
                    wholes_are_their_own(mag as nat);
                }
                self
            },
            Some((n, _, half)) => {
                proof {
                    rounding_by_parts(units(mag as nat), one_in_units());
                    small_wholes_are_exact(n as nat);
                    if n < 2 * SPAN - 1 {
                        small_wholes_are_exact(n as nat + 1);
                    }
                    nearest_exists((n + 1) as nat * one_in_units(), 1);
                }
                let up: u64 = if half {
                    n + 1
                } else {
                    n
                };
                let near = Quantity::of(up);
                Quantity::signed(self.has_minus(), near.mag())
            },
        }
    }

    /// The least whole quantity that is no less than this one.
    pub fn ceil(self) -> (r: Quantity)
        ensures
            r == whole_above(self),
    {
        let mag: u64 = self.mag();
        if mag >= INFINITY_BITS {
            return self;
        }
        match whole_part(mag) {
            None => {
                proof {
                    rounding_by_parts(units(mag as nat), one_in_units());
                    wholes_are_their_own(mag as nat);
                }
                self
            },
            Some((n, more, _)) => {
                proof {
                    rounding_by_parts(units(mag as nat), one_in_units());
                    small_wholes_are_exact(n as nat);
                    nearest_exists((n + 1) as nat * one_in_units(), 1);
                }
                if self.has_minus() {
                    Quantity::signed(true, Quantity::of(n).mag())
                } else if more {
                    Quantity::of(n + 1)
                } else {
                    Quantity::of(n)
                }
            },
        }
    }
}

} // verus!
