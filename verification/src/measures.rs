//! What measured numbers come to.
//!
//! Sums, products and quotients of numbers that are neither tiny nor vast are
//! the exact ones, up to a few parts. What is computed of measured numbers
//! can therefore be stated as exact fractions of them.

use crate::binary::{SPAN, UNIT_POWER};
use crate::margin::{margins_add_up, margins_cancel, margins_scale, margins_widen};
use crate::margin::{rounding_adds_little, rounding_takes_little};
use crate::precision::PARTS;
use crate::quantity::Quantity;
use vstd::prelude::*;

verus! {

use crate::binary::{
    is_finite, is_negative, nearest_exists, one_in_units, product, quotient, rounded_to, size,
    small_wholes_are_exact, units, whole,
};
use crate::margin::about_at_most;
use crate::precision::{nearest_between, power_units};

/// Whether `x` and `y` are equal up to so many parts in two to the power of
/// 53.
pub open spec fn about(x: int, y: int, parts: nat) -> bool {
    about_at_most(x, y, parts) && about_at_most(y, x, parts)
}

/// Whether a quantity lies between two to the power of `-k` and two to the
/// power of `k`.
pub open spec fn spans(a: Quantity, k: nat) -> bool {
    &&& is_finite(a)
    &&& !is_negative(a)
    &&& power_units(-(k as int)) <= size(a) <= power_units(k as int)
}

/// Whether the whole number `m` is what the fraction `p / q` rounds to, up to
/// so many parts, when nothing above `max` is told apart.
pub open spec fn rounds_about(m: nat, max: nat, p: nat, q: nat, parts: nat) -> bool {
    &&& m <= max
    &&& m > 0 ==> about_at_most((2 * m - 1) * q, 2 * p as int, parts)
    &&& m < max ==> about_at_most(2 * p as int, ((2 * m + 1) * q) as int, parts)
}

/// Equality up to rounding chains.
pub proof fn abouts_add_up(x: int, y: int, z: int, a: nat, b: nat)
    requires
        about(x, y, a),
        about(y, z, b),
        a * b <= PARTS,
        x >= 0,
        z >= 0,
    ensures
        about(x, z, a + b + 1),
{
    margins_add_up(x, y, z, a, b);
    assert(b * a <= PARTS) by (nonlinear_arith)
        requires
            a * b <= PARTS,
    ;
    margins_add_up(z, y, x, b, a);
}

/// Equality up to rounding can be multiplied out.
pub proof fn abouts_scale(x: int, y: int, c: int, parts: nat)
    requires
        about(x, y, parts),
        c >= 0,
    ensures
        about(x * c, y * c, parts),
{
    margins_scale(x, y, c, parts);
    margins_scale(y, x, c, parts);
}

/// Common factors cancel.
pub proof fn abouts_cancel(x: int, y: int, c: int, parts: nat)
    requires
        about(x * c, y * c, parts),
        c > 0,
    ensures
        about(x, y, parts),
{
    margins_cancel(x, y, c, parts);
    margins_cancel(y, x, c, parts);
}

/// A wider margin does too.
pub proof fn abouts_widen(x: int, y: int, a: nat, b: nat)
    requires
        about(x, y, a),
        a <= b,
        x >= 0,
        y >= 0,
    ensures
        about(x, y, b),
{
    margins_widen(x, y, a, b);
    margins_widen(y, x, a, b);
}

/// What is equal is about equal.
pub proof fn equals_are_about(x: int, parts: nat)
    requires
        x >= 0,
    ensures
        about(x, x, parts),
{
    crate::margin::bounds_hold_about(x, x, parts);
}

pub(crate) proof fn powers_multiply(i: int, j: int)
    requires
        -1000 <= i <= 1000,
        -1000 <= j <= 1000,
        -1000 <= i + j <= 1000,
    ensures
        power_units(i) * power_units(j) == power_units(i + j) * one_in_units(),
        power_units(i) > 0,
        one_in_units() > 0,
{
    vstd::arithmetic::power2::lemma_pow2_adds((UNIT_POWER + i) as nat, (UNIT_POWER + j) as nat);
    vstd::arithmetic::power2::lemma_pow2_adds((UNIT_POWER + i + j) as nat, UNIT_POWER as nat);
    vstd::arithmetic::power2::lemma_pow2_pos((UNIT_POWER + i) as nat);
    vstd::arithmetic::power2::lemma_pow2_pos(UNIT_POWER as nat);
}

pub(crate) proof fn powers_rise(i: int, j: int)
    requires
        -1000 <= i <= j <= 1000,
    ensures
        0 < power_units(i) <= power_units(j),
{
    vstd::arithmetic::power2::lemma_pow2_pos((UNIT_POWER + i) as nat);
    if i < j {
        vstd::arithmetic::power2::lemma_pow2_strictly_increases(
            (UNIT_POWER + i) as nat,
            (UNIT_POWER + j) as nat,
        );
    }
}

/// A wider span holds too.
pub proof fn spans_widen(a: Quantity, j: nat, k: nat)
    requires
        spans(a, j),
        j <= k <= 1000,
    ensures
        spans(a, k),
        size(a) > 0,
{
    powers_rise(-(k as int), -(j as int));
    powers_rise(j as int, k as int);
}

/// A quotient is the exact one, up to rounding.
pub proof fn quotients_measure(a: Quantity, b: Quantity, j: nat, k: nat)
    requires
        spans(a, j),
        spans(b, k),
        j + k <= 900,
    ensures
        spans(quotient(a, b), j + k),
        about((size(quotient(a, b)) * size(b)) as int, (size(a) * one_in_units()) as int, 2),
        size(b) > 0,
{
    let one = one_in_units();
    let (x, y) = (size(a), size(b));
    let (n, m) = (j as int, k as int);
    powers_multiply(-(n + m), m);
    powers_multiply(n + m, -m);
    powers_rise(-m, -m);
    let low = power_units(-(n + m));
    let high = power_units(n + m);
    assert(low * y <= x * one) by (nonlinear_arith)
        requires
            y <= power_units(m),
            x >= power_units(-n),
            low * power_units(m) == power_units(-n) * one,
    {
        assert(low * y <= low * power_units(m));
        assert(power_units(-n) * one <= x * one);
    }
    assert(x * one <= high * y) by (nonlinear_arith)
        requires
            y >= power_units(-m),
            x <= power_units(n),
            high * power_units(-m) == power_units(n) * one,
    {
        assert(high * y >= high * power_units(-m));
        assert(power_units(n) * one >= x * one);
    }
    let mag = nearest_between(x * one, y, -(n + m), n + m);
    nearest_exists(x * one, y);
    rounding_adds_little(x * one, y, mag);
    rounding_takes_little(x * one, y, mag);
    let u = units(mag);
    assert(u * y >= 0);
    margins_widen((x * one) as int, (u * y) as int, 1, 2);
}

/// A product is the exact one, up to rounding.
pub proof fn products_measure(a: Quantity, b: Quantity, j: nat, k: nat)
    requires
        spans(a, j),
        spans(b, k),
        j + k <= 900,
    ensures
        spans(product(a, b), j + k),
        about((size(product(a, b)) * one_in_units()) as int, (size(a) * size(b)) as int, 2),
{
    let one = one_in_units();
    let (x, y) = (size(a), size(b));
    let (n, m) = (j as int, k as int);
    powers_multiply(-n, -m);
    powers_multiply(n, m);
    let low = power_units(-(n + m));
    let high = power_units(n + m);
    assert(-n + -m == -(n + m));
    assert(low * one <= x * y) by (nonlinear_arith)
        requires
            x >= power_units(-n),
            y >= power_units(-m),
            power_units(-n) * power_units(-m) == low * one,
    ;
    assert(x * y <= high * one) by (nonlinear_arith)
        requires
            x <= power_units(n),
            y <= power_units(m),
            power_units(n) * power_units(m) == high * one,
    ;
    let mag = nearest_between(x * y, one, -(n + m), n + m);
    nearest_exists(x * y, one);
    rounding_adds_little(x * y, one, mag);
    rounding_takes_little(x * y, one, mag);
    let u = units(mag);
    assert(u * one >= 0);
    margins_widen((x * y) as int, (u * one) as int, 1, 2);
}

/// Whole numbers of up to 53 binary digits are what they are.
pub proof fn wholes_measure(n: nat)
    requires
        0 < n < 2 * SPAN,
    ensures
        spans(whole(n), 53),
        size(whole(n)) == n * one_in_units(),
{
    let one = one_in_units();
    small_wholes_are_exact(n);
    vstd::arithmetic::power2::lemma2_to64();
    vstd::arithmetic::power2::lemma2_to64_rest();
    powers_rise(-53, 0);
    crate::precision::scaled_powers(0, 53);
    assert(power_units(0) == one);
    assert(one <= n * one <= 0x20_0000_0000_0000 * one) by (nonlinear_arith)
        requires
            1 <= n <= 0x20_0000_0000_0000,
    ;
}

/// What is about a fraction rounds about to it.
pub proof fn roundings_measure(a: Quantity, max: nat, p: nat, q: nat, parts: nat)
    requires
        is_finite(a),
        !is_negative(a),
        q > 0,
        about((size(a) * q) as int, (p * one_in_units()) as int, parts),
    ensures
        rounds_about(rounded_to(a, max), max, p, q, parts),
{
    let one = one_in_units();
    vstd::arithmetic::power2::lemma_pow2_pos(UNIT_POWER as nat);
    let s = size(a) as int;
    let n = (2 * size(a) + one) / (2 * one);
    let m = rounded_to(a, max);
    assert((2 * n - 1) * one <= 2 * s < (2 * n + 1) * one) by (nonlinear_arith)
        requires
            n == (2 * s + one) / (2 * one as int),
            one > 0,
    ;
    margins_scale(s * q, p * one as int, 2, parts);
    margins_scale(p * one as int, s * q, 2, parts);
    if m > 0 {
        let low = 2 * m - 1;
        assert(low * one <= (2 * n - 1) * one) by (nonlinear_arith)
            requires
                low <= 2 * n - 1,
                one > 0,
        ;
        assert((low * q) * one <= (s * q) * 2) by (nonlinear_arith)
            requires
                low * one <= (2 * n - 1) * one,
                (2 * n - 1) * one <= 2 * s,
                q > 0,
        ;
        assert(about_at_most((low * q) * one, (2 * p) * one as int, parts)) by (nonlinear_arith)
            requires
                (low * q) * one <= (s * q) * 2,
                ((s * q) * 2) * PARTS <= ((p * one) * 2) * (PARTS + parts),
                about_at_most((low * q) * one, (2 * p) * one as int, parts) == (((low * q) * one)
                    * PARTS <= ((2 * p) * one) * (PARTS + parts)),
        ;
        margins_cancel(low * q, 2 * p as int, one as int, parts);
    }
    if m < max {
        let high = (2 * m + 1) as int;
        assert((s * q) * 2 <= (high * q) * one) by (nonlinear_arith)
            requires
                2 * s <= high * one,
                q > 0,
        ;
        assert(about_at_most((2 * p) * one as int, (high * q) * one, parts)) by (nonlinear_arith)
            requires
                (s * q) * 2 <= (high * q) * one,
                ((p * one) * 2) * PARTS <= ((s * q) * 2) * (PARTS + parts),
                about_at_most((2 * p) * one as int, (high * q) * one, parts) == (((2 * p) * one)
                    * PARTS <= ((high * q) * one) * (PARTS + parts)),
        ;
        margins_cancel(2 * p as int, high * q, one as int, parts);
    }
}

} // verus!
