//! Quantities that are multiples of a power of two.
//!
//! Every quantity is a multiple of the last of its 53 binary digits. Sums and
//! products of such multiples are multiples of a power of two again, and
//! rounding keeps them so: what does not vanish is never less than that power.

use crate::binary::{SPAN, UNIT_POWER};
use crate::quantity::{Quantity, INFINITY_BITS};
use vstd::arithmetic::power2::pow2;
use vstd::prelude::*;

verus! {

use crate::binary::{
    is_finite, is_nearest, magnitudes_grow, nearest, nearest_exists, nearest_found,
    nearest_keeps_order, one_in_units, product, put_together, size, sum, units, value, values_stay,
};

/// Whether a size is a multiple of two to the power of `k`.
pub open spec fn is_multiple(u: nat, k: nat) -> bool {
    exists|j: nat| u == #[trigger] (j * pow2(k))
}

pub(crate) proof fn multiples_are_large(u: nat, k: nat)
    requires
        is_multiple(u, k),
        u > 0,
    ensures
        u >= pow2(k),
{
    let j = choose|j: nat| u == #[trigger] (j * pow2(k));
    assert(j * pow2(k) >= pow2(k)) by (nonlinear_arith)
        requires
            j * pow2(k) > 0,
    ;
}

/// Up to 53 binary digits, at any place, are a magnitude.
pub(crate) proof fn few_digits_are_exact(n: nat, k: nat) -> (mag: nat)
    requires
        n < 2 * SPAN,
        k <= 1900,
    ensures
        units(mag) == n * pow2(k),
        mag < INFINITY_BITS,
{
    if n == 0 {
        assert(0 * pow2(k) == 0);
        0
    } else {
        let by = crate::binary::places_to_lift(n);
        let a = pow2(by);
        if k >= by {
            let power = (k - by) as nat;
            let b = pow2(power);
            put_together(n * a, power);
            vstd::arithmetic::power2::lemma_pow2_adds(by, power);
            assert((n * a) * b == n * (a * b)) by (nonlinear_arith);
            let mag = power * SPAN as nat + n * a;
            assert(mag < INFINITY_BITS) by (nonlinear_arith)
                requires
                    mag == power * SPAN as nat + n * a,
                    power <= 1900,
                    n * a < 2 * SPAN,
                    INFINITY_BITS == 2047 * SPAN,
            ;
            mag
        } else {
            crate::binary::powers_within(k as u32, by as u32);
            let c = pow2(k);
            assert(n * c < 2 * SPAN) by (nonlinear_arith)
                requires
                    n * a < 2 * SPAN,
                    c <= a,
            ;
            vstd::arithmetic::power2::lemma2_to64();
            put_together(n * c, 0);
            assert((n * c) * 1 == n * c);
            n * c
        }
    }
}

/// A magnitude is a multiple of the last of its digits.
pub(crate) proof fn magnitudes_are_multiples(mag: nat, k: nat)
    requires
        units(mag) >= pow2(k + 52),
    ensures
        is_multiple(units(mag), k),
{
    let span = SPAN as nat;
    vstd::arithmetic::power2::lemma2_to64_rest();
    vstd::arithmetic::power2::lemma_pow2_adds(k, 52);
    vstd::arithmetic::power2::lemma_pow2_pos(k);
    assert(pow2(k) * span >= span) by (nonlinear_arith)
        requires
            pow2(k) >= 1,
    ;
    let high = mag / span;
    assert(high >= 1) by (nonlinear_arith)
        requires
            mag >= span,
            span > 0,
            high == mag / span,
    ;
    let e = (high - 1) as nat;
    let digits = span + mag % span;
    assert(units(mag) == digits * pow2(e));
    if e < k {
        vstd::arithmetic::power2::lemma_pow2_adds(e, 1);
        if e + 1 < k {
            vstd::arithmetic::power2::lemma_pow2_strictly_increases(e + 1, k);
        }
        vstd::arithmetic::power2::lemma2_to64();
        let p = pow2(e);
        vstd::arithmetic::power2::lemma_pow2_pos(e);
        assert(digits * p < (2 * p) * span) by (nonlinear_arith)
            requires
                digits < 2 * span,
                p > 0,
        ;
        assert((2 * p) * span <= pow2(k) * span) by (nonlinear_arith)
            requires
                2 * p <= pow2(k),
        ;
    }
    let more = (e - k) as nat;
    vstd::arithmetic::power2::lemma_pow2_adds(more, k);
    assert(digits * (pow2(more) * pow2(k)) == (digits * pow2(more)) * pow2(k)) by (nonlinear_arith);
    assert(units(mag) == (digits * pow2(more)) * pow2(k));
}

/// Rounding a multiple gives a multiple.
pub(crate) proof fn rounding_keeps_multiples(p: nat, k: nat)
    requires
        is_multiple(p, k),
        k <= 1800,
    ensures
        nearest(p, 1) <= INFINITY_BITS,
        is_multiple(units(nearest(p, 1)), k),
{
    let j = choose|j: nat| p == #[trigger] (j * pow2(k));
    nearest_exists(p, 1);
    if j < 2 * SPAN {
        let mag = few_digits_are_exact(j, k);
        values_stay(mag);
    } else {
        let mag = few_digits_are_exact(SPAN as nat, k + 1);
        values_stay(mag);
        vstd::arithmetic::power2::lemma_pow2_adds(k, 1);
        vstd::arithmetic::power2::lemma_pow2_adds(52, k + 1);
        vstd::arithmetic::power2::lemma2_to64_rest();
        vstd::arithmetic::power2::lemma2_to64();
        let a = pow2(k);
        assert(SPAN as nat * (2 * a) <= j * a) by (nonlinear_arith)
            requires
                j >= 2 * SPAN,
        ;
        nearest_keeps_order(units(mag), p, 1, mag, nearest(p, 1));
        if mag < nearest(p, 1) {
            magnitudes_grow(mag, nearest(p, 1));
        }
        vstd::arithmetic::power2::lemma_pow2_strictly_increases(k + 52, k + 53);
        magnitudes_are_multiples(nearest(p, 1), k);
    }
}

/// What is nearest does not depend on a common factor.
pub(crate) proof fn common_factors_do_not_matter(p: nat, c: nat)
    requires
        c > 0,
    ensures
        nearest(p * c, c) == nearest(p, 1),
{
    let mag = nearest(p, 1);
    nearest_exists(p, 1);
    if mag > 0 {
        midpoints_scale(p, (units((mag - 1) as nat) + units(mag)) as nat, c);
    }
    midpoints_scale(p, (units(mag) + units(mag + 1)) as nat, c);
    assert(is_nearest(p * c, c, mag));
    nearest_found(p * c, c, mag);
}

proof fn midpoints_scale(p: nat, m: nat, c: nat)
    requires
        c > 0,
    ensures
        2 * (p * c) < m * c <==> 2 * p < m * 1,
        2 * (p * c) == m * c <==> 2 * p == m * 1,
{
    if 2 * p < m {
        assert(2 * (p * c) < m * c) by (nonlinear_arith)
            requires
                2 * p < m,
                c > 0,
        ;
    } else if 2 * p > m {
        assert(2 * (p * c) > m * c) by (nonlinear_arith)
            requires
                2 * p > m,
                c > 0,
        ;
    } else {
        assert(2 * (p * c) == m * c) by (nonlinear_arith)
            requires
                2 * p == m,
        ;
    }
}

/// The product of two multiples is a multiple.
pub(crate) proof fn products_are_multiples(a: Quantity, b: Quantity, i: nat, j: nat, k: nat)
    requires
        is_finite(a),
        is_finite(b),
        is_multiple(size(a), i),
        is_multiple(size(b), j),
        i + j == UNIT_POWER + k,
        k <= 1800,
    ensures
        is_multiple(size(product(a, b)), k),
{
    let one = one_in_units();
    let x = choose|x: nat| size(a) == #[trigger] (x * pow2(i));
    let y = choose|y: nat| size(b) == #[trigger] (y * pow2(j));
    vstd::arithmetic::power2::lemma_pow2_adds(i, j);
    vstd::arithmetic::power2::lemma_pow2_adds(UNIT_POWER as nat, k);
    vstd::arithmetic::power2::lemma_pow2_pos(UNIT_POWER as nat);
    let (s, t) = (pow2(i), pow2(j));
    let p = (x * y) * pow2(k);
    assert((x * s) * (y * t) == p * one) by (nonlinear_arith)
        requires
            s * t == one * pow2(k),
            p == (x * y) * pow2(k),
    {
        assert((x * s) * (y * t) == (x * y) * (s * t));
    }
    common_factors_do_not_matter(p, one);
    rounding_keeps_multiples(p, k);
}

/// The sum of two multiples is a multiple.
pub(crate) proof fn sums_are_multiples(a: Quantity, b: Quantity, k: nat)
    requires
        is_finite(a),
        is_finite(b),
        is_multiple(size(a), k),
        is_multiple(size(b), k),
        k <= 1800,
    ensures
        is_multiple(size(sum(a, b)), k),
{
    let x = choose|x: nat| size(a) == #[trigger] (x * pow2(k));
    let y = choose|y: nat| size(b) == #[trigger] (y * pow2(k));
    let c = pow2(k);
    let m: int = if crate::binary::is_negative(a) {
        -x
    } else {
        x as int
    };
    let n: int = if crate::binary::is_negative(b) {
        -y
    } else {
        y as int
    };
    assert((-x) * c == -(x * c)) by (nonlinear_arith);
    assert((-y) * c == -(y * c)) by (nonlinear_arith);
    assert(m * c + n * c == (m + n) * c) by (nonlinear_arith);
    assert((-(m + n)) * c == -((m + n) * c)) by (nonlinear_arith);
    let exact = value(a) + value(b);
    assert(exact == (m + n) * c);
    if exact > 0 {
        assert(m + n >= 0) by (nonlinear_arith)
            requires
                (m + n) * c > 0,
                c >= 0,
        ;
        assert(exact as nat == (m + n) as nat * c);
        rounding_keeps_multiples(exact as nat, k);
    } else if exact < 0 {
        assert(m + n <= 0) by (nonlinear_arith)
            requires
                (m + n) * c < 0,
                c >= 0,
        ;
        assert((-exact) as nat == (-(m + n)) as nat * c);
        rounding_keeps_multiples((-exact) as nat, k);
    } else {
        assert(0nat * c == 0) by (nonlinear_arith);
    }
}

} // verus!
