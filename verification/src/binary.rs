//! Arithmetic on quantities.
//!
//! A finite quantity is a whole multiple of the smallest positive one, so
//! every sum, product and quotient can be stated over the integers: it is the
//! quantity nearest to the exact result, the one with the even bits where two
//! are equally near.

use crate::quantity::{Quantity, INFINITY_BITS, SIGN_BIT};
use vstd::arithmetic::power2::pow2;
use vstd::prelude::*;

verus! {

/// The bits of what is not a number.
pub const NAN_BITS: u64 = 0x7FF8_0000_0000_0000;

/// How many magnitudes share one spacing: two to the power of 52.
pub const SPAN: u64 = 0x10_0000_0000_0000;

/// How many times one must be halved to reach the smallest positive quantity.
pub const UNIT_POWER: u32 = 1074;

// What a magnitude stands for.

/// The value of the magnitude bits `mag`, in multiples of the smallest
/// positive quantity. Up to `SPAN` the magnitudes stand one multiple apart,
/// and after each further `SPAN` of them twice as far apart as before. The
/// bits of infinity stand for the value that would come after the largest
/// finite one.
pub open spec fn units(mag: nat) -> nat {
    if mag < SPAN {
        mag
    } else {
        ((SPAN + mag % SPAN as nat) * pow2((mag / SPAN as nat - 1) as nat)) as nat
    }
}

/// How far the next magnitude after `mag` lies from it.
pub open spec fn spacing(mag: nat) -> nat {
    if mag < SPAN {
        1
    } else {
        pow2((mag / SPAN as nat - 1) as nat)
    }
}

/// Whether `mag` is the magnitude nearest to `p / q` multiples of the
/// smallest positive quantity: `p / q` lies between the midpoints to the two
/// neighbours, and on a midpoint only for even bits.
pub open spec fn is_nearest(p: nat, q: nat, mag: nat) -> bool {
    &&& mag <= INFINITY_BITS
    &&& mag > 0 ==> {
        let midpoint = (units((mag - 1) as nat) + units(mag)) * q;
        2 * p > midpoint || (2 * p == midpoint && mag % 2 == 0)
    }
    &&& mag < INFINITY_BITS ==> {
        let midpoint = (units(mag) + units(mag + 1)) * q;
        2 * p < midpoint || (2 * p == midpoint && mag % 2 == 0)
    }
}

/// The magnitude nearest to `p / q` multiples of the smallest positive
/// quantity.
pub open spec fn nearest(p: nat, q: nat) -> nat {
    choose|mag: nat| is_nearest(p, q, mag)
}

pub(crate) proof fn spacing_is_the_step(mag: nat)
    ensures
        units(mag + 1) == units(mag) + spacing(mag),
        spacing(mag) > 0,
{
    let span = SPAN as nat;
    if mag + 1 < span {
    } else if mag + 1 == span {
        assert((mag + 1) % span == 0 && (mag + 1) / span == 1) by (nonlinear_arith)
            requires
                mag + 1 == span,
                span > 0,
        ;
        vstd::arithmetic::power2::lemma2_to64();
        assert(units(mag + 1) == (span + 0) * 1);
    } else {
        let high = mag / span;
        let low = mag % span;
        assert(mag == high * span + low && low < span && high >= 1) by (nonlinear_arith)
            requires
                mag >= span,
                span > 0,
                high == mag / span,
                low == mag % span,
        ;
        vstd::arithmetic::power2::lemma_pow2_pos((high - 1) as nat);
        assert(units(mag) == (span + low) * pow2((high - 1) as nat));
        if low + 1 < span {
            assert((mag + 1) / span == high && (mag + 1) % span == low + 1) by {
                vstd::arithmetic::div_mod::lemma_fundamental_div_mod_converse(
                    (mag + 1) as int,
                    span as int,
                    high as int,
                    (low + 1) as int,
                );
            }
            assert((span + low + 1) * pow2((high - 1) as nat) == (span + low) * pow2(
                (high - 1) as nat,
            ) + pow2((high - 1) as nat)) by (nonlinear_arith);
            assert(units(mag + 1) == (span + (low + 1)) * pow2((high - 1) as nat));
        } else {
            assert((mag + 1) / span == high + 1 && (mag + 1) % span == 0) by {
                assert(mag + 1 == (high + 1) * span) by (nonlinear_arith)
                    requires
                        mag == high * span + low,
                        low + 1 == span,
                ;
                vstd::arithmetic::div_mod::lemma_fundamental_div_mod_converse(
                    (mag + 1) as int,
                    span as int,
                    (high + 1) as int,
                    0,
                );
            }
            vstd::arithmetic::power2::lemma_pow2_unfold(high);
            assert(span * pow2(high) == (span + low) * pow2((high - 1) as nat) + pow2(
                (high - 1) as nat,
            )) by (nonlinear_arith)
                requires
                    pow2(high) == 2 * pow2((high - 1) as nat),
                    low + 1 == span,
            ;
            assert(units(mag + 1) == (span + 0) * pow2(high));
        }
    }
}

/// Larger magnitudes stand for larger values.
pub proof fn magnitudes_grow(a: nat, b: nat)
    requires
        a < b,
    ensures
        units(a) < units(b),
    decreases b - a,
{
    spacing_is_the_step(a);
    if a + 1 < b {
        magnitudes_grow(a + 1, b);
    }
}

/// No more than one magnitude is nearest.
pub proof fn nearest_is_one(p: nat, q: nat, a: nat, b: nat)
    requires
        q > 0,
        is_nearest(p, q, a),
        is_nearest(p, q, b),
    ensures
        a == b,
{
    if a < b {
        nothing_above_is_nearest(p, q, a, b);
    } else if b < a {
        nothing_above_is_nearest(p, q, b, a);
    }
}

proof fn nothing_above_is_nearest(p: nat, q: nat, a: nat, b: nat)
    requires
        q > 0,
        is_nearest(p, q, a),
        a < b,
    ensures
        !is_nearest(p, q, b),
{
    magnitudes_grow(a, a + 1);
    let above = units(a) + units(a + 1);
    let below = units((b - 1) as nat) + units(b);
    if a + 1 < b {
        magnitudes_grow(a, (b - 1) as nat);
        magnitudes_grow(a + 1, b);
        assert(above * q < below * q) by (nonlinear_arith)
            requires
                above < below,
                q > 0,
        ;
    }
}

/// A magnitude that is nearest is the nearest.
pub proof fn nearest_found(p: nat, q: nat, mag: nat)
    requires
        q > 0,
        is_nearest(p, q, mag),
    ensures
        nearest(p, q) == mag,
{
    nearest_is_one(p, q, mag, nearest(p, q));
}

proof fn some_magnitude_is_nearest(p: nat, q: nat, mag: nat) -> (r: nat)
    requires
        q > 0,
        mag <= INFINITY_BITS,
        mag < INFINITY_BITS ==> {
            let midpoint = (units(mag) + units(mag + 1)) * q;
            2 * p < midpoint || (2 * p == midpoint && mag % 2 == 0)
        },
    ensures
        is_nearest(p, q, r),
    decreases mag,
{
    if is_nearest(p, q, mag) {
        mag
    } else {
        some_magnitude_is_nearest(p, q, (mag - 1) as nat)
    }
}

/// Every value has a nearest magnitude.
pub proof fn nearest_exists(p: nat, q: nat)
    requires
        q > 0,
    ensures
        is_nearest(p, q, nearest(p, q)),
{
    let mag = some_magnitude_is_nearest(p, q, INFINITY_BITS as nat);
}

/// A value that a finite quantity has is its own nearest.
pub proof fn exact_values_stay(mag: nat, q: nat)
    requires
        mag < INFINITY_BITS,
        q > 0,
    ensures
        is_nearest(units(mag) * q, q, mag),
        nearest(units(mag) * q, q) == mag,
{
    spacing_is_the_step(mag);
    let u = units(mag);
    if mag > 0 {
        magnitudes_grow((mag - 1) as nat, mag);
        let v = units((mag - 1) as nat);
        assert(2 * (u * q) > (v + u) * q) by (nonlinear_arith)
            requires
                v < u,
                q > 0,
        ;
    }
    let w = units(mag + 1);
    assert(2 * (u * q) < (u + w) * q) by (nonlinear_arith)
        requires
            u < w,
            q > 0,
    ;
    nearest_found(units(mag) * q, q, mag);
}

pub(crate) proof fn put_together(digits: nat, power: nat)
    requires
        digits <= 2 * SPAN,
        power == 0 || digits >= SPAN,
    ensures
        units(power * SPAN as nat + digits) == digits * pow2(power),
        digits < 2 * SPAN ==> spacing(power * SPAN as nat + digits) == pow2(power),
        (power * SPAN as nat + digits) % 2 == digits % 2,
{
    let span = SPAN as nat;
    let mag = power * span + digits;
    assert((power * span + digits) % 2 == digits % 2) by (nonlinear_arith)
        requires
            span == 2 * 0x8_0000_0000_0000,
    ;
    vstd::arithmetic::power2::lemma2_to64();
    if digits < span {
        assert(mag == digits) by (nonlinear_arith)
            requires
                mag == power * span + digits,
                power == 0,
        ;
        assert(digits * 1 == digits);
    } else if digits < 2 * span {
        let rest = (digits - span) as nat;
        assert(mag == (power + 1) * span + rest) by (nonlinear_arith)
            requires
                mag == power * span + digits,
                rest == digits - span,
        ;
        vstd::arithmetic::div_mod::lemma_fundamental_div_mod_converse(
            mag as int,
            span as int,
            (power + 1) as int,
            rest as int,
        );
        assert(mag >= span) by (nonlinear_arith)
            requires
                mag == power * span + digits,
                digits >= span,
        ;
        assert(units(mag) == (span + rest) * pow2(power));
    } else {
        assert(mag == (power + 2) * span) by (nonlinear_arith)
            requires
                mag == power * span + digits,
                digits == 2 * span,
        ;
        vstd::arithmetic::div_mod::lemma_fundamental_div_mod_converse(
            mag as int,
            span as int,
            (power + 2) as int,
            0,
        );
        vstd::arithmetic::power2::lemma_pow2_unfold(power + 1);
        assert(mag >= span) by (nonlinear_arith)
            requires
                mag == power * span + digits,
                digits >= span,
        ;
        assert(units(mag) == (span + 0) * pow2(power + 1));
        assert(span * pow2(power + 1) == digits * pow2(power)) by (nonlinear_arith)
            requires
                pow2(power + 1) == 2 * pow2(power),
                digits == 2 * span,
        ;
    }
}

pub(crate) proof fn zero_stays_zero(q: nat)
    requires
        q > 0,
    ensures
        nearest(0, q) == 0,
{
    exact_values_stay(0, q);
    assert(units(0) * q == 0) by (nonlinear_arith)
        requires
            units(0) == 0,
    ;
}

pub(crate) proof fn powers_within(n: u32, limit: u32)
    requires
        n <= limit,
    ensures
        pow2(n as nat) <= pow2(limit as nat),
{
    if n < limit {
        vstd::arithmetic::power2::lemma_pow2_strictly_increases(n as nat, limit as nat);
    }
}

/// A magnitude is nearest to its own value.
pub proof fn values_stay(mag: nat)
    requires
        mag < INFINITY_BITS,
    ensures
        is_nearest(units(mag), 1, mag),
        nearest(units(mag), 1) == mag,
{
    exact_values_stay(mag, 1);
    let u = units(mag);
    assert(u * 1 == u) by (nonlinear_arith);
}

// Sums, products and quotients.

/// Whether a quantity carries a minus sign.
pub open spec fn is_negative(a: Quantity) -> bool {
    a.bits >= SIGN_BIT
}

/// Whether a quantity is infinite.
pub open spec fn is_infinite(a: Quantity) -> bool {
    a.magnitude() == INFINITY_BITS
}

/// Whether a quantity is a number and not infinite.
pub open spec fn is_finite(a: Quantity) -> bool {
    a.magnitude() < INFINITY_BITS
}

/// The size of a quantity, in multiples of the smallest positive one.
pub open spec fn size(a: Quantity) -> nat {
    units(a.magnitude() as nat)
}

/// The value of a finite quantity, in multiples of the smallest positive one.
pub open spec fn value(a: Quantity) -> int {
    if is_negative(a) {
        -size(a)
    } else {
        size(a) as int
    }
}

/// The multiples of the smallest positive quantity that make one.
pub open spec fn one_in_units() -> nat {
    pow2(UNIT_POWER as nat)
}

/// What is not a number.
pub open spec fn not_a_number() -> Quantity {
    Quantity { bits: NAN_BITS }
}

/// The quantity with this sign and these magnitude bits.
pub open spec fn with_sign(negative: bool, mag: nat) -> Quantity {
    Quantity {
        bits: (mag + if negative {
            SIGN_BIT as nat
        } else {
            0
        }) as u64,
    }
}

/// `a` with the other sign.
pub open spec fn negated(a: Quantity) -> Quantity {
    with_sign(!is_negative(a), a.magnitude() as nat)
}

/// `a + b`.
pub open spec fn sum(a: Quantity, b: Quantity) -> Quantity {
    if !a.is_number() || !b.is_number() {
        not_a_number()
    } else if is_infinite(a) && is_infinite(b) && is_negative(a) != is_negative(b) {
        not_a_number()
    } else if is_infinite(a) {
        a
    } else if is_infinite(b) {
        b
    } else {
        let exact = value(a) + value(b);
        if exact == 0 {
            with_sign(is_negative(a) && is_negative(b), 0)
        } else if exact < 0 {
            with_sign(true, nearest((-exact) as nat, 1))
        } else {
            with_sign(false, nearest(exact as nat, 1))
        }
    }
}

/// `a - b`.
pub open spec fn difference(a: Quantity, b: Quantity) -> Quantity {
    sum(a, negated(b))
}

/// `a * b`.
pub open spec fn product(a: Quantity, b: Quantity) -> Quantity {
    let negative = is_negative(a) != is_negative(b);
    if !a.is_number() || !b.is_number() {
        not_a_number()
    } else if is_infinite(a) || is_infinite(b) {
        if size(a) == 0 || size(b) == 0 {
            not_a_number()
        } else {
            with_sign(negative, INFINITY_BITS as nat)
        }
    } else {
        with_sign(negative, nearest(size(a) * size(b), one_in_units()))
    }
}

/// `a / b`.
pub open spec fn quotient(a: Quantity, b: Quantity) -> Quantity {
    let negative = is_negative(a) != is_negative(b);
    if !a.is_number() || !b.is_number() {
        not_a_number()
    } else if is_infinite(a) {
        if is_infinite(b) {
            not_a_number()
        } else {
            with_sign(negative, INFINITY_BITS as nat)
        }
    } else if is_infinite(b) {
        with_sign(negative, 0)
    } else if size(b) == 0 {
        if size(a) == 0 {
            not_a_number()
        } else {
            with_sign(negative, INFINITY_BITS as nat)
        }
    } else {
        with_sign(negative, nearest(size(a) * one_in_units(), size(b)))
    }
}

/// The quantity nearest to a whole number.
pub open spec fn whole(n: nat) -> Quantity {
    with_sign(false, nearest(n * one_in_units(), 1))
}

/// The quantity nearest to a whole number of either sign.
pub open spec fn signed_whole(n: int) -> Quantity {
    if n < 0 {
        negated(whole((-n) as nat))
    } else {
        whole(n as nat)
    }
}

/// A quantity rounded to a whole number, halves away from zero, and held
/// within `0..=max`. What is not a number counts as zero.
pub open spec fn rounded_to(a: Quantity, max: nat) -> nat {
    if !a.is_number() || is_negative(a) {
        0
    } else if is_infinite(a) {
        max
    } else {
        let n = (2 * size(a) + one_in_units()) / (2 * one_in_units());
        if n > max {
            max
        } else {
            n
        }
    }
}

/// A quantity rounded to a whole one, halves away from zero.
pub open spec fn whole_near(a: Quantity) -> Quantity {
    if !is_finite(a) {
        a
    } else {
        let n = (2 * size(a) + one_in_units()) / (2 * one_in_units());
        with_sign(is_negative(a), whole(n).magnitude() as nat)
    }
}

/// The least whole quantity that is no less than `a`.
pub open spec fn whole_above(a: Quantity) -> Quantity {
    if !is_finite(a) {
        a
    } else if is_negative(a) {
        with_sign(true, whole(size(a) / one_in_units()).magnitude() as nat)
    } else {
        whole((size(a) + one_in_units() - 1) as nat / one_in_units())
    }
}

/// The lesser of two quantities; of a quantity and what is not a number, the
/// quantity.
pub open spec fn lesser(a: Quantity, b: Quantity) -> Quantity {
    if b.less(a) || !a.is_number() {
        b
    } else {
        a
    }
}

/// The greater of two quantities; of a quantity and what is not a number, the
/// quantity.
pub open spec fn greater(a: Quantity, b: Quantity) -> Quantity {
    if a.less(b) || !a.is_number() {
        b
    } else {
        a
    }
}

/// `a`, held within `low..=high`.
pub open spec fn clamped(a: Quantity, low: Quantity, high: Quantity) -> Quantity {
    if a.less(low) {
        low
    } else if high.less(a) {
        high
    } else {
        a
    }
}

/// The size of a quantity is zero only for the zeros.
pub proof fn only_zeros_have_no_size(a: Quantity)
    ensures
        size(a) == 0 <==> a.magnitude() == 0,
{
    if a.magnitude() > 0 {
        magnitudes_grow(0, a.magnitude() as nat);
    }
}

pub(crate) proof fn wholes_are_their_own(mag: nat)
    requires
        mag < INFINITY_BITS,
        one_in_units() > 0,
        units(mag) % one_in_units() == 0,
    ensures
        whole(units(mag) / one_in_units()) == with_sign(false, mag),
{
    let one = one_in_units();
    vstd::arithmetic::div_mod::lemma_fundamental_div_mod(units(mag) as int, one as int);
    assert((units(mag) / one) * one == units(mag)) by (nonlinear_arith)
        requires
            units(mag) == one * (units(mag) / one) + units(mag) % one,
            units(mag) % one == 0,
    ;
    values_stay(mag);
}

// What holds of the arithmetic.

/// Sums do not depend on the order of their terms.
pub proof fn sums_commute(a: Quantity, b: Quantity)
    requires
        a.is_number(),
        b.is_number(),
    ensures
        sum(a, b) == sum(b, a),
{
}

/// Products do not depend on the order of their factors.
pub proof fn products_commute(a: Quantity, b: Quantity)
    ensures
        product(a, b) == product(b, a),
{
    assert(size(a) * size(b) == size(b) * size(a)) by (nonlinear_arith);
}

/// Adding nothing changes nothing.
pub proof fn adding_zero_keeps(a: Quantity, zero: Quantity)
    requires
        is_finite(a),
        a.magnitude() > 0,
        zero.magnitude() == 0,
    ensures
        sum(a, zero) == a,
        sum(zero, a) == a,
        difference(a, zero) == a,
{
    only_zeros_have_no_size(a);
    values_stay(a.magnitude() as nat);
}

/// One, exactly.
pub proof fn one_is_one()
    ensures
        size(Quantity { bits: crate::quantity::ONE_BITS }) == one_in_units(),
        whole(1) == (Quantity { bits: crate::quantity::ONE_BITS }),
{
    let mag = crate::quantity::ONE_BITS as nat;
    assert(mag == 1022 * SPAN as nat + SPAN);
    put_together(SPAN as nat, 1022);
    vstd::arithmetic::power2::lemma_pow2_adds(52, 1022);
    vstd::arithmetic::power2::lemma2_to64_rest();
    values_stay(mag);
    assert(1 * one_in_units() == one_in_units());
}

/// Multiplying by one changes nothing.
pub proof fn one_keeps(a: Quantity)
    requires
        is_finite(a),
    ensures
        product(Quantity { bits: crate::quantity::ONE_BITS }, a) == a,
{
    one_is_one();
    vstd::arithmetic::power2::lemma_pow2_pos(UNIT_POWER as nat);
    exact_values_stay(a.magnitude() as nat, one_in_units());
    assert(one_in_units() * size(a) == size(a) * one_in_units()) by (nonlinear_arith);
}

/// Multiplying by zero leaves nothing.
pub proof fn zero_takes_all(zero: Quantity, a: Quantity)
    requires
        zero.magnitude() == 0,
        is_finite(a),
    ensures
        product(zero, a).magnitude() == 0,
{
    vstd::arithmetic::power2::lemma_pow2_pos(UNIT_POWER as nat);
    zero_stays_zero(one_in_units());
    assert(size(zero) * size(a) == 0) by (nonlinear_arith)
        requires
            size(zero) == 0,
    ;
}

/// Dividing by itself leaves one.
pub proof fn parts_of_itself_are_one(a: Quantity)
    requires
        is_finite(a),
        a.magnitude() > 0,
    ensures
        quotient(a, a) == (Quantity { bits: crate::quantity::ONE_BITS }),
{
    one_is_one();
    only_zeros_have_no_size(a);
    let one = crate::quantity::ONE_BITS as nat;
    exact_values_stay(one, size(a));
    assert(size(a) * one_in_units() == units(one) * size(a)) by (nonlinear_arith)
        requires
            units(one) == one_in_units(),
    ;
}

/// The nearest magnitude does not fall as the value grows.
pub proof fn nearest_keeps_order(p: nat, r: nat, q: nat, a: nat, b: nat)
    requires
        q > 0,
        p <= r,
        is_nearest(p, q, a),
        is_nearest(r, q, b),
    ensures
        a <= b,
{
    if b < a {
        let above = (units(b) + units(b + 1)) * q;
        let below = (units((a - 1) as nat) + units(a)) * q;
        if b + 1 < a {
            magnitudes_grow(b, (a - 1) as nat);
            magnitudes_grow(b + 1, a);
            assert(above < below) by (nonlinear_arith)
                requires
                    above == (units(b) + units(b + 1)) * q,
                    below == (units((a - 1) as nat) + units(a)) * q,
                    units(b) < units((a - 1) as nat),
                    units(b + 1) < units(a),
                    q > 0,
            ;
        }
    }
}

/// One quantity is less than another exactly when its value is.
pub proof fn order_is_that_of_values(a: Quantity, b: Quantity)
    requires
        is_finite(a),
        is_finite(b),
    ensures
        a.less(b) <==> value(a) < value(b),
        a.at_most(b) <==> value(a) <= value(b),
{
    let x = a.magnitude() as nat;
    let y = b.magnitude() as nat;
    if x < y {
        magnitudes_grow(x, y);
    } else if y < x {
        magnitudes_grow(y, x);
    }
    only_zeros_have_no_size(a);
    only_zeros_have_no_size(b);
}

/// Whatever is more than nothing stays more than nothing when it is a whole
/// number of the smallest quantity.
proof fn something_stays_something(p: nat)
    requires
        p > 0,
    ensures
        0 < nearest(p, 1) <= INFINITY_BITS,
{
    nearest_exists(p, 1);
    values_stay(1);
    nearest_keeps_order(1, p, 1, 1, nearest(p, 1));
}

/// A difference is negative exactly when the first quantity is the lesser.
pub proof fn differences_have_the_sign(a: Quantity, b: Quantity)
    requires
        is_finite(a),
        is_finite(b),
    ensures
        difference(a, b).less(Quantity { bits: 0 }) <==> a.less(b),
        (Quantity { bits: 0 }).less(difference(a, b)) <==> b.less(a),
{
    order_is_that_of_values(a, b);
    order_is_that_of_values(b, a);
    let c = negated(b);
    assert(value(c) == -value(b));
    let exact = value(a) - value(b);
    if exact > 0 {
        something_stays_something(exact as nat);
    } else if exact < 0 {
        something_stays_something((-exact) as nat);
    }
}

/// Whole numbers of up to 53 binary digits are quantities, exactly.
pub proof fn small_wholes_are_exact(n: nat)
    requires
        n < 2 * SPAN,
    ensures
        size(whole(n)) == n * one_in_units(),
        one_in_units() > 0,
        n > 0 ==> size(whole(n)) > 0,
        is_finite(whole(n)),
        !is_negative(whole(n)),
{
    vstd::arithmetic::power2::lemma_pow2_pos(UNIT_POWER as nat);
    if n == 0 {
        zero_stays_zero(1);
        assert(0 * one_in_units() == 0);
    } else {
        let one = one_in_units();
        assert(n * one > 0) by (nonlinear_arith)
            requires
                n > 0,
                one > 0,
        ;
        let by = places_to_lift(n);
        let digits = n * pow2(by);
        let power = (UNIT_POWER - by) as nat;
        put_together(digits, power);
        let mag = power * SPAN as nat + digits;
        vstd::arithmetic::power2::lemma_pow2_adds(by, power);
        let a = pow2(by);
        let b = pow2(power);
        assert((n * a) * b == n * (a * b)) by (nonlinear_arith);
        assert(by + power == UNIT_POWER);
        assert(mag < INFINITY_BITS) by (nonlinear_arith)
            requires
                mag == power * SPAN as nat + digits,
                power <= 1074,
                digits < 2 * SPAN,
                INFINITY_BITS == 2047 * SPAN,
        ;
        values_stay(mag);
    }
}

pub(crate) proof fn places_to_lift(n: nat) -> (by: nat)
    requires
        0 < n < 2 * SPAN,
    ensures
        by <= 52,
        SPAN <= n * pow2(by) < 2 * SPAN,
    decreases 2 * SPAN - n,
{
    vstd::arithmetic::power2::lemma2_to64();
    vstd::arithmetic::power2::lemma2_to64_rest();
    if n >= SPAN {
        assert(n * pow2(0) == n);
        0
    } else {
        let by = places_to_lift(2 * n);
        vstd::arithmetic::power2::lemma_pow2_unfold(by + 1);
        let a = pow2(by);
        assert(n * (2 * a) == (2 * n) * a) by (nonlinear_arith);
        if by >= 52 {
            powers_within(52, by as u32);
            assert((2 * n) * a >= 2 * SPAN) by (nonlinear_arith)
                requires
                    n >= 1,
                    a >= SPAN,
            ;
        }
        by + 1
    }
}

/// Larger whole numbers are larger quantities.
pub proof fn wholes_keep_order(a: nat, b: nat)
    requires
        a <= b < 2 * SPAN,
    ensures
        size(whole(a)) <= size(whole(b)),
{
    small_wholes_are_exact(a);
    small_wholes_are_exact(b);
    larger_factors_make_more(a, b, one_in_units());
}

/// Sums of whole numbers are exact while they have up to 53 binary digits.
pub proof fn small_sums_are_exact(a: nat, b: nat)
    requires
        a + b < 2 * SPAN,
    ensures
        sum(whole(a), whole(b)) == whole(a + b),
{
    small_wholes_are_exact(a);
    small_wholes_are_exact(b);
    small_wholes_are_exact(a + b);
    let one = one_in_units();
    vstd::arithmetic::power2::lemma_pow2_pos(UNIT_POWER as nat);
    assert((a + b) * one == a * one + b * one) by (nonlinear_arith);
    if a + b == 0 {
        assert(0 * one == 0);
        zero_stays_zero(1);
    } else {
        assert((a + b) * one > 0) by (nonlinear_arith)
            requires
                a + b > 0,
                one > 0,
        ;
    }
}

/// A whole number of up to 53 binary digits rounds to itself.
pub proof fn wholes_round_to_themselves(n: nat, max: nat)
    requires
        n < 2 * SPAN,
    ensures
        rounded_to(whole(n), max) == if n > max {
            max
        } else {
            n
        },
{
    small_wholes_are_exact(n);
    let one = one_in_units();
    vstd::arithmetic::power2::lemma_pow2_pos(UNIT_POWER as nat);
    assert(2 * (n * one) + one == n * (2 * one) + one) by (nonlinear_arith);
    vstd::arithmetic::div_mod::lemma_fundamental_div_mod_converse(
        (2 * (n * one) + one) as int,
        (2 * one) as int,
        n as int,
        one as int,
    );
}

/// A finite quantity and a number make a number.
pub proof fn sums_are_numbers(a: Quantity, b: Quantity)
    requires
        is_finite(a),
        b.is_number(),
    ensures
        sum(a, b).is_number(),
{
    let exact = value(a) + value(b);
    if exact > 0 {
        nearest_exists(exact as nat, 1);
    } else if exact < 0 {
        nearest_exists((-exact) as nat, 1);
    }
}

/// A finite quantity that is not zero, times a number, is a number.
pub proof fn products_are_numbers(a: Quantity, b: Quantity)
    requires
        is_finite(a),
        size(a) > 0,
        b.is_number(),
    ensures
        product(a, b).is_number(),
{
    vstd::arithmetic::power2::lemma_pow2_pos(UNIT_POWER as nat);
    nearest_exists(size(a) * size(b), one_in_units());
    only_zeros_have_no_size(b);
}

/// A number over a finite quantity that is not zero is a number.
pub proof fn quotients_are_numbers(a: Quantity, b: Quantity)
    requires
        a.is_number(),
        is_finite(b),
        size(b) > 0,
    ensures
        quotient(a, b).is_number(),
{
    nearest_exists(size(a) * one_in_units(), size(b));
}

/// A multiple of a whole number, divided by it, is exact while it has up to
/// 53 binary digits.
pub proof fn wholes_divide_exactly(n: nat, d: nat)
    requires
        0 < d < 2 * SPAN,
        n * d < 2 * SPAN,
    ensures
        quotient(whole(n * d), whole(d)) == whole(n),
{
    assert(n <= n * d) by (nonlinear_arith)
        requires
            d >= 1,
    ;
    let one = one_in_units();
    small_wholes_are_exact(n * d);
    small_wholes_are_exact(n);
    small_wholes_are_exact(d);
    exact_values_stay(whole(n).magnitude() as nat, size(whole(d)));
    assert(((n * d) * one) * one == (n * one) * (d * one)) by (nonlinear_arith);
}

/// Every whole number is near some number that is not negative.
pub proof fn wholes_are_numbers(n: nat)
    ensures
        whole(n).is_number(),
        !is_negative(whole(n)),
{
    nearest_exists(n * one_in_units(), 1);
}

/// What is not zero or less, over what is not zero or less, is not less than
/// zero.
pub proof fn positive_parts_are_not_negative(a: Quantity, b: Quantity)
    requires
        !a.at_most(Quantity { bits: 0 }),
        !b.at_most(Quantity { bits: 0 }),
    ensures
        !quotient(a, b).less(Quantity { bits: 0 }),
{
    only_zeros_have_no_size(b);
    if size(b) > 0 {
        nearest_exists(size(a) * one_in_units(), size(b));
    }
}

/// What is at least one rounds to at least one.
pub proof fn one_or_more_rounds_to_one_or_more(a: Quantity, max: nat)
    requires
        (Quantity { bits: crate::quantity::ONE_BITS }).at_most(a),
        max >= 1,
    ensures
        rounded_to(a, max) >= 1,
{
    one_is_one();
    let one = one_in_units();
    vstd::arithmetic::power2::lemma_pow2_pos(UNIT_POWER as nat);
    if is_finite(a) {
        let mag = a.magnitude() as nat;
        if (crate::quantity::ONE_BITS as nat) < mag {
            magnitudes_grow(crate::quantity::ONE_BITS as nat, mag);
        }
        let n = (2 * size(a) + one) / (2 * one);
        assert(n >= 1) by (nonlinear_arith)
            requires
                n == (2 * size(a) + one) / (2 * one),
                size(a) >= one,
                one > 0,
        ;
    }
}

/// Zero, as a whole number, is the positive zero.
pub proof fn nothing_is_zero()
    ensures
        whole(0) == (Quantity { bits: 0 }),
{
    zero_stays_zero(1);
    assert(0 * one_in_units() == 0);
}

/// Nothing, divided, is nothing.
pub proof fn parts_of_nothing_are_nothing(a: Quantity)
    requires
        is_finite(a),
        !is_negative(a),
        size(a) > 0,
    ensures
        quotient(Quantity { bits: 0 }, a) == (Quantity { bits: 0 }),
{
    zero_stays_zero(size(a));
    assert(0 * one_in_units() == 0);
}

/// A quantity less itself is nothing.
pub proof fn nothing_is_left(a: Quantity)
    requires
        is_finite(a),
    ensures
        difference(a, a) == (Quantity { bits: 0 }),
{
}

/// Of two quantities that are not negative, the larger comes to no less when
/// both are divided.
pub proof fn parts_keep_order(a: Quantity, b: Quantity, c: Quantity)
    requires
        is_finite(a),
        is_finite(b),
        is_finite(c),
        !is_negative(a),
        !is_negative(b),
        !is_negative(c),
        size(a) <= size(b),
        size(c) > 0,
    ensures
        quotient(a, c).at_most(quotient(b, c)),
        !is_negative(quotient(a, c)),
{
    let one = one_in_units();
    larger_factors_make_more(size(a), size(b), one);
    nearest_exists(size(a) * one, size(c));
    nearest_exists(size(b) * one, size(c));
    nearest_keeps_order(
        size(a) * one,
        size(b) * one,
        size(c),
        nearest(size(a) * one, size(c)),
        nearest(size(b) * one, size(c)),
    );
}

/// What is at least as large as its divisor comes to at least one.
pub proof fn large_parts_exceed_one(a: Quantity, b: Quantity)
    requires
        is_finite(a),
        is_finite(b),
        !is_negative(a),
        !is_negative(b),
        0 < size(b) <= size(a),
    ensures
        (Quantity { bits: crate::quantity::ONE_BITS }).at_most(quotient(a, b)),
{
    let one = crate::quantity::ONE_BITS as nat;
    one_is_one();
    exact_values_stay(one, size(b));
    nearest_exists(size(a) * one_in_units(), size(b));
    assert(units(one) * size(b) <= size(a) * one_in_units()) by (nonlinear_arith)
        requires
            units(one) == one_in_units(),
            size(b) <= size(a),
    ;
    nearest_keeps_order(
        units(one) * size(b),
        size(a) * one_in_units(),
        size(b),
        one,
        nearest(size(a) * one_in_units(), size(b)),
    );
}

pub(crate) proof fn larger_factors_make_more(a: nat, b: nat, c: nat)
    requires
        a <= b,
    ensures
        a * c <= b * c,
{
    assert(a * c <= b * c) by (nonlinear_arith)
        requires
            a <= b,
    ;
}

} // verus!
