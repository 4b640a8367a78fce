//! How near the nearest quantity is.
//!
//! A result that is neither tiny nor vast is off by at most one part in two
//! to the power of 53. A few steps of arithmetic on such results therefore
//! stay close enough to the exact value to round to the same whole number.

use crate::binary::{SPAN, UNIT_POWER};
use crate::quantity::INFINITY_BITS;
use vstd::arithmetic::power2::pow2;
use vstd::prelude::*;

verus! {

use crate::binary::{
    exact_values_stay, is_nearest, larger_factors_make_more, magnitudes_grow, nearest,
    nearest_exists, nearest_keeps_order, one_in_units, product, put_together, quotient,
    rounded_to, size, small_wholes_are_exact, spacing, spacing_is_the_step, units, whole,
    with_sign,
};

/// Two to the power of 53: a result is off by at most one part in so many.
pub const PARTS: u64 = 0x20_0000_0000_0000;

/// Whether a size is within one part of the exact value `p / q`.
pub open spec fn is_close(p: nat, q: nat, u: nat) -> bool {
    &&& u * q * (PARTS - 1) <= p * PARTS
    &&& p * PARTS <= u * q * (PARTS + 1)
}

/// A result that is not tiny exceeds the exact value by at most one part.
pub proof fn nearest_is_not_much_more(p: nat, q: nat, mag: nat)
    requires
        q > 0,
        is_nearest(p, q, mag),
        SPAN <= mag,
    ensures
        units(mag) * q * (PARTS - 1) <= p * PARTS,
{
    let span = SPAN as nat;
    let u = units(mag);
    let below = units((mag - 1) as nat);
    let d = spacing((mag - 1) as nat);
    spacing_is_the_step((mag - 1) as nat);
    steps_are_small(mag);
    assert((below + u) * q * span >= u * q * (2 * span - 1)) by (nonlinear_arith)
        requires
            below + d == u,
            d * span <= u,
    {
        assert((below + u) * span == 2 * u * span - d * span);
        assert((below + u) * q * span == ((below + u) * span) * q);
        assert(u * q * (2 * span - 1) == (2 * u * span - u) * q);
    }
    let b = (below + u) * q;
    assert(p * (2 * span) >= b * span) by (nonlinear_arith)
        requires
            2 * p >= b,
    ;
}

/// From the smallest magnitude with 53 binary digits on, the steps to the
/// neighbours are small.
proof fn steps_are_small(mag: nat)
    requires
        SPAN <= mag,
    ensures
        spacing(mag) * SPAN <= units(mag),
        spacing((mag - 1) as nat) * SPAN <= units(mag),
{
    let span = SPAN as nat;
    let u = units(mag);
    let s = spacing(mag);
    let d = spacing((mag - 1) as nat);
    let power = (mag / span - 1) as nat;
    let low = mag % span;
    assert(mag / span >= 1) by (nonlinear_arith)
        requires
            mag >= span,
            span > 0,
    ;
    assert(u == (span + low) * s);
    assert(s * span <= u) by (nonlinear_arith)
        requires
            u == (span + low) * s,
            low >= 0,
    ;
    assert(d <= s) by {
        vstd::arithmetic::power2::lemma2_to64();
        if mag - 1 >= span {
            let before = ((mag - 1) / span as int - 1) as nat;
            assert((mag - 1) / span as int <= mag as int / span as int) by {
                vstd::arithmetic::div_mod::lemma_div_is_ordered(mag - 1, mag as int, span as int);
            }
            assert((mag - 1) / span as int >= 1) by (nonlinear_arith)
                requires
                    mag - 1 >= span,
                    span > 0,
            ;
            if before < power {
                vstd::arithmetic::power2::lemma_pow2_strictly_increases(before, power);
            }
        } else {
            vstd::arithmetic::power2::lemma_pow2_pos(power);
        }
    }
    larger_factors_make_more(d, s, span);
}

/// A result that is neither tiny nor vast is close.
pub proof fn nearest_is_close(p: nat, q: nat, mag: nat)
    requires
        q > 0,
        is_nearest(p, q, mag),
        SPAN <= mag < INFINITY_BITS,
    ensures
        is_close(p, q, units(mag)),
{
    nearest_is_not_much_more(p, q, mag);
    let span = SPAN as nat;
    let u = units(mag);
    let s = spacing(mag);
    spacing_is_the_step(mag);
    steps_are_small(mag);
    assert((u + (u + s)) * q * span <= u * q * (2 * span + 1)) by (nonlinear_arith)
        requires
            s * span <= u,
    ;
    let a = (u + (u + s)) * q;
    assert(p * (2 * span) <= a * span) by (nonlinear_arith)
        requires
            2 * p <= a,
    ;
}

/// The magnitude of two to the power of `k`.
pub open spec fn power_mag(k: int) -> nat {
    ((1023 + k) * SPAN) as nat
}

/// Two to the power of `k`, in multiples of the smallest positive quantity.
pub open spec fn power_units(k: int) -> nat {
    pow2((UNIT_POWER + k) as nat)
}

pub(crate) proof fn powers_are_magnitudes(k: int)
    requires
        -1000 <= k <= 1000,
    ensures
        units(power_mag(k)) == power_units(k),
        SPAN <= power_mag(k) < INFINITY_BITS,
{
    vstd::arithmetic::power2::lemma2_to64_rest();
    let power = (1022 + k) as nat;
    put_together(SPAN as nat, power);
    assert(power * SPAN as nat + SPAN as nat == power_mag(k)) by (nonlinear_arith)
        requires
            power == 1022 + k,
            power_mag(k) == (1023 + k) * SPAN,
    ;
    vstd::arithmetic::power2::lemma_pow2_adds(52, power);
    assert(52 + power == UNIT_POWER + k);
    assert(SPAN <= (1023 + k) * SPAN < 2047 * SPAN) by (nonlinear_arith)
        requires
            -1000 <= k <= 1000,
            SPAN > 0,
    ;
}

/// A value between two powers of two has a close magnitude between them.
pub(crate) proof fn nearest_between(p: nat, q: nat, low: int, high: int) -> (mag: nat)
    requires
        q > 0,
        -1000 <= low <= high <= 1000,
        power_units(low) * q <= p <= power_units(high) * q,
    ensures
        mag == nearest(p, q),
        SPAN <= mag < INFINITY_BITS,
        is_close(p, q, units(mag)),
        power_units(low) <= units(mag) <= power_units(high),
{
    powers_are_magnitudes(low);
    powers_are_magnitudes(high);
    let mag = nearest(p, q);
    nearest_exists(p, q);
    exact_values_stay(power_mag(low), q);
    exact_values_stay(power_mag(high), q);
    nearest_keeps_order(power_units(low) * q, p, q, power_mag(low), mag);
    nearest_keeps_order(p, power_units(high) * q, q, mag, power_mag(high));
    nearest_is_close(p, q, mag);
    if power_mag(low) < mag {
        magnitudes_grow(power_mag(low), mag);
    }
    if mag < power_mag(high) {
        magnitudes_grow(mag, power_mag(high));
    }
    mag
}

pub(crate) proof fn scaled_powers(k: int, j: nat)
    requires
        -1000 <= k <= 1000,
        -1000 <= k + j <= 1000,
    ensures
        power_units(k + j) == pow2(j) * power_units(k),
        power_units(k) > 0,
{
    vstd::arithmetic::power2::lemma_pow2_adds(j, (UNIT_POWER + k) as nat);
    vstd::arithmetic::power2::lemma_pow2_pos((UNIT_POWER + k) as nat);
    assert(j + (UNIT_POWER + k) as nat == (UNIT_POWER + (k + j)) as nat);
}

/// Whole minutes, turned into the rate at which `points` percent take them
/// and back again, are the same minutes.
pub proof fn minutes_survive_the_rate(points: nat, minutes: nat)
    requires
        0 < points <= 255,
        0 < minutes <= u32::MAX,
    ensures
        ({
            let rate = quotient(whole(points), quotient(whole(minutes), whole(60)));
            rounded_to(product(quotient(whole(points), rate), whole(60)), u32::MAX as nat)
                == minutes
        }),
{
    let w = one_in_units();
    small_wholes_are_exact(points);
    small_wholes_are_exact(minutes);
    small_wholes_are_exact(60);
    vstd::arithmetic::power2::lemma2_to64();
    assert(power_units(0) == w);
    // Hours: minutes / 60.
    let hours_p = (minutes * w) * w;
    let hours_q = 60 * w;
    scaled_powers(-6, 6);
    scaled_powers(0, 32);
    let sixth = power_units(-6);
    let vast = power_units(32);
    assert(w == 64 * sixth);
    assert(vast == 0x1_0000_0000 * w);
    assert(sixth * hours_q <= hours_p) by (nonlinear_arith)
        requires
            hours_q == 60 * w,
            hours_p == (minutes * w) * w,
            w == 64 * sixth,
            minutes >= 1,
    {
        assert(hours_p >= w * w);
        assert(w * w == 64 * (sixth * w));
        assert(sixth * hours_q == 60 * (sixth * w));
    }
    assert(hours_p <= vast * hours_q) by (nonlinear_arith)
        requires
            hours_q == 60 * w,
            hours_p == (minutes * w) * w,
            vast == 0x1_0000_0000 * w,
            minutes <= 0x1_0000_0000,
    {
        assert(hours_p == minutes * (w * w));
        assert(vast * hours_q == (60 * 0x1_0000_0000) * (w * w));
        assert(minutes * (w * w) <= (60 * 0x1_0000_0000) * (w * w));
    }
    let hours_mag = nearest_between(hours_p, hours_q, -6, 32);
    let x = units(hours_mag);
    let hours = quotient(whole(minutes), whole(60));
    assert(hours == with_sign(false, hours_mag));
    assert(size(hours) == x);
    // Rate: points / hours.
    let points_p = (points * w) * w;
    scaled_powers(-32, 32);
    scaled_powers(0, 14);
    let tiny = power_units(-32);
    let brisk = power_units(14);
    assert(w == 0x1_0000_0000 * tiny);
    assert(brisk == 0x4000 * w);
    assert(tiny * x <= points_p) by (nonlinear_arith)
        requires
            points_p == (points * w) * w,
            x <= vast,
            vast == 0x1_0000_0000 * w,
            w == 0x1_0000_0000 * tiny,
            points >= 1,
    {
        assert(tiny * x <= tiny * vast);
        assert(tiny * vast == (0x1_0000_0000 * tiny) * w);
        assert(points_p >= w * w);
    }
    assert(points_p <= brisk * x) by (nonlinear_arith)
        requires
            points_p == (points * w) * w,
            x >= sixth,
            w == 64 * sixth,
            brisk == 0x4000 * w,
            points <= 255,
    {
        assert(points_p == points * (w * w));
        assert(w * w == 64 * (w * sixth));
        assert(points * (64 * (w * sixth)) == (points * 64) * (w * sixth));
        assert((points * 64) * (w * sixth) <= 0x4000 * (w * sixth));
        assert(brisk * x >= (0x4000 * w) * sixth);
        assert((0x4000 * w) * sixth == 0x4000 * (w * sixth));
    }
    let rate_mag = nearest_between(points_p, x, -32, 14);
    let r = units(rate_mag);
    let rate = quotient(whole(points), hours);
    assert(rate == with_sign(false, rate_mag));
    assert(size(rate) == r);
    // And back: points / rate.
    scaled_powers(-14, 14);
    scaled_powers(0, 40);
    let slow = power_units(-14);
    let long = power_units(40);
    assert(w == 0x4000 * slow);
    assert(long == 0x100_0000_0000 * w) by {
        vstd::arithmetic::power2::lemma2_to64_rest();
    }
    assert(slow * r <= points_p) by (nonlinear_arith)
        requires
            points_p == (points * w) * w,
            r <= brisk,
            brisk == 0x4000 * w,
            w == 0x4000 * slow,
            points >= 1,
    {
        assert(slow * r <= slow * brisk);
        assert(slow * brisk == (0x4000 * slow) * w);
        assert(points_p >= w * w);
    }
    assert(points_p <= long * r) by (nonlinear_arith)
        requires
            points_p == (points * w) * w,
            r >= tiny,
            w == 0x1_0000_0000 * tiny,
            long == 0x100_0000_0000 * w,
            points <= 255,
    {
        assert(points_p == points * (w * w));
        assert(w * w == 0x1_0000_0000 * (w * tiny));
        assert(points * (0x1_0000_0000 * (w * tiny)) == (points * 0x1_0000_0000) * (w * tiny));
        assert((points * 0x1_0000_0000) * (w * tiny) <= 0x100_0000_0000 * (w * tiny));
        assert(long * r >= (0x100_0000_0000 * w) * tiny);
        assert((0x100_0000_0000 * w) * tiny == 0x100_0000_0000 * (w * tiny));
    }
    let back_mag = nearest_between(points_p, r, -14, 40);
    let y = units(back_mag);
    let back = quotient(whole(points), rate);
    assert(back == with_sign(false, back_mag));
    assert(size(back) == y);
    // In minutes: times 60.
    let end_p = y * (60 * w);
    scaled_powers(40, 6);
    let longer = power_units(46);
    assert(longer == 64 * long);
    assert(slow * w <= end_p) by (nonlinear_arith)
        requires
            end_p == y * (60 * w),
            y >= slow,
    {
        assert(y * (60 * w) == 60 * (y * w));
        assert(y * w >= slow * w);
    }
    assert(end_p <= longer * w) by (nonlinear_arith)
        requires
            end_p == y * (60 * w),
            y <= long,
            longer == 64 * long,
    {
        assert(y * (60 * w) == 60 * (y * w));
        assert(y * w <= long * w);
        assert(longer * w == 64 * (long * w));
    }
    let end_mag = nearest_between(end_p, w, -14, 46);
    let z = units(end_mag);
    let end = product(back, whole(60));
    assert(end == with_sign(false, end_mag));
    assert(size(end) == z);
    chained_errors(points, minutes, w, x, r, y, z);
    vstd::arithmetic::div_mod::lemma_fundamental_div_mod_converse(
        (2 * z + w) as int,
        (2 * w) as int,
        minutes as int,
        2 * z + w - minutes * (2 * w),
    );
}

proof fn chained_errors(n: nat, m: nat, w: nat, x: nat, r: nat, y: nat, z: nat)
    requires
        0 < m <= u32::MAX,
        w > 0,
        r > 0,
        is_close((m * w) * w, 60 * w, x),
        is_close((n * w) * w, x, r),
        is_close((n * w) * w, r, y),
        is_close(y * (60 * w), w, z),
    ensures
        0 <= 2 * z + w - m * (2 * w) < 2 * w,
{
    let e = PARTS as int;
    // Without the common factors.
    assert(60 * x * (e - 1) <= m * w * e && m * w * e <= 60 * x * (e + 1)) by {
        assert(x * (60 * w) * (e - 1) == (60 * x * (e - 1)) * w) by (nonlinear_arith);
        assert(x * (60 * w) * (e + 1) == (60 * x * (e + 1)) * w) by (nonlinear_arith);
        assert(((m * w) * w) * e == (m * w * e) * w) by (nonlinear_arith);
        cancels(60 * x * (e - 1), m * w * e, w as int);
        cancels(m * w * e, 60 * x * (e + 1), w as int);
    }
    assert(y * (e - 1) <= x * (e + 1) && x * (e - 1) <= y * (e + 1)) by {
        assert(y * r * (e - 1) == (y * (e - 1)) * r) by (nonlinear_arith);
        assert(y * r * (e + 1) == (y * (e + 1)) * r) by (nonlinear_arith);
        assert(r * x * (e - 1) == (x * (e - 1)) * r) by (nonlinear_arith);
        assert(r * x * (e + 1) == (x * (e + 1)) * r) by (nonlinear_arith);
        cancels(y * (e - 1), x * (e + 1), r as int);
        cancels(x * (e - 1), y * (e + 1), r as int);
    }
    assert(z * (e - 1) <= 60 * y * e && 60 * y * e <= z * (e + 1)) by {
        assert(z * w * (e - 1) == (z * (e - 1)) * w) by (nonlinear_arith);
        assert(z * w * (e + 1) == (z * (e + 1)) * w) by (nonlinear_arith);
        assert((y * (60 * w)) * e == (60 * y * e) * w) by (nonlinear_arith);
        cancels(z * (e - 1), 60 * y * e, w as int);
        cancels(60 * y * e, z * (e + 1), w as int);
    }
    // With constant factors everything below is linear.
    let whole_minutes = m * w;
    assert(z * 0x1f_ffff_ffff_ffff <= y * 0x780_0000_0000_0000 && y * 0x780_0000_0000_0000 <= z
        * 0x20_0000_0000_0001) by (nonlinear_arith)
        requires
            z * (e - 1) <= 60 * y * e,
            60 * y * e <= z * (e + 1),
            e == 0x20_0000_0000_0000,
    ;
    assert(y * 0x1f_ffff_ffff_ffff <= x * 0x20_0000_0000_0001 && x * 0x1f_ffff_ffff_ffff <= y
        * 0x20_0000_0000_0001) by (nonlinear_arith)
        requires
            y * (e - 1) <= x * (e + 1),
            x * (e - 1) <= y * (e + 1),
            e == 0x20_0000_0000_0000,
    ;
    assert(60 * x * 0x1f_ffff_ffff_ffff <= whole_minutes * 0x20_0000_0000_0000 && whole_minutes
        * 0x20_0000_0000_0000 <= 60 * x * 0x20_0000_0000_0001) by (nonlinear_arith)
        requires
            60 * x * (e - 1) <= m * w * e,
            m * w * e <= 60 * x * (e + 1),
            whole_minutes == m * w,
            e == 0x20_0000_0000_0000,
    ;
    assert(whole_minutes <= 0xffff_ffff * w) by (nonlinear_arith)
        requires
            whole_minutes == m * w,
            m <= 0xffff_ffff,
    ;
    assert(m * (2 * w) == 2 * whole_minutes) by (nonlinear_arith)
        requires
            whole_minutes == m * w,
    ;
    assert(2 * z + w - 2 * whole_minutes < 2 * w);
    assert(2 * z + w - 2 * whole_minutes >= 0);
}

proof fn cancels(a: int, b: int, c: int)
    requires
        c > 0,
        a * c <= b * c,
    ensures
        a <= b,
{
    assert(a <= b) by (nonlinear_arith)
        requires
            c > 0,
            a * c <= b * c,
    ;
}

} // verus!
