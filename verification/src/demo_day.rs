//! How the made-up day goes: an hour on the adapter, five hours of drain, and
//! a top-up that lasts to the end.

use crate::demo::{DemoPhase, BURST_BITS};
use crate::margin::{rounding_adds_little, rounding_takes_little};
use crate::power::{PowerState, DEMO_FULL_BITS};
use crate::precision::PARTS;
use crate::quantity::{Quantity, INFINITY_BITS, NINETY_SIX_BITS, ONE_BITS};
use crate::storage::SAMPLE_INTERVAL_SECS;
use crate::window::Decay;
use vstd::arithmetic::power2::pow2;
use vstd::prelude::*;

verus! {

use crate::binary::{
    clamped, difference, is_finite, is_negative, magnitudes_grow, nearest, nearest_exists,
    one_in_units, one_is_one, order_is_that_of_values, product, put_together, quotient, size,
    small_wholes_are_exact, sum, units, value, whole,
};
use crate::demo::{
    demo_level, demo_moments, demo_sample, demo_start, drain_rate, phase_at, phase_delta, replayed,
};

/// What one rounding may be off by in the course of the day.
spec fn crumb() -> nat {
    pow2(1044)
}

proof fn crumbs_are_small()
    ensures
        one_in_units() == 0x4000_0000 * crumb(),
        crumb() >= 1000,
{
    vstd::arithmetic::power2::lemma2_to64();
    vstd::arithmetic::power2::lemma_pow2_adds(30, 1044);
    vstd::arithmetic::power2::lemma_pow2_strictly_increases(10, 1044);
}

/// Rounding takes no more than a crumb off what is not large.
proof fn rounding_takes_a_crumb(p: nat, q: nat, x: int)
    requires
        q > 0,
        x * q <= p,
        x <= 0x1000 * one_in_units(),
    ensures
        nearest(p, q) <= INFINITY_BITS,
        units(nearest(p, q)) >= x - crumb(),
{
    crumbs_are_small();
    let mag = nearest(p, q);
    nearest_exists(p, q);
    let u = units(mag);
    if mag < INFINITY_BITS {
        rounding_takes_little(p, q, mag);
        assert(x * PARTS <= (u + 1) * (PARTS + 1)) by (nonlinear_arith)
            requires
                x * q <= p,
                p * PARTS <= ((u + 1) * q) * (PARTS + 1),
                q > 0,
        {
            assert((x * PARTS) * q == (x * q) * PARTS);
            assert((x * q) * PARTS <= p * PARTS);
            assert(((u + 1) * q) * (PARTS + 1) == ((u + 1) * (PARTS + 1)) * q);
            assert((x * PARTS) * q <= ((u + 1) * (PARTS + 1)) * q);
        }
        let e = crumb();
        assert(x <= 0x400_0000_0000 * e);
        if u < x - e {
            assert((u + 1) * (PARTS + 1) < x * PARTS) by (nonlinear_arith)
                requires
                    u + 1 <= x - e,
                    x <= 0x400_0000_0000 * e,
                    e >= 1000,
                    PARTS == 0x20_0000_0000_0000,
            {
                assert((u + 1) * (PARTS + 1) <= (x - e) * (PARTS + 1));
                assert((x - e) * (PARTS + 1) == x * PARTS + x - e * (PARTS + 1));
            }
        }
    } else {
        crate::precision::powers_are_magnitudes(12);
        vstd::arithmetic::power2::lemma2_to64();
        crate::precision::scaled_powers(0, 12);
        magnitudes_grow(crate::precision::power_mag(12), mag);
    }
}

/// Rounding adds no more than a crumb to what is not large.
proof fn rounding_adds_a_crumb(p: nat, q: nat, x: int)
    requires
        q > 0,
        p <= x * q,
        0 <= x <= 0x1000 * one_in_units(),
    ensures
        nearest(p, q) < INFINITY_BITS,
        units(nearest(p, q)) <= x + crumb(),
{
    crumbs_are_small();
    let mag = nearest(p, q);
    nearest_exists(p, q);
    let u = units(mag);
    rounding_adds_little(p, q, mag);
    assert((u - 1) * PARTS <= x * (PARTS + 2)) by (nonlinear_arith)
        requires
            p <= x * q,
            ((u - 1) * q) * PARTS <= p * (PARTS + 2),
            q > 0,
    {
        assert(((u - 1) * PARTS) * q == ((u - 1) * q) * PARTS);
        assert(p * (PARTS + 2) <= (x * q) * (PARTS + 2));
        assert((x * q) * (PARTS + 2) == (x * (PARTS + 2)) * q);
        assert(((u - 1) * PARTS) * q <= (x * (PARTS + 2)) * q);
    }
    let e = crumb();
    assert(x <= 0x400_0000_0000 * e);
    if u > x + e {
        assert((u - 1) * PARTS > x * (PARTS + 2)) by (nonlinear_arith)
            requires
                u - 1 >= x + e,
                0 <= x <= 0x400_0000_0000 * e,
                e >= 1000,
                PARTS == 0x20_0000_0000_0000,
        {
            assert((u - 1) * PARTS >= (x + e) * PARTS);
            assert((x + e) * PARTS == x * PARTS + e * PARTS);
        }
    }
    if mag >= INFINITY_BITS {
        crate::precision::powers_are_magnitudes(13);
        vstd::arithmetic::power2::lemma2_to64();
        crate::precision::scaled_powers(0, 13);
        magnitudes_grow(crate::precision::power_mag(13), mag);
    }
}

/// The burst makes the drain at least 1.8 times as fast.
proof fn bursts_are_fast()
    ensures
        10 * size(Quantity { bits: BURST_BITS }) >= 18 * one_in_units(),
        is_finite(Quantity { bits: BURST_BITS }),
{
    let digits = 0x1C_CCCC_CCCC_CCCDnat;
    put_together(digits, 1022);
    assert(BURST_BITS == 1022 * crate::binary::SPAN as nat + digits);
    one_is_one();
    put_together(crate::binary::SPAN as nat, 1022);
    assert(ONE_BITS == 1022 * crate::binary::SPAN as nat + crate::binary::SPAN);
    let a = pow2(1022);
    assert(10 * (digits * a) >= 18 * (0x10_0000_0000_0000 * a)) by (nonlinear_arith)
        requires
            digits == 0x1C_CCCC_CCCC_CCCDnat,
            a >= 0,
    ;
}

/// With the charge at no more than `most` percent, a minute of drain takes
/// at least so many six-thousandths of a percent.
spec fn drain_step(most: nat, burst: bool) -> int {
    if burst {
        (63 * (300 - most)) / 5 - 7
    } else {
        7 * (300 - most) - 7
    }
}

/// How far a minute of drain goes.
proof fn drains_are_brisk(level: Quantity, most: nat, burst: bool)
    requires
        is_finite(level),
        0 <= value(level) <= most * one_in_units(),
        most <= 100,
    ensures
        ({
            let delta = phase_delta(DemoPhase::Draining { burst }, level);
            &&& delta.is_number()
            &&& value(delta) <= 0
            &&& -value(delta) * 6000 >= (drain_step(most, burst) + 1) * one_in_units()
        }),
{
    let one = one_in_units() as int;
    let e = crumb() as int;
    crumbs_are_small();
    small_wholes_are_exact(14);
    small_wholes_are_exact(60);
    small_wholes_are_exact(100);
    small_wholes_are_exact(200);
    one_is_one();
    bursts_are_fast();
    let k = 100 - most;
    assert(most * one + k * one == 100 * one) by (nonlinear_arith)
        requires
            most + k == 100,
    ;
    assert(0 <= k * one <= 100 * one) by (nonlinear_arith)
        requires
            0 <= k <= 100,
            one > 0,
    ;
    // What is missing of a full charge.
    let missing = difference(whole(100), level);
    let m = size(missing) as int;
    assert(value(crate::binary::negated(level)) == -value(level));
    let exact = 100 * one - value(level);
    assert(!is_negative(missing) && missing.is_number() && m >= k * one - e) by {
        if exact > 0 {
            assert((k * one) * 1 == k * one);
            rounding_takes_a_crumb(exact as nat, 1, k * one);
        } else {
            assert(is_negative(crate::binary::negated(level)) || !is_negative(whole(100)));
        }
    }
    // As a part of two hundred.
    let part = quotient(missing, whole(200));
    let q = size(whole(200));
    let p0 = (k * one - e) / 200;
    assert(200 * p0 <= k * one - e < 200 * p0 + 200);
    assert(!is_negative(part) && part.is_number() && size(part) >= p0 - e) by {
        if is_finite(missing) {
            assert(p0 * q <= m * one) by (nonlinear_arith)
                requires
                    q == 200 * one,
                    200 * p0 <= m,
                    one > 0,
            ;
            rounding_takes_a_crumb((m * one) as nat, q, p0);
        } else {
            too_large_for_the_day(INFINITY_BITS as nat);
        }
    }
    // The shape of the drain.
    let unit = Quantity { bits: ONE_BITS };
    let shape = sum(unit, part);
    let s0 = one + p0 - 2 * e;
    assert(!is_negative(shape) && shape.is_number() && size(shape) >= s0) by {
        if is_finite(part) {
            let total = one_in_units() + size(part);
            assert((s0 + e) * 1 == s0 + e);
            rounding_takes_a_crumb(total, 1, s0 + e);
        } else {
            too_large_for_the_day(INFINITY_BITS as nat);
        }
    }
    // Its rate, steady and in the burst.
    let steady = product(whole(14), shape);
    let r0 = 14 * s0 - e;
    assert(!is_negative(steady) && steady.is_number() && size(steady) >= r0) by {
        if is_finite(shape) {
            let n = size(whole(14)) * size(shape);
            assert((14 * s0) * one <= n) by (nonlinear_arith)
                requires
                    n == (14 * one) * size(shape),
                    size(shape) >= s0,
                    one > 0,
            ;
            rounding_takes_a_crumb(n, one as nat, 14 * s0);
        } else {
            too_large_for_the_day(INFINITY_BITS as nat);
        }
    }
    let factor = Quantity {
        bits: if burst {
            BURST_BITS
        } else {
            ONE_BITS
        },
    };
    let rate = drain_rate(level, burst);
    assert(rate == product(steady, factor));
    let f = size(factor) as int;
    let t0 = if burst {
        (18 * r0) / 10
    } else {
        r0
    };
    assert(!is_negative(rate) && rate.is_number() && size(rate) >= t0 - e) by {
        if is_finite(steady) {
            let n = size(steady) * size(factor);
            assert(t0 * one <= n) by {
                if burst {
                    assert(10 * t0 <= 18 * r0);
                    assert(t0 * one <= n) by (nonlinear_arith)
                        requires
                            n == size(steady) * f,
                            size(steady) >= r0,
                            r0 >= 0,
                            10 * f >= 18 * one,
                            10 * t0 <= 18 * r0,
                            one > 0,
                    {
                        assert(10 * (size(steady) * f) == size(steady) * (10 * f));
                        assert(size(steady) * (10 * f) >= size(steady) * (18 * one));
                        assert(size(steady) * (18 * one) >= r0 * (18 * one));
                        assert(r0 * (18 * one) == (18 * r0) * one);
                        assert((10 * t0) * one <= (18 * r0) * one);
                    }
                } else {
                    assert(t0 * one <= n) by (nonlinear_arith)
                        requires
                            n == size(steady) * f,
                            size(steady) >= t0,
                            f == one,
                            one > 0,
                    ;
                }
            }
            rounding_takes_a_crumb(n, one as nat, t0);
        } else {
            crate::binary::only_zeros_have_no_size(factor);
            too_large_for_the_day(INFINITY_BITS as nat);
        }
    }
    // A sixtieth of it.
    let delta = quotient(crate::binary::negated(rate), whole(60));
    let w = size(whole(60));
    let d0 = (t0 - e) / 60;
    assert(60 * d0 <= t0 - e < 60 * d0 + 60);
    assert(delta.is_number() && is_negative(delta) && size(delta) >= d0 - e) by {
        if is_finite(rate) {
            let n = size(rate) * one_in_units();
            assert(d0 * w <= n) by (nonlinear_arith)
                requires
                    w == 60 * one,
                    n == size(rate) * one,
                    60 * d0 <= size(rate),
                    one > 0,
            ;
            rounding_takes_a_crumb(n, w, d0);
        } else {
            too_large_for_the_day(INFINITY_BITS as nat);
        }
    }
    let d = size(delta) as int;
    let share = k * one;
    crumbs_do_not_matter(one, e, share, p0, d, burst);
    steps_in_shares(one, k, share, most, burst);
    assert(value(delta) == -d);
    if burst {
        assert((drain_step(most, burst) + 1) * one * 5 <= d * 6000 * 5);
    }
}

/// The steps of the drain, by the share of the charge that is missing.
proof fn steps_in_shares(one: int, k: int, share: int, most: nat, burst: bool)
    requires
        one > 0,
        share == k * one,
        most + k == 100,
        k >= 0,
    ensures
        burst ==> (drain_step(most, burst) + 1) * one * 5 <= 12600 * one + 63 * share - 30 * one,
        !burst ==> (drain_step(most, burst) + 1) * one == 1400 * one + 7 * share - 6 * one,
{
    let step = drain_step(most, burst);
    if burst {
        assert(5 * step <= 63 * (200 + k) - 35);
        assert((step + 1) * one * 5 <= (63 * (200 + k) - 30) * one) by (nonlinear_arith)
            requires
                5 * step <= 63 * (200 + k) - 35,
                one > 0,
        ;
        assert((63 * (200 + k) - 30) * one == 12600 * one + 63 * share - 30 * one)
            by (nonlinear_arith)
            requires
                share == k * one,
        ;
    } else {
        assert((step + 1) * one == 1400 * one + 7 * share - 6 * one) by (nonlinear_arith)
            requires
                step == 7 * (200 + k) - 7,
                share == k * one,
        ;
    }
}

/// All that was rounded away in a minute comes to next to nothing.
proof fn crumbs_do_not_matter(one: int, e: int, share: int, p0: int, d: int, burst: bool)
    requires
        one == 0x4000_0000 * e,
        e >= 1000,
        200 * p0 >= share - e - 200,
        ({
            let r0 = 14 * (one + p0 - 2 * e) - e;
            let t0 = if burst {
                (18 * r0) / 10
            } else {
                r0
            };
            d >= (t0 - e) / 60 - e
        }),
    ensures
        burst ==> d * 30000 >= 12600 * one + 63 * share - 30 * one,
        !burst ==> d * 6000 >= 1400 * one + 7 * share - 6 * one,
{
}

proof fn too_large_for_the_day(mag: nat)
    requires
        mag >= INFINITY_BITS,
    ensures
        units(mag) >= 0x1000 * one_in_units(),
{
    crate::precision::powers_are_magnitudes(12);
    vstd::arithmetic::power2::lemma2_to64();
    crate::precision::scaled_powers(0, 12);
    magnitudes_grow(crate::precision::power_mag(12), mag);
}

/// Whether the charge after `n` minutes is no more than so many
/// six-thousandths of a percent.
spec fn is_within(n: nat, b: int) -> bool {
    value(demo_level(n)) * 6000 <= b * one_in_units()
}

proof fn levels_have_values(n: nat)
    ensures
        is_finite(demo_level(n)),
        0 <= value(demo_level(n)) <= 100 * one_in_units(),
{
    crate::demo::demo_levels_stay_in_range(n);
    small_wholes_are_exact(100);
    let level = demo_level(n);
    order_is_that_of_values(Quantity { bits: 0 }, level);
    order_is_that_of_values(level, whole(100));
}

/// The charge after a minute is no more than before it and what came in.
proof fn minutes_add_up(n: nat, b: int)
    requires
        ({
            let delta = phase_delta(phase_at(n, demo_level(n)), demo_level(n));
            &&& delta.is_number()
            &&& is_finite(delta) ==> (value(demo_level(n)) + value(delta)) * 6000 <= (b - 1)
                * one_in_units()
            &&& !is_finite(delta) ==> is_negative(delta)
        }),
        1 <= b <= 1_000_000,
    ensures
        is_within(n + 1, b),
{
    let level = demo_level(n);
    let delta = phase_delta(phase_at(n, level), level);
    let zero = Quantity { bits: 0 };
    let full = whole(100);
    let moved = sum(level, delta);
    let next = demo_level(n + 1);
    let one = one_in_units() as int;
    let e = crumb() as int;
    crumbs_are_small();
    levels_have_values(n);
    levels_have_values(n + 1);
    small_wholes_are_exact(100);
    assert(next == clamped(moved, zero, full));
    assert(b * one >= one) by (nonlinear_arith)
        requires
            b >= 1,
            one > 0,
    ;
    assert((b - 1) * one == b * one - one) by (nonlinear_arith);
    if is_finite(delta) {
        let exact = value(level) + value(delta);
        if exact > 0 {
            assert(b * one <= 1_000_000 * one) by (nonlinear_arith)
                requires
                    b <= 1_000_000,
                    one > 0,
            ;
            assert(exact * 1 == exact);
            rounding_adds_a_crumb(exact as nat, 1, exact);
            assert(value(moved) <= exact + e);
            order_is_that_of_values(full, moved);
            order_is_that_of_values(moved, zero);
        } else {
            if exact < 0 {
                nearest_exists((-exact) as nat, 1);
            }
            assert(moved.is_number() && (is_negative(moved) || size(moved) == 0));
            crate::binary::only_zeros_have_no_size(moved);
            crate::binary::only_zeros_have_no_size(full);
        }
    } else {
        assert(moved == delta);
    }
}

/// A stage of the drain, with the charge at no more than `most` percent.
proof fn drain_goes_on(from: nat, minutes: nat, most: nat, burst: bool, b: int)
    requires
        60 <= from,
        from + minutes <= 360,
        burst ==> 170 <= from && from + minutes <= 200,
        !burst ==> from + minutes <= 170 || 200 <= from,
        most <= 100,
        b <= 6000 * most,
        is_within(from, b),
        b - minutes * drain_step(most, burst) >= 1,
    ensures
        is_within(from + minutes, b - minutes * drain_step(most, burst)),
    decreases minutes,
{
    let d = drain_step(most, burst);
    if minutes == 0 {
        assert(b - 0 * d == b);
    } else {
        let before = (minutes - 1) as nat;
        let n = from + before;
        let left = b - before * d;
        assert(left == b - minutes * d + d) by (nonlinear_arith)
            requires
                left == b - before * d,
                before == minutes - 1,
        ;
        assert(0 <= before * d) by (nonlinear_arith)
            requires
                d >= 0,
                before >= 0,
        ;
        drain_goes_on(from, before, most, burst, b);
        let one = one_in_units() as int;
        levels_have_values(n);
        let level = demo_level(n);
        small_wholes_are_exact(1);
        assert(value(level) <= most * one) by (nonlinear_arith)
            requires
                value(level) * 6000 <= left * one,
                left <= 6000 * most,
                one > 0,
        ;
        drains_are_brisk(level, most, burst);
        assert(phase_at(n, level) == DemoPhase::Draining { burst });
        let delta = phase_delta(DemoPhase::Draining { burst }, level);
        crate::binary::only_zeros_have_no_size(delta);
        assert((left - d - 1) * one == left * one - (d + 1) * one) by (nonlinear_arith);
        minutes_add_up(n, left - d);
    }
}

/// After the five hours of drain, little of the charge is left.
proof fn drains_leave_little()
    ensures
        is_within(360, 72_400),
{
    levels_have_values(60);
    assert(is_within(60, 600_000));
    drain_goes_on(60, 60, 100, false, 600_000);
    drain_goes_on(120, 50, 87, false, 516_420);
    drain_goes_on(170, 30, 74, true, 442_220);
    drain_goes_on(200, 60, 60, false, 357_020);
    drain_goes_on(260, 60, 43, false, 256_640);
    drain_goes_on(320, 40, 25, false, 149_120);
}

/// Two hours of topping up stay below the point at which it would end.
proof fn top_ups_go_on(minutes: nat)
    requires
        minutes <= 120,
    ensures
        is_within(360 + minutes, 72_400 + 4002 * minutes as int),
        demo_level(360 + minutes).less(Quantity { bits: NINETY_SIX_BITS }),
    decreases minutes,
{
    let one = one_in_units() as int;
    let e = crumb() as int;
    crumbs_are_small();
    if minutes == 0 {
        drains_leave_little();
    } else {
        let n = (360 + minutes - 1) as nat;
        top_ups_go_on((minutes - 1) as nat);
        let level = demo_level(n);
        levels_have_values(n);
        assert(phase_at(n, level) == DemoPhase::ToppingUp);
        let delta = phase_delta(DemoPhase::ToppingUp, level);
        small_wholes_are_exact(40);
        small_wholes_are_exact(60);
        let x = (2 * one) / 3 + 1;
        let p = size(whole(40)) * one_in_units();
        assert(p <= x * (60 * one)) by (nonlinear_arith)
            requires
                p == (40 * one) * one,
                3 * x >= 2 * one,
                one > 0,
        {
            assert(x * (60 * one) == (3 * x) * (20 * one));
            assert((3 * x) * (20 * one) >= (2 * one) * (20 * one));
        }
        rounding_adds_a_crumb(p, size(whole(60)), x);
        assert(value(delta) <= x + e);
        assert(value(delta) * 6000 <= 4001 * one);
        let b = 72_400 + 4002 * (minutes - 1);
        assert((b + 4001) * one == b * one + 4001 * one) by (nonlinear_arith);
        minutes_add_up(n, b + 4002);
    }
    let level = demo_level(360 + minutes);
    let b = 72_400 + 4002 * minutes as int;
    levels_have_values(360 + minutes);
    small_wholes_are_exact(96);
    ninety_six_is_whole();
    assert(b * one <= 552_640 * one) by (nonlinear_arith)
        requires
            b <= 552_640,
            one > 0,
    ;
    assert(value(level) < 96 * one);
    order_is_that_of_values(level, Quantity { bits: NINETY_SIX_BITS });
}

proof fn ninety_six_is_whole()
    ensures
        size(Quantity { bits: NINETY_SIX_BITS }) == 96 * one_in_units(),
{
    let digits = 0x18_0000_0000_0000nat;
    put_together(digits, 1028);
    assert(NINETY_SIX_BITS == 1028 * crate::binary::SPAN as nat + digits);
    one_is_one();
    put_together(crate::binary::SPAN as nat, 1022);
    assert(ONE_BITS == 1022 * crate::binary::SPAN as nat + crate::binary::SPAN);
    vstd::arithmetic::power2::lemma2_to64();
    vstd::arithmetic::power2::lemma_pow2_adds(6, 1022);
    let a = pow2(1022);
    assert(digits * (64 * a) == 96 * (0x10_0000_0000_0000 * a)) by (nonlinear_arith)
        requires
            digits == 0x18_0000_0000_0000nat,
    ;
}

/// A part of the charge never holds more energy than the full charge.
proof fn energies_stay_in_range(level: Quantity)
    requires
        (Quantity { bits: 0 }).at_most(level),
        level.at_most(whole(100)),
    ensures
        ({
            let full = Quantity { bits: DEMO_FULL_BITS };
            let energy = product(quotient(level, whole(100)), full);
            (Quantity { bits: 0 }).at_most(energy) && energy.at_most(full)
        }),
{
    let full = Quantity { bits: DEMO_FULL_BITS };
    let one = one_in_units();
    small_wholes_are_exact(100);
    one_is_one();
    order_is_that_of_values(Quantity { bits: 0 }, level);
    order_is_that_of_values(level, whole(100));
    let part = quotient(level, whole(100));
    let h = size(whole(100));
    let mag = nearest(size(level) * one, h);
    nearest_exists(size(level) * one, h);
    crate::binary::exact_values_stay(ONE_BITS as nat, h);
    assert(size(level) * one <= one * h) by (nonlinear_arith)
        requires
            size(level) <= h,
    ;
    crate::binary::nearest_keeps_order(size(level) * one, one * h, h, mag, ONE_BITS as nat);
    if mag < ONE_BITS as nat {
        magnitudes_grow(mag, ONE_BITS as nat);
    }
    if size(level) == 0 {
        crate::binary::zero_stays_zero(h);
        assert(0 * one == 0);
    }
    assert(units(mag) <= one);
    let p = size(part) * size(full);
    nearest_exists(p, one);
    crate::binary::exact_values_stay(DEMO_FULL_BITS as nat, one);
    assert(p <= size(full) * one) by (nonlinear_arith)
        requires
            p == size(part) * size(full),
            size(part) <= one,
    ;
    crate::binary::nearest_keeps_order(
        p,
        size(full) * one,
        one,
        nearest(p, one),
        DEMO_FULL_BITS as nat,
    );
    if size(part) == 0 {
        crate::binary::zero_stays_zero(one);
        assert(p == 0) by (nonlinear_arith)
            requires
                p == size(part) * size(full),
                size(part) == 0,
        ;
    }
}

/// The made-up day goes as it is meant to: a sample a minute from its start
/// to `now`, an hour plugged in, five hours on battery, and from then on to
/// the end charging, with the charge between empty and full and its energy
/// between none and that of the full battery.
pub proof fn made_up_days_run_their_course(now: u64, decay: Decay, i: int)
    requires
        0 <= i < demo_moments(now),
    ensures
        ({
            let day = replayed(now, decay, demo_moments(now));
            let x = day[i];
            &&& day.len() == demo_moments(now)
            &&& x.t == demo_start(now) + i * SAMPLE_INTERVAL_SECS
            &&& x.percent <= 100
            &&& x.energy_full_wh == (Quantity { bits: DEMO_FULL_BITS })
            &&& (Quantity { bits: 0 }).at_most(x.energy_wh)
            &&& x.energy_wh.at_most(x.energy_full_wh)
            &&& x.state == if i < 60 {
                PowerState::PluggedIn
            } else if i < 360 {
                PowerState::OnBattery
            } else {
                PowerState::Charging
            }
        }),
{
    let n = demo_moments(now);
    assert(n <= 481);
    samples_are_replayed(now, decay, n, i);
    crate::demo::every_moment_is_replayed(now, decay, n, i);
    let next = demo_level(i as nat + 1);
    crate::demo::demo_levels_stay_in_range(i as nat + 1);
    energies_stay_in_range(next);
    assert(i * SAMPLE_INTERVAL_SECS <= now - demo_start(now)) by (nonlinear_arith)
        requires
            0 <= i < (now - demo_start(now)) / 60 + 1,
            SAMPLE_INTERVAL_SECS == 60,
            now >= demo_start(now),
    ;
    if i >= 360 {
        top_ups_go_on((i - 360) as nat);
    }
    percents_stay_in_range(next);
}

/// Up to full, a charge rounds to at most a hundred percent.
proof fn percents_stay_in_range(level: Quantity)
    requires
        (Quantity { bits: 0 }).at_most(level),
        level.at_most(whole(100)),
    ensures
        crate::binary::rounded_to(level, 255) <= 100,
{
    let one = one_in_units();
    small_wholes_are_exact(100);
    order_is_that_of_values(Quantity { bits: 0 }, level);
    order_is_that_of_values(level, whole(100));
    let s = size(level);
    if !is_negative(level) {
        let n = (2 * s + one) / (2 * one);
        assert(n <= 100) by (nonlinear_arith)
            requires
                n == (2 * s + one) / (2 * one),
                s <= 100 * one,
                one > 0,
        ;
    }
}

/// A replayed sample has the energy of its moment.
proof fn samples_are_replayed(now: u64, decay: Decay, n: nat, i: int)
    requires
        0 <= i < n,
    ensures
        replayed(now, decay, n).len() == n,
        replayed(now, decay, n)[i].energy_wh == demo_sample(now, i as nat).energy_wh,
        replayed(now, decay, n)[i].energy_full_wh == demo_sample(now, i as nat).energy_full_wh,
    decreases n,
{
    assert(replayed(now, decay, 0).len() == 0);
    if n > 1 {
        samples_are_replayed(now, decay, (n - 1) as nat, if i < n - 1 {
            i
        } else {
            0
        });
    }
}

} // verus!
