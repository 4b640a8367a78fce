//! How the learnt curve shapes the walk: how long each percent takes, and
//! that a faster drain never makes the charge last longer.

use crate::margin::{bounds_add_up, margins_widen};
use crate::measures::{abouts_add_up, abouts_cancel, abouts_scale, abouts_widen};
use crate::measures::{equals_are_about, products_measure, quotients_measure, roundings_measure};
use crate::measures::{spans_widen, wholes_measure};
use crate::power::PowerState;
use crate::precision::PARTS;
use crate::quantity::{Quantity, HALF_BITS, INFINITY_BITS, ONE_BITS, TWO_BITS};
use vstd::prelude::*;

verus! {

use crate::binary::{
    clamped, exact_values_stay, is_finite, is_nearest, is_negative, larger_factors_make_more,
    magnitudes_grow, nearest, nearest_exists, nearest_found, nearest_keeps_order, one_in_units,
    one_is_one, only_zeros_have_no_size, order_is_that_of_values, product, put_together, quotient,
    rounded_to, size, small_wholes_are_exact, sum, units, value, whole, zero_stays_zero,
};
use crate::estimate::{
    anchor, known_rates, point_rate, points_left, scale_of, total, walk_hours, walk_minutes,
    walk_point,
};
use crate::figures::way_left;
use crate::measures::{about, rounds_about, spans};
use crate::precision::power_units;
use crate::readings::is_measured;

/// The band that a percentage lies in: a tenth of it, with all from ninety on
/// in the last.
pub open spec fn tenth(percent: int) -> int {
    if percent >= 100 {
        9
    } else {
        percent / 10
    }
}

/// The `i`-th percent that is left to travel: from one upwards on battery,
/// from here upwards while charging.
pub open spec fn way_point(percent: u8, state: PowerState, i: int) -> int {
    if state == PowerState::Charging {
        percent + i
    } else {
        1 + i
    }
}

/// Whether `h` hours are what a percent takes at today's rate `c` in a band
/// that was learnt to move at `r`, where the band being crossed was learnt to
/// move at `l`: as much longer or shorter than the band being crossed as it
/// was then, but at least half and at most twice the learnt rate.
pub open spec fn follows_the_curve(h: Quantity, r: Quantity, c: Quantity, l: Quantity) -> bool {
    let o = one_in_units() * one_in_units();
    if 2 * size(c) < size(l) {
        about((size(h) * size(r)) as int, (2 * o) as int, 20)
    } else if size(c) > 2 * size(l) {
        about((2 * (size(h) * size(r))) as int, o as int, 20)
    } else {
        about((size(h) * (size(r) * size(c))) as int, (size(l) * o) as int, 20)
    }
}

/// Whether `h` hours are what a percent takes at a rate.
pub open spec fn takes(h: Quantity, rate: Quantity) -> bool {
    about((size(h) * size(rate)) as int, (one_in_units() * one_in_units()) as int, 20)
}

proof fn halves_and_twos()
    ensures
        2 * size(Quantity { bits: HALF_BITS }) == one_in_units(),
        size(Quantity { bits: TWO_BITS }) == 2 * one_in_units(),
        spans(Quantity { bits: HALF_BITS }, 1),
        spans(Quantity { bits: TWO_BITS }, 1),
        spans(Quantity { bits: ONE_BITS }, 1),
{
    let span = crate::binary::SPAN as nat;
    one_is_one();
    put_together(span, 1021);
    put_together(span, 1022);
    put_together(span, 1023);
    vstd::arithmetic::power2::lemma2_to64();
    vstd::arithmetic::power2::lemma_pow2_adds(1021, 1);
    vstd::arithmetic::power2::lemma_pow2_adds(1022, 1);
    assert(HALF_BITS == 1021 * span + span);
    assert(ONE_BITS == 1022 * span + span);
    assert(TWO_BITS == 1023 * span + span);
    let (a, b) = (vstd::arithmetic::power2::pow2(1021), vstd::arithmetic::power2::pow2(1022));
    assert(2 * (span * a) == span * (a * 2)) by (nonlinear_arith);
    assert(2 * (span * b) == span * (b * 2)) by (nonlinear_arith);
    crate::precision::scaled_powers(-1, 1);
    crate::precision::scaled_powers(0, 1);
    assert(power_units(0) == one_in_units());
}

/// The stretch of the curve: today's rate over the learnt one, held between a
/// half and two.
proof fn stretches_measure(c: Quantity, l: Quantity)
    requires
        is_measured(c),
        is_measured(l),
    ensures
        ({
            let s = clamped(
                quotient(c, l),
                Quantity { bits: HALF_BITS },
                Quantity { bits: TWO_BITS },
            );
            &&& spans(s, 1)
            &&& 2 * size(c) < size(l) ==> 2 * size(s) == one_in_units()
            &&& size(c) > 2 * size(l) ==> size(s) == 2 * one_in_units()
            &&& size(l) <= 2 * size(c) <= 4 * size(l) ==> about(
                (size(s) * size(l)) as int,
                (size(c) * one_in_units()) as int,
                2,
            )
        }),
{
    let half = Quantity { bits: HALF_BITS };
    let two = Quantity { bits: TWO_BITS };
    let q = quotient(c, l);
    halves_and_twos();
    quotients_measure(c, l, 200, 200);
    let one = one_in_units();
    let (x, y) = (size(c), size(l));
    let p = x * one;
    nearest_exists(p, y);
    let mag = nearest(p, y);
    exact_values_stay(HALF_BITS as nat, y);
    exact_values_stay(TWO_BITS as nat, y);
    let (h, t) = (size(half), size(two));
    order_is_that_of_values(q, half);
    order_is_that_of_values(two, q);
    if 2 * x <= y {
        assert(p <= h * y) by (nonlinear_arith)
            requires
                p == x * one,
                2 * x <= y,
                2 * h == one,
        {
            assert(2 * (x * one) == (2 * x) * one);
            assert(2 * (h * y) == (2 * h) * y);
            assert((2 * x) * one <= y * one);
        }
        nearest_keeps_order(p, h * y, y, mag, HALF_BITS as nat);
    }
    if 2 * x >= y {
        assert(p >= h * y) by (nonlinear_arith)
            requires
                p == x * one,
                2 * x >= y,
                2 * h == one,
        {
            assert(2 * (x * one) == (2 * x) * one);
            assert(2 * (h * y) == (2 * h) * y);
            assert((2 * x) * one >= y * one);
        }
        nearest_keeps_order(h * y, p, y, HALF_BITS as nat, mag);
    }
    if x >= 2 * y {
        assert(p >= t * y) by (nonlinear_arith)
            requires
                p == x * one,
                x >= 2 * y,
                t == 2 * one,
        {
            assert(x * one >= (2 * y) * one);
        }
        nearest_keeps_order(t * y, p, y, TWO_BITS as nat, mag);
    }
    if x <= 2 * y {
        assert(p <= t * y) by (nonlinear_arith)
            requires
                p == x * one,
                x <= 2 * y,
                t == 2 * one,
        {
            assert(x * one <= (2 * y) * one);
        }
        nearest_keeps_order(p, t * y, y, mag, TWO_BITS as nat);
    }
    if HALF_BITS as nat <= mag <= TWO_BITS as nat {
        if (HALF_BITS as nat) < mag {
            magnitudes_grow(HALF_BITS as nat, mag);
        }
        if mag < TWO_BITS as nat {
            magnitudes_grow(mag, TWO_BITS as nat);
        }
    }
}

/// How long a percent takes in a band other than the one being crossed.
proof fn learnt_percents_measure(r: Quantity, c: Quantity, l: Quantity)
    requires
        is_measured(r),
        is_measured(c),
        is_measured(l),
    ensures
        ({
            let s = clamped(
                quotient(c, l),
                Quantity { bits: HALF_BITS },
                Quantity { bits: TWO_BITS },
            );
            let h = quotient(Quantity { bits: ONE_BITS }, product(r, s));
            follows_the_curve(h, r, c, l) && spans(h, 202)
        }),
{
    let one = one_in_units() as int;
    let s = clamped(quotient(c, l), Quantity { bits: HALF_BITS }, Quantity { bits: TWO_BITS });
    stretches_measure(c, l);
    halves_and_twos();
    one_is_one();
    small_wholes_are_exact(1);
    let rate = product(r, s);
    products_measure(r, s, 200, 1);
    let h = quotient(Quantity { bits: ONE_BITS }, rate);
    quotients_measure(Quantity { bits: ONE_BITS }, rate, 1, 201);
    let (x, y, z, u, v, w) = (
        size(h) as int,
        size(rate) as int,
        size(s) as int,
        size(r) as int,
        size(c) as int,
        size(l) as int,
    );
    let o = one * one;
    // One, divided by the stretched rate.
    abouts_scale(x * y, o, one, 2);
    abouts_scale(y * one, u * z, x, 2);
    assert((x * y) * one == (y * one) * x) by (nonlinear_arith);
    let p = (u * z) * x;
    assert(p >= 0 && o * one >= 0 && (x * u) * z >= 0) by (nonlinear_arith)
        requires
            p == (u * z) * x,
            u >= 0,
            z >= 0,
            x >= 0,
            o == one * one,
            one >= 0,
    ;
    assert(p == (x * u) * z) by (nonlinear_arith)
        requires
            p == (u * z) * x,
    ;
    abouts_add_up(p, (y * one) * x, o * one, 2, 2);
    let hr = x * u;
    assert(hr >= 0) by (nonlinear_arith)
        requires
            hr == x * u,
            x >= 0,
            u >= 0,
    ;
    assert(o >= 0) by (nonlinear_arith)
        requires
            o == one * one,
    ;
    if 2 * v < w {
        abouts_scale(p, o * one, 2, 5);
        assert(p * 2 == hr * one) by (nonlinear_arith)
            requires
                p == hr * z,
                2 * z == one,
        ;
        assert((o * one) * 2 == (2 * o) * one) by (nonlinear_arith);
        abouts_cancel(hr, 2 * o, one, 5);
        abouts_widen(hr, 2 * o, 5, 20);
    } else if v > 2 * w {
        assert(p == (2 * hr) * one) by (nonlinear_arith)
            requires
                p == hr * z,
                z == 2 * one,
        ;
        abouts_cancel(2 * hr, o, one, 5);
        abouts_widen(2 * hr, o, 5, 20);
    } else {
        abouts_scale(z * w, v * one, hr, 2);
        abouts_scale(p, o * one, w, 5);
        assert(p * w == (z * w) * hr) by (nonlinear_arith)
            requires
                p == hr * z,
        ;
        let left = x * (u * v);
        assert((v * one) * hr == left * one) by (nonlinear_arith)
            requires
                left == x * (u * v),
                hr == x * u,
        ;
        assert((o * one) * w == (w * o) * one) by (nonlinear_arith);
        assert(left >= 0 && left * one >= 0 && w * o >= 0 && (w * o) * one >= 0)
            by (nonlinear_arith)
            requires
                left == x * (u * v),
                x >= 0,
                u >= 0,
                v >= 0,
                w >= 0,
                o >= 0,
                one >= 0,
        ;
        abouts_add_up(left * one, (z * w) * hr, (w * o) * one, 2, 5);
        abouts_cancel(left, w * o, one, 8);
        abouts_widen(left, w * o, 8, 20);
    }
}

/// The rates known below band `n`, added up.
pub open spec fn known_sum(bands: Seq<Option<Quantity>>, n: nat) -> nat
    decreases n,
{
    if n == 0 {
        0
    } else {
        known_sum(bands, (n - 1) as nat) + match bands[n - 1] {
            Some(r) => size(r),
            None => 0,
        }
    }
}

/// How many rates are known below band `n`.
pub open spec fn known_count(bands: Seq<Option<Quantity>>, n: nat) -> nat
    decreases n,
{
    if n == 0 {
        0
    } else {
        known_count(bands, (n - 1) as nat) + if bands[n - 1] is Some {
            1nat
        } else {
            0
        }
    }
}

/// The rate that ties the curve to today's is the one learnt in the band
/// being crossed; where that has taught nothing, the mean of those that have.
pub proof fn the_curve_is_tied_where_it_is_crossed(percent: u8, bands: Seq<Option<Quantity>>)
    requires
        bands.len() == 10,
        percent <= 100,
        forall|b: int|
            0 <= b < 10 ==> ((#[trigger] bands[b]) matches Some(r) ==> is_measured(r)),
    ensures
        bands[tenth(percent as int)] is Some ==> anchor(percent, bands) == bands[tenth(
            percent as int,
        )],
        anchor(percent, bands) is None <==> known_count(bands, 10) == 0,
        bands[tenth(percent as int)] is None && known_count(bands, 10) > 0 ==> about(
            (size(anchor(percent, bands)->0) * known_count(bands, 10)) as int,
            known_sum(bands, 10) as int,
            50,
        ),
{
    assert(bands.take(10) =~= bands);
    totals_of_the_known(bands, 10);
    let here = tenth(percent as int);
    assert(crate::sample::band_of(percent) == here);
    let known = known_rates(bands);
    if bands[here] is Some {
        counts_see_every_band(bands, 10, here);
    } else if known.len() > 0 {
        let n = known.len();
        let one = one_in_units() as int;
        let t = total(known);
        known_is_little(bands, 10);
        small_wholes_are_exact(n);
        wholes_measure(n);
        crate::measures::powers_rise(-204, 204);
        quotients_measure(t, whole(n), 204, 53);
        let a = size(quotient(t, whole(n))) as int;
        let s = size(t) as int;
        let k = known_sum(bands, 10) as int;
        assert(a * (n * one) == (a * n) * one) by (nonlinear_arith);
        abouts_cancel(a * n, s, one, 2);
        assert(a * n >= 0) by (nonlinear_arith)
            requires
                a >= 0,
                n >= 0,
        ;
        abouts_add_up(a * n, s, k, 2, 40);
        abouts_widen(a * n, k, 43, 50);
    }
}

proof fn known_is_little(bands: Seq<Option<Quantity>>, n: nat)
    ensures
        known_count(bands, n) <= n,
    decreases n,
{
    if n > 0 {
        known_is_little(bands, (n - 1) as nat);
    }
}

proof fn counts_see_every_band(bands: Seq<Option<Quantity>>, n: nat, b: int)
    requires
        0 <= b < n,
        bands[b] is Some,
    ensures
        known_count(bands, n) > 0,
    decreases n,
{
    if b < n - 1 {
        counts_see_every_band(bands, (n - 1) as nat, b);
    }
}

proof fn totals_of_the_known(bands: Seq<Option<Quantity>>, n: nat)
    requires
        n <= 10,
        bands.len() == 10,
        forall|b: int|
            0 <= b < 10 ==> ((#[trigger] bands[b]) matches Some(r) ==> is_measured(r)),
    ensures
        ({
            let known = known_rates(bands.take(n as int));
            &&& known.len() == known_count(bands, n)
            &&& is_finite(total(known))
            &&& !is_negative(total(known))
            &&& size(total(known)) <= n * power_units(200)
            &&& known.len() > 0 ==> spans(total(known), 204)
            &&& about(size(total(known)) as int, known_sum(bands, n) as int, 4 * n)
            &&& about(size(total(known)) as int, known_sum(bands, n) as int, 40)
        }),
    decreases n,
{
    let bound = power_units(200);
    if n == 0 {
        assert(bands.take(0) =~= Seq::<Option<Quantity>>::empty());
        assert(0 * bound == 0);
        equals_are_about(0, 0);
        equals_are_about(0, 40);
    } else {
        let m = (n - 1) as nat;
        totals_of_the_known(bands, m);
        let all = bands.take(n as int);
        assert(all.drop_last() =~= bands.take(m as int));
        assert(all.last() == bands[n - 1]);
        let before = known_rates(bands.take(m as int));
        let (x, k) = (size(total(before)) as int, known_sum(bands, m) as int);
        assert(m * bound + bound == n * bound) by (nonlinear_arith)
            requires
                m + 1 == n,
        ;
        match bands[n - 1] {
            Some(r) => {
                assert(is_measured(bands[n - 1]->0));
                assert(known_rates(all) =~= before.push(r));
                assert(before.push(r).drop_last() =~= before);
                let t = sum(total(before), r);
                crate::between::sums_are_close(total(before), r);
                // Neither tiny nor vast.
                let top = crate::multiples::few_digits_are_exact(n, 1274);
                crate::binary::values_stay(top);
                let exact = size(total(before)) + size(r);
                nearest_exists(exact, 1);
                nearest_keeps_order(exact, units(top), 1, nearest(exact, 1), top);
                if nearest(exact, 1) < top {
                    magnitudes_grow(nearest(exact, 1), top);
                }
                crate::binary::values_stay(r.magnitude() as nat);
                nearest_keeps_order(
                    size(r),
                    exact,
                    1,
                    r.magnitude() as nat,
                    nearest(exact, 1),
                );
                if (r.magnitude() as nat) < nearest(exact, 1) {
                    magnitudes_grow(r.magnitude() as nat, nearest(exact, 1));
                }
                crate::measures::powers_rise(-204, -200);
                crate::precision::scaled_powers(200, 4);
                vstd::arithmetic::power2::lemma2_to64();
                assert(n * bound <= 16 * bound) by (nonlinear_arith)
                    requires
                        n <= 16,
                ;
                let (s, u) = (size(r) as int, size(t) as int);
                equals_are_about(s, 4 * m);
                bounds_add_up(x, k, s, s, 4 * m);
                bounds_add_up(k, x, s, s, 4 * m);
                margins_widen(x + s, u, 1, 2);
                abouts_add_up(u, x + s, k + s, 2, 4 * m);
                abouts_widen(u, k + s, 4 * m + 3, 4 * n);
                abouts_widen(u, k + s, 4 * m + 3, 40);
            },
            None => {
                abouts_widen(x, k, 4 * m, 4 * n);
            },
        }
    }
}

/// Each percent of the walk adds the time it takes: at today's rate in the
/// band being crossed and in bands of which nothing is known, along the
/// stretched curve in the others.
pub proof fn each_percent_takes_its_time(
    percent: u8,
    state: PowerState,
    current: Quantity,
    bands: Seq<Option<Quantity>>,
    n: nat,
) -> (h: Quantity)
    requires
        bands.len() == 10,
        percent <= 100,
        n < way_left(percent, state),
        is_measured(current),
        forall|b: int|
            0 <= b < 10 ==> ((#[trigger] bands[b]) matches Some(r) ==> is_measured(r)),
        anchor(percent, bands) matches Some(l) && is_measured(l),
    ensures
        walk_hours(percent, state, current, bands, n + 1) == sum(
            walk_hours(percent, state, current, bands, n),
            h,
        ),
        spans(h, 202),
        ({
            let b = tenth(way_point(percent, state, n as int));
            if b == tenth(percent as int) || bands[b] is None {
                takes(h, current)
            } else {
                follows_the_curve(h, bands[b]->0, current, anchor(percent, bands)->0)
            }
        }),
{
    let scale = scale_of(percent, current, bands);
    let point = walk_point(percent, state, n as int);
    let rate = point_rate(point, percent, current, bands, scale);
    let h = quotient(Quantity { bits: ONE_BITS }, rate);
    let b = tenth(point);
    let here = tenth(percent as int);
    assert(0 <= b < 10 && 0 <= here < 10);
    assert(crate::sample::band_of(point as u8) == b);
    assert(crate::sample::band_of(percent) == here);
    assert(bands[b] matches Some(r) ==> is_measured(r));
    halves_and_twos();
    one_is_one();
    if b == here || bands[b] is None {
        quotients_measure(Quantity { bits: ONE_BITS }, current, 1, 200);
        spans_widen(h, 201, 202);
        abouts_widen(
            (size(h) * size(current)) as int,
            (one_in_units() * one_in_units()) as int,
            2,
            20,
        );
    } else {
        learnt_percents_measure(bands[b]->0, current, anchor(percent, bands)->0);
    }
    h
}

/// The minutes of a walk are sixty times its hours, rounded.
pub proof fn walks_are_in_minutes(
    percent: u8,
    state: PowerState,
    current: Quantity,
    bands: Seq<Option<Quantity>>,
)
    requires
        (Quantity { bits: 0 }).less(current),
        spans(walk_hours(percent, state, current, bands, way_left(percent, state) as nat), 400),
    ensures
        ({
            let hours = walk_hours(percent, state, current, bands, way_left(percent, state) as nat);
            walk_minutes(percent, state, current, bands) matches Some(m) && rounds_about(
                m as nat,
                0xffff_ffff,
                60 * size(hours),
                one_in_units(),
                2,
            )
        }),
{
    let one = one_in_units() as int;
    let hours = walk_hours(percent, state, current, bands, way_left(percent, state) as nat);
    assert(points_left(percent, state) == way_left(percent, state));
    wholes_measure(60);
    small_wholes_are_exact(60);
    products_measure(hours, whole(60), 400, 53);
    let z = product(hours, whole(60));
    let s = size(hours) as int;
    assert(s * (60 * one) == (60 * s) * one) by (nonlinear_arith);
    roundings_measure(z, u32::MAX as nat, 60 * size(hours), one_in_units(), 2);
}

/// Where every band was learnt to move at one rate, and today's is no more
/// than twice and no less than half of it, the walk takes the percent left
/// over today's rate.
pub proof fn level_curves_walk_straight(
    percent: u8,
    state: PowerState,
    current: Quantity,
    learnt: Quantity,
)
    requires
        percent <= 100,
        way_left(percent, state) > 0,
        is_measured(current),
        is_measured(learnt),
        size(learnt) <= 2 * size(current) <= 4 * size(learnt),
    ensures
        ({
            let bands = Seq::new(10, |b: int| Some(learnt));
            walk_minutes(percent, state, current, bands) matches Some(m) && rounds_about(
                m as nat,
                0xffff_ffff,
                (60 * way_left(percent, state) * one_in_units()) as nat,
                size(current),
                1000,
            )
        }),
{
    let bands = Seq::new(10, |b: int| Some(learnt));
    let n = way_left(percent, state) as nat;
    let one = one_in_units() as int;
    small_wholes_are_exact(1);
    level_hours(percent, state, current, learnt, n);
    let hours = walk_hours(percent, state, current, bands, n);
    let (h, c) = (size(hours) as int, size(current) as int);
    only_zeros_have_no_size(current);
    crate::measures::powers_rise(-200, 200);
    let o = one * one;
    // Neither tiny nor vast.
    crate::measures::powers_multiply(-200, 200);
    crate::measures::powers_rise(-400, -201);
    crate::measures::powers_rise(208, 400);
    crate::precision::scaled_powers(-201, 1);
    crate::precision::scaled_powers(200, 8);
    vstd::arithmetic::power2::lemma2_to64();
    let (low, high) = (power_units(-200) as int, power_units(200) as int);
    assert(power_units(0) == one);
    assert(low * high == o);
    assert(h <= 256 * high) by (nonlinear_arith)
        requires
            (h * c) * PARTS <= (n * o) * (PARTS + 500),
            c >= low,
            low * high == o,
            low > 0,
            high > 0,
            h >= 0,
            n <= 100,
            PARTS == 0x20_0000_0000_0000,
    {
        assert((h * low) * PARTS <= (h * c) * PARTS);
        assert((n * o) * (PARTS + 500) <= (256 * o) * PARTS);
        assert(h * low <= 256 * o);
        assert(256 * o == (256 * high) * low);
    }
    assert(2 * h >= low) by (nonlinear_arith)
        requires
            (n * o) * PARTS <= (h * c) * (PARTS + 500),
            c <= high,
            low * high == o,
            low > 0,
            high > 0,
            h >= 0,
            n >= 1,
            PARTS == 0x20_0000_0000_0000,
    {
        assert((h * c) * (PARTS + 500) <= (h * high) * (2 * PARTS));
        assert((n * o) * PARTS >= o * PARTS);
        assert(o * PARTS <= (h * high) * (2 * PARTS));
        assert(o <= (2 * h) * high);
        assert(low * high <= (2 * h) * high);
    }
    assert(spans(hours, 400));
    walks_are_in_minutes(percent, state, current, bands);
    // The hours times the rate are the points.
    wholes_measure(60);
    small_wholes_are_exact(60);
    products_measure(hours, whole(60), 400, 53);
    let z = product(hours, whole(60));
    let t = size(z) as int;
    assert(h * (60 * one) == (60 * h) * one) by (nonlinear_arith);
    abouts_cancel(t, 60 * h, one, 2);
    abouts_scale(t, 60 * h, c, 2);
    abouts_scale(h * c, n * o, 60, 500);
    assert((60 * h) * c == (h * c) * 60) by (nonlinear_arith);
    let p = 60 * n * one;
    assert((n * o) * 60 == p * one) by (nonlinear_arith)
        requires
            o == one * one,
            p == 60 * n * one,
    ;
    assert(t * c >= 0 && p * one >= 0) by (nonlinear_arith)
        requires
            t >= 0,
            c >= 0,
            p == 60 * n * one,
            one >= 0,
    ;
    abouts_add_up(t * c, (60 * h) * c, p * one, 2, 500);
    abouts_widen(t * c, p * one, 503, 1000);
    assert(points_left(percent, state) == n);
    roundings_measure(z, u32::MAX as nat, p as nat, size(current), 1000);
    order_is_that_of_values(Quantity { bits: 0 }, current);
}

proof fn level_hours(
    percent: u8,
    state: PowerState,
    current: Quantity,
    learnt: Quantity,
    n: nat,
)
    requires
        percent <= 100,
        n <= way_left(percent, state),
        is_measured(current),
        is_measured(learnt),
        size(learnt) <= 2 * size(current) <= 4 * size(learnt),
    ensures
        ({
            let bands = Seq::new(10, |b: int| Some(learnt));
            let hours = walk_hours(percent, state, current, bands, n);
            &&& is_finite(hours)
            &&& !is_negative(hours)
            &&& size(hours) <= n * power_units(203)
            &&& about(
                (size(hours) * size(current)) as int,
                (n * (one_in_units() * one_in_units())) as int,
                (20 + 4 * n) as nat,
            )
            &&& about(
                (size(hours) * size(current)) as int,
                (n * (one_in_units() * one_in_units())) as int,
                500,
            )
        }),
    decreases n,
{
    let bands = Seq::new(10, |b: int| Some(learnt));
    let o = (one_in_units() * one_in_units()) as int;
    let c = size(current) as int;
    assert(o >= 0) by (nonlinear_arith)
        requires
            o == one_in_units() * one_in_units(),
    ;
    if n == 0 {
        assert(0 * c == 0 && 0 * o == 0);
        assert(0 * power_units(203) == 0);
        equals_are_about(0, 20);
        equals_are_about(0, 500);
    } else {
        let k = (n - 1) as nat;
        level_hours(percent, state, current, learnt, k);
        let before = walk_hours(percent, state, current, bands, k);
        assert(bands[crate::sample::band_of(percent) as int] == Some(learnt));
        let h = each_percent_takes_its_time(percent, state, current, bands, k);
        let all = walk_hours(percent, state, current, bands, n);
        let (x, y, z) = (size(before) as int, size(h) as int, size(all) as int);
        // One percent, in either kind of band.
        assert(about(y * c, o, 20)) by {
            let b = tenth(way_point(percent, state, k as int));
            if b != tenth(percent as int) {
                let r = size(learnt) as int;
                crate::measures::powers_rise(-200, 200);
                assert(y * (r * c) == (y * c) * r) by (nonlinear_arith);
                assert(r * o == o * r) by (nonlinear_arith);
                abouts_cancel(y * c, o, r, 20);
            }
        }
        // Together with those before.
        let m = (20 + 4 * k) as nat;
        assert(x * c >= 0 && y * c >= 0 && k * o >= 0 && n * o >= 0 && z * c >= 0)
            by (nonlinear_arith)
            requires
                x >= 0,
                y >= 0,
                z >= 0,
                c >= 0,
                k >= 0,
                n >= 0,
                o >= 0,
        ;
        abouts_widen(y * c, o, 20, m);
        bounds_add_up(x * c, k * o, y * c, o, m);
        bounds_add_up(k * o, x * c, o, y * c, m);
        assert(x * c + y * c == (x + y) * c) by (nonlinear_arith);
        assert(k * o + o == n * o) by (nonlinear_arith)
            requires
                k + 1 == n,
        ;
        crate::between::sums_are_close(before, h);
        small_walks_stay_finite(before, h, k);
        margins_widen(x + y, z, 1, 2);
        abouts_scale(z, x + y, c, 2);
        abouts_add_up(z * c, (x + y) * c, n * o, 2, m);
        abouts_widen(z * c, n * o, m + 3, (20 + 4 * n) as nat);
        abouts_widen(z * c, n * o, m + 3, 500);
    }
}

proof fn small_walks_stay_finite(before: Quantity, h: Quantity, k: nat)
    requires
        is_finite(before),
        !is_negative(before),
        spans(h, 202),
        size(before) <= k * power_units(203),
        k < 1000,
    ensures
        is_finite(sum(before, h)),
        size(sum(before, h)) <= (k + 1) * power_units(203),
{
    let bound = power_units(203);
    crate::measures::powers_rise(202, 203);
    let top = crate::multiples::few_digits_are_exact(k + 1, 1277);
    crate::binary::values_stay(top);
    let exact = size(before) + size(h);
    assert(k * bound + bound == (k + 1) * bound) by (nonlinear_arith);
    nearest_exists(exact, 1);
    nearest_keeps_order(exact, units(top), 1, nearest(exact, 1), top);
    if nearest(exact, 1) < top {
        magnitudes_grow(nearest(exact, 1), top);
    }
    if exact == 0 {
        zero_stays_zero(1);
    }
}

// A faster drain.

/// Whether a quantity is a number that is not negative.
spec fn is_size(a: Quantity) -> bool {
    a.is_number() && !is_negative(a)
}

/// What is nearest does not depend on a common factor.
proof fn fractions_reduce(p: nat, q: nat, c: nat)
    requires
        q > 0,
        c > 0,
    ensures
        nearest(p * c, q * c) == nearest(p, q),
        q * c > 0,
{
    let mag = nearest(p, q);
    nearest_exists(p, q);
    assert(q * c > 0) by (nonlinear_arith)
        requires
            q > 0,
            c > 0,
    ;
    if mag > 0 {
        middles_scale(p, q, (units((mag - 1) as nat) + units(mag)) as nat, c);
    }
    middles_scale(p, q, (units(mag) + units(mag + 1)) as nat, c);
    assert(is_nearest(p * c, q * c, mag));
    nearest_found(p * c, q * c, mag);
}

proof fn middles_scale(p: nat, q: nat, m: nat, c: nat)
    requires
        c > 0,
    ensures
        2 * (p * c) < m * (q * c) <==> 2 * p < m * q,
        2 * (p * c) == m * (q * c) <==> 2 * p == m * q,
{
    assert(2 * (p * c) == (2 * p) * c) by (nonlinear_arith);
    assert(m * (q * c) == (m * q) * c) by (nonlinear_arith);
    let (a, b) = ((2 * p) as int, (m * q) as int);
    if a < b {
        assert(a * c < b * c) by (nonlinear_arith)
            requires
                a < b,
                c > 0,
        ;
    } else if a > b {
        assert(a * c > b * c) by (nonlinear_arith)
            requires
                a > b,
                c > 0,
        ;
    }
}

/// One over a greater quantity is no greater.
proof fn reciprocals_fall(a: Quantity, b: Quantity)
    requires
        is_size(a),
        is_size(b),
        a.magnitude() <= b.magnitude(),
    ensures
        ({
            let one = Quantity { bits: ONE_BITS };
            &&& is_size(quotient(one, a))
            &&& is_size(quotient(one, b))
            &&& quotient(one, b).magnitude() <= quotient(one, a).magnitude()
        }),
{
    one_is_one();
    only_zeros_have_no_size(a);
    only_zeros_have_no_size(b);
    small_wholes_are_exact(1);
    let p = one_in_units() * one_in_units();
    let (x, y) = (size(a), size(b));
    if is_finite(a) && x > 0 {
        nearest_exists(p, x);
    }
    if is_finite(b) && y > 0 {
        nearest_exists(p, y);
    }
    if is_finite(b) && x > 0 {
        if a.magnitude() < b.magnitude() {
            magnitudes_grow(a.magnitude() as nat, b.magnitude() as nat);
        }
        fractions_reduce(p, x, y);
        fractions_reduce(p, y, x);
        assert(x * y == y * x) by (nonlinear_arith);
        larger_factors_make_more(x, y, p);
        assert(p * x == x * p && p * y == y * p) by (nonlinear_arith);
        nearest_exists(p * x, y * x);
        nearest_exists(p * y, x * y);
        nearest_keeps_order(p * x, p * y, x * y, nearest(p, y), nearest(p, x));
    }
}

/// A greater quantity over the same one is no less.
proof fn parts_rise(a: Quantity, b: Quantity, l: Quantity)
    requires
        is_finite(a),
        is_finite(b),
        is_size(a),
        is_size(b),
        is_size(l),
        0 < a.magnitude() <= b.magnitude(),
    ensures
        is_size(quotient(a, l)),
        is_size(quotient(b, l)),
        quotient(a, l).magnitude() <= quotient(b, l).magnitude(),
{
    only_zeros_have_no_size(l);
    only_zeros_have_no_size(a);
    only_zeros_have_no_size(b);
    if is_finite(l) && size(l) > 0 {
        if a.magnitude() < b.magnitude() {
            magnitudes_grow(a.magnitude() as nat, b.magnitude() as nat);
        }
        nearest_exists(size(a) * one_in_units(), size(l));
        nearest_exists(size(b) * one_in_units(), size(l));
        crate::binary::parts_keep_order(a, b, l);
    }
}

/// A greater factor makes a product no less.
proof fn products_rise(r: Quantity, a: Quantity, b: Quantity)
    requires
        is_finite(r),
        is_finite(a),
        is_finite(b),
        is_size(r),
        is_size(a),
        is_size(b),
        a.magnitude() <= b.magnitude(),
    ensures
        is_size(product(r, a)),
        is_size(product(r, b)),
        product(r, a).magnitude() <= product(r, b).magnitude(),
{
    let one = one_in_units();
    small_wholes_are_exact(1);
    if a.magnitude() < b.magnitude() {
        magnitudes_grow(a.magnitude() as nat, b.magnitude() as nat);
    }
    let (p, q) = (size(r) * size(a), size(r) * size(b));
    assert(p <= q) by (nonlinear_arith)
        requires
            p == size(r) * size(a),
            q == size(r) * size(b),
            size(a) <= size(b),
    ;
    nearest_exists(p, one);
    nearest_exists(q, one);
    nearest_keeps_order(p, q, one, nearest(p, one), nearest(q, one));
}

/// Greater terms make a sum no less.
proof fn sums_rise(a: Quantity, b: Quantity, c: Quantity, d: Quantity)
    requires
        is_size(a),
        is_size(b),
        is_size(c),
        is_size(d),
        a.magnitude() <= c.magnitude(),
        b.magnitude() <= d.magnitude(),
    ensures
        is_size(sum(a, b)),
        is_size(sum(c, d)),
        sum(a, b).magnitude() <= sum(c, d).magnitude(),
{
    sizes_add_up(a, b);
    sizes_add_up(c, d);
    if is_finite(c) && is_finite(d) {
        if a.magnitude() < c.magnitude() {
            magnitudes_grow(a.magnitude() as nat, c.magnitude() as nat);
        }
        if b.magnitude() < d.magnitude() {
            magnitudes_grow(b.magnitude() as nat, d.magnitude() as nat);
        }
        let (p, q) = (size(a) + size(b), size(c) + size(d));
        nearest_exists(p, 1);
        nearest_exists(q, 1);
        nearest_keeps_order(p, q, 1, nearest(p, 1), nearest(q, 1));
    }
}

proof fn sizes_add_up(a: Quantity, b: Quantity)
    requires
        is_size(a),
        is_size(b),
    ensures
        is_size(sum(a, b)),
        is_finite(a) && is_finite(b) ==> sum(a, b).magnitude() == nearest(size(a) + size(b), 1),
        !(is_finite(a) && is_finite(b)) ==> sum(a, b).magnitude() == INFINITY_BITS,
{
    if is_finite(a) && is_finite(b) {
        nearest_exists(size(a) + size(b), 1);
        if size(a) + size(b) == 0 {
            zero_stays_zero(1);
        }
    }
}

/// Whether a learnt rate is one: finite and above zero.
pub open spec fn is_rate(r: Quantity) -> bool {
    is_finite(r) && (Quantity { bits: 0 }).less(r)
}

/// A greater rate today never gives more minutes.
pub proof fn faster_drains_end_sooner(
    percent: u8,
    state: PowerState,
    slow: Quantity,
    fast: Quantity,
    bands: Seq<Option<Quantity>>,
)
    requires
        bands.len() == 10,
        is_rate(slow),
        is_rate(fast),
        slow.at_most(fast),
        forall|b: int| 0 <= b < 10 ==> ((#[trigger] bands[b]) matches Some(r) ==> is_rate(r)),
    ensures
        walk_minutes(percent, state, slow, bands) is Some,
        walk_minutes(percent, state, fast, bands) is Some,
        walk_minutes(percent, state, fast, bands)->0 <= walk_minutes(
            percent,
            state,
            slow,
            bands,
        )->0,
{
    let n = points_left(percent, state);
    hours_fall(percent, state, slow, fast, bands, n);
    let a = walk_hours(percent, state, fast, bands, n);
    let b = walk_hours(percent, state, slow, bands, n);
    small_wholes_are_exact(60);
    only_zeros_have_no_size(whole(60));
    let x = product(a, whole(60));
    let y = product(b, whole(60));
    crate::binary::products_commute(a, whole(60));
    crate::binary::products_commute(b, whole(60));
    if is_finite(b) {
        products_rise(whole(60), a, b);
    } else {
        only_zeros_have_no_size(b);
        assert(y.magnitude() == INFINITY_BITS && is_size(y));
        if is_finite(a) {
            products_rise(whole(60), a, a);
        } else {
            only_zeros_have_no_size(a);
        }
    }
    roundings_rise(x, y);
}

proof fn roundings_rise(x: Quantity, y: Quantity)
    requires
        is_size(x),
        is_size(y),
        x.magnitude() <= y.magnitude(),
    ensures
        rounded_to(x, u32::MAX as nat) <= rounded_to(y, u32::MAX as nat),
{
    let one = one_in_units();
    small_wholes_are_exact(1);
    if is_finite(y) {
        if x.magnitude() < y.magnitude() {
            magnitudes_grow(x.magnitude() as nat, y.magnitude() as nat);
        }
        vstd::arithmetic::div_mod::lemma_div_is_ordered(
            2 * size(x) + one as int,
            2 * size(y) + one as int,
            2 * one as int,
        );
    }
}

proof fn anchors_are_sizes(bands: Seq<Option<Quantity>>)
    requires
        forall|b: int|
            0 <= b < bands.len() ==> ((#[trigger] bands[b]) matches Some(r) ==> is_rate(r)),
    ensures
        is_size(total(known_rates(bands))),
    decreases bands.len(),
{
    if bands.len() > 0 {
        let rest = bands.drop_last();
        assert forall|b: int| 0 <= b < rest.len() implies ((#[trigger] rest[b]) matches Some(r)
            ==> is_rate(r)) by {
            assert(rest[b] == bands[b]);
        }
        anchors_are_sizes(rest);
        if let Some(r) = bands.last() {
            assert(is_rate(bands[bands.len() - 1]->0));
            let before = known_rates(rest);
            assert(before.push(r).drop_last() =~= before);
            sizes_add_up(total(before), r);
        }
    }
}

proof fn hours_fall(
    percent: u8,
    state: PowerState,
    slow: Quantity,
    fast: Quantity,
    bands: Seq<Option<Quantity>>,
    n: nat,
)
    requires
        bands.len() == 10,
        is_rate(slow),
        is_rate(fast),
        slow.at_most(fast),
        forall|b: int| 0 <= b < 10 ==> ((#[trigger] bands[b]) matches Some(r) ==> is_rate(r)),
        n <= points_left(percent, state),
    ensures
        is_size(walk_hours(percent, state, slow, bands, n)),
        is_size(walk_hours(percent, state, fast, bands, n)),
        walk_hours(percent, state, fast, bands, n).magnitude() <= walk_hours(
            percent,
            state,
            slow,
            bands,
            n,
        ).magnitude(),
    decreases n,
{
    if n > 0 {
        let k = (n - 1) as nat;
        hours_fall(percent, state, slow, fast, bands, k);
        let one = Quantity { bits: ONE_BITS };
        let point = walk_point(percent, state, n - 1);
        let here = crate::sample::band_of(percent) as int;
        let b = crate::sample::band_of(point as u8) as int;
        assert(0 <= here < 10 && 0 <= b < 10);
        let (s, t) = (scale_of(percent, slow, bands), scale_of(percent, fast, bands));
        stretches_rise(percent, slow, fast, bands);
        let x = point_rate(point, percent, slow, bands, s);
        let y = point_rate(point, percent, fast, bands, t);
        if b != here {
            if let Some(r) = bands[b] {
                assert(is_rate(bands[b]->0));
                products_rise(r, s, t);
            }
        }
        reciprocals_fall(x, y);
        sums_rise(
            walk_hours(percent, state, fast, bands, k),
            quotient(one, y),
            walk_hours(percent, state, slow, bands, k),
            quotient(one, x),
        );
    }
}

proof fn stretches_rise(
    percent: u8,
    slow: Quantity,
    fast: Quantity,
    bands: Seq<Option<Quantity>>,
)
    requires
        bands.len() == 10,
        is_rate(slow),
        is_rate(fast),
        slow.at_most(fast),
        forall|b: int| 0 <= b < 10 ==> ((#[trigger] bands[b]) matches Some(r) ==> is_rate(r)),
    ensures
        ({
            let (s, t) = (scale_of(percent, slow, bands), scale_of(percent, fast, bands));
            &&& is_size(s) && is_finite(s)
            &&& is_size(t) && is_finite(t)
            &&& s.magnitude() <= t.magnitude()
        }),
{
    let here = crate::sample::band_of(percent) as int;
    assert(0 <= here < 10);
    assert(bands[here] matches Some(r) ==> is_rate(r));
    let known = known_rates(bands);
    if let Some(l) = anchor(percent, bands) {
        assert(is_size(l)) by {
            if bands[here] is None {
                anchors_are_sizes(bands);
                let t = total(known);
                let n = known.len();
                known_is_short(bands);
                small_wholes_are_exact(n);
                if is_finite(t) {
                    nearest_exists(size(t) * one_in_units(), size(whole(n)));
                }
            }
        }
        parts_rise(slow, fast, l);
    }
}

proof fn known_is_short(bands: Seq<Option<Quantity>>)
    ensures
        known_rates(bands).len() <= bands.len(),
    decreases bands.len(),
{
    if bands.len() > 0 {
        known_is_short(bands.drop_last());
    }
}

/// A charge that does not move gets nowhere: without a rate above zero there
/// are no minutes, and no percent at all takes no time.
pub proof fn walks_need_a_rate(
    percent: u8,
    state: PowerState,
    current: Quantity,
    bands: Seq<Option<Quantity>>,
)
    requires
        is_finite(current),
    ensures
        value(current) <= 0 ==> walk_minutes(percent, state, current, bands) is None,
        value(current) > 0 ==> walk_minutes(percent, state, current, bands) is Some,
        value(walk_hours(percent, state, current, bands, 0)) == 0,
{
    order_is_that_of_values(current, Quantity { bits: 0 });
    crate::binary::nothing_is_zero();
    small_wholes_are_exact(0);
    assert(0 * one_in_units() == 0);
}

} // verus!
