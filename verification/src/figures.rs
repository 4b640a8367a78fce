//! What an estimate's figures come to, as fractions of what they rest on.

use crate::margin::bounds_add_up;
use crate::margin::margins_widen;
use crate::measures::{abouts_add_up, abouts_cancel, abouts_scale, abouts_widen};
use crate::measures::{equals_are_about, products_measure, quotients_measure, roundings_measure};
use crate::measures::{spans_widen, wholes_measure};
use crate::power::PowerState;
use crate::precision::PARTS;
use crate::quantity::{Quantity, ONE_BITS};
use crate::readings::scaled_parts_measure;
use vstd::prelude::*;

verus! {

use crate::binary::{
    difference, is_finite, nearest, nearest_exists, one_in_units, one_is_one, product, quotient,
    size, small_wholes_are_exact, sum, units, value, whole,
};
use crate::estimate::{estimate_of, is_shaped, points_left, rate_for, trust};
use crate::measures::{about, rounds_about, spans};
use crate::precision::power_units;
use crate::readings::is_measured;

/// Percent still to travel: down to empty on battery, up to full while
/// charging.
pub open spec fn way_left(percent: u8, state: PowerState) -> int {
    if state == PowerState::Charging {
        if percent <= 100 {
            100 - percent
        } else {
            0
        }
    } else {
        percent as int
    }
}

/// The rate of so many percent in so many minutes is sixty times the percent
/// over the minutes.
pub proof fn rates_are_points_over_time(points: nat, minutes: u32)
    requires
        0 < points <= 255,
        minutes > 0,
    ensures
        spans(rate_for(points, minutes), 159),
        about(
            (size(rate_for(points, minutes)) * minutes) as int,
            ((60 * points) * one_in_units()) as int,
            5,
        ),
{
    let one = one_in_units() as int;
    let m = minutes as nat;
    wholes_measure(points);
    wholes_measure(m);
    wholes_measure(60);
    small_wholes_are_exact(60);
    let hours = quotient(whole(m), whole(60));
    quotients_measure(whole(m), whole(60), 53, 53);
    let rate = quotient(whole(points), hours);
    quotients_measure(whole(points), hours, 53, 106);
    let (h, r) = (size(hours) as int, size(rate) as int);
    let n = points as int;
    let k = minutes as int;
    // h * 60 is about m, and r * h about the points.
    assert(h * (60 * one) == (h * 60) * one) by (nonlinear_arith);
    abouts_cancel(h * 60, k * one, one, 2);
    abouts_scale(h * 60, k * one, r, 2);
    abouts_scale(r * h, (n * one) * one, 60, 2);
    assert((h * 60) * r == (r * h) * 60) by (nonlinear_arith);
    assert((k * one) * r == (r * k) * one) by (nonlinear_arith);
    assert(((n * one) * one) * 60 == ((60 * n) * one) * one) by (nonlinear_arith);
    assert((r * k) * one >= 0 && ((60 * n) * one) * one >= 0) by (nonlinear_arith)
        requires
            r >= 0,
            k >= 0,
            n >= 0,
            one >= 0,
    ;
    abouts_add_up((r * k) * one, (r * h) * 60, ((60 * n) * one) * one, 2, 2);
    abouts_cancel(r * k, (60 * n) * one, one, 5);
}

/// Up to twenty minutes, trust is a twentieth for each.
proof fn trust_is_a_share(m: nat)
    requires
        0 < m < 20,
    ensures
        spans(trust(m as u32), 106),
        about((size(trust(m as u32)) * 20) as int, (m * one_in_units()) as int, 2),
        size(trust(m as u32)) < one_in_units(),
{
    let one = one_in_units() as int;
    wholes_measure(m);
    wholes_measure(20);
    small_wholes_are_exact(20);
    one_is_one();
    let q = quotient(whole(m), whole(20));
    quotients_measure(whole(m), whole(20), 53, 53);
    let s = size(q) as int;
    assert(s * (20 * one) == (s * 20) * one) by (nonlinear_arith);
    abouts_cancel(s * 20, m * one, one, 2);
    assert(s < one) by (nonlinear_arith)
        requires
            (s * 20) * PARTS <= (m * one) * (PARTS + 2),
            m <= 19,
            one > 0,
            PARTS == 0x20_0000_0000_0000,
    {
        assert((m * one) * (PARTS + 2) <= (19 * one) * (PARTS + 2));
        assert((19 * one) * (PARTS + 2) < (20 * one) * PARTS);
    }
    crate::binary::order_is_that_of_values(Quantity { bits: ONE_BITS }, q);
}

/// What is left of full trust is a twentieth for each minute that is missing.
proof fn doubt_is_a_share(m: nat)
    requires
        0 < m < 20,
    ensures
        ({
            let d = difference(Quantity { bits: ONE_BITS }, trust(m as u32));
            &&& spans(d, 53)
            &&& about((size(d) * 20) as int, ((20 - m) * one_in_units()) as int, 60)
        }),
{
    let one = one_in_units() as int;
    trust_is_a_share(m);
    one_is_one();
    let t = trust(m as u32);
    let s = size(t) as int;
    let d = difference(Quantity { bits: ONE_BITS }, t);
    let exact = (one - s) as nat;
    assert(value(crate::binary::negated(t)) == -s);
    let mag = nearest(exact, 1);
    nearest_exists(exact, 1);
    crate::margin::rounding_adds_little(exact, 1, mag);
    crate::binary::values_stay(ONE_BITS as nat);
    crate::binary::nearest_keeps_order(exact, one as nat, 1, mag, ONE_BITS as nat);
    if mag < ONE_BITS as nat {
        crate::binary::magnitudes_grow(mag, ONE_BITS as nat);
    }
    crate::margin::rounding_takes_little(exact, 1, mag);
    let u = units(mag) as int;
    assert(size(d) == u);
    let k = 20 - m;
    let e = PARTS as int;
    // The exact rest, to within what trust was rounded by.
    assert((m * one) + (k * one) == 20 * one) by (nonlinear_arith)
        requires
            m + k == 20,
    ;
    let (mo, ko) = (m * one, k * one);
    assert(ko >= one && mo >= one && mo <= 19 * one) by (nonlinear_arith)
        requires
            mo == m * one,
            ko == k * one,
            1 <= m <= 19,
            1 <= k,
            one > 0,
    ;
    assert((s * 20) * 0x20_0000_0000_0000 <= mo * 0x20_0000_0000_0002);
    assert(mo * 0x20_0000_0000_0000 <= (s * 20) * 0x20_0000_0000_0002);
    assert(u * 0x20_0000_0000_0000 <= exact * 0x20_0000_0000_0002);
    assert(exact * 0x20_0000_0000_0000 <= u * 0x20_0000_0000_0001);
    assert((u * 20) * 0x20_0000_0000_0000 <= ko * 0x20_0000_0000_003c);
    assert(ko * 0x20_0000_0000_0000 <= (u * 20) * 0x20_0000_0000_003c);
    assert(about(u * 20, ko, 60));
    // Neither tiny nor vast.
    vstd::arithmetic::power2::lemma2_to64();
    vstd::arithmetic::power2::lemma2_to64_rest();
    crate::precision::scaled_powers(-53, 53);
    crate::measures::powers_rise(0, 53);
    assert(power_units(0) == one);
    assert(u >= power_units(-53));
}

/// Today's rate takes a twentieth of the observed rate for each minute of
/// observation, and the rest of twenty of the instant one.
pub proof fn blends_take_twentieths(
    percent: u8,
    state: PowerState,
    rate: Quantity,
    minutes: u32,
    instant_minutes: u32,
    bands: Seq<Option<Quantity>>,
)
    requires
        state != PowerState::PluggedIn,
        is_measured(rate),
        instant_minutes > 0,
        way_left(percent, state) > 0,
    ensures
        ({
            let e = estimate_of(
                percent,
                state,
                Some(instant_minutes),
                Some((rate, minutes)),
                bands,
            );
            let instant = rate_for(way_left(percent, state) as nat, instant_minutes);
            let twenty = size(e.rate_pct_hr->0) * 20;
            &&& e.rate_pct_hr is Some
            &&& minutes < 20 ==> about(
                twenty as int,
                minutes * size(rate) + (20 - minutes) * size(instant),
                100,
            )
            &&& minutes >= 20 ==> e.rate_pct_hr == Some(rate)
        }),
{
    let points = points_left(percent, state);
    let instant = rate_for(points, instant_minutes);
    rates_are_points_over_time(points, instant_minutes);
    crate::measures::powers_rise(-200, 200);
    crate::binary::only_zeros_have_no_size(rate);
    crate::binary::only_zeros_have_no_size(instant);
    crate::measures::powers_rise(-159, 159);
    if minutes >= 20 {
        crate::estimate::full_trust_ignores_the_instant_reading(
            points,
            rate,
            minutes,
            Some(instant_minutes),
        );
    } else if minutes == 0 {
        let one = Quantity { bits: ONE_BITS };
        let zero = Quantity { bits: 0 };
        crate::binary::nothing_is_zero();
        small_wholes_are_exact(20);
        crate::binary::parts_of_nothing_are_nothing(whole(20));
        one_is_one();
        assert(trust(0) == zero);
        crate::binary::zero_takes_all(zero, rate);
        crate::binary::only_zeros_have_no_size(one);
        crate::binary::adding_zero_keeps(one, zero);
        crate::binary::one_keeps(instant);
        crate::binary::adding_zero_keeps(instant, product(zero, rate));
        assert(0 * size(rate) == 0);
        equals_are_about((20 * size(instant)) as int, 100);
    } else {
        let m = minutes as nat;
        let k = (20 - m) as int;
        let one = one_in_units() as int;
        let t = trust(minutes);
        let d = difference(Quantity { bits: ONE_BITS }, t);
        trust_is_a_share(m);
        doubt_is_a_share(m);
        small_wholes_are_exact(1);
        let x = product(t, rate);
        let y = product(d, instant);
        products_measure(t, rate, 106, 200);
        products_measure(d, instant, 53, 159);
        let (r, i) = (size(rate) as int, size(instant) as int);
        let (sx, sy, st, sd) = (size(x) as int, size(y) as int, size(t) as int, size(d) as int);
        // Twenty times each share.
        abouts_scale(sx * one, st * r, 20, 2);
        abouts_scale(st * 20, m * one, r, 2);
        assert((st * r) * 20 == (st * 20) * r) by (nonlinear_arith);
        assert((sx * one) * 20 == (20 * sx) * one) by (nonlinear_arith);
        assert((m * one) * r == (m * r) * one) by (nonlinear_arith);
        assert((20 * sx) * one >= 0 && (m * r) * one >= 0 && (20 * sy) * one >= 0 && (k * i) * one
            >= 0) by (nonlinear_arith)
            requires
                sx >= 0,
                sy >= 0,
                one >= 0,
                m >= 0,
                r >= 0,
                k >= 0,
                i >= 0,
        ;
        abouts_add_up((20 * sx) * one, (st * 20) * r, (m * r) * one, 2, 2);
        abouts_cancel(20 * sx, m * r, one, 5);
        abouts_scale(sy * one, sd * i, 20, 2);
        abouts_scale(sd * 20, k * one, i, 60);
        assert((sd * i) * 20 == (sd * 20) * i) by (nonlinear_arith);
        assert((sy * one) * 20 == (20 * sy) * one) by (nonlinear_arith);
        assert((k * one) * i == (k * i) * one) by (nonlinear_arith);
        abouts_add_up((20 * sy) * one, (sd * 20) * i, (k * i) * one, 2, 60);
        abouts_cancel(20 * sy, k * i, one, 63);
        assert(m * r >= 0 && k * i >= 0) by (nonlinear_arith)
            requires
                m >= 0,
                r >= 0,
                k >= 0,
                i >= 0,
        ;
        abouts_widen(20 * sx, m * r, 5, 63);
        // Both of them.
        bounds_add_up(20 * sx, m * r, 20 * sy, k * i, 63);
        bounds_add_up(m * r, 20 * sx, k * i, 20 * sy, 63);
        crate::between::sums_are_close(x, y);
        let all = sum(x, y);
        spans_widen(x, 306, 400);
        spans_widen(y, 212, 400);
        vast_sums_stay_finite(x, y);
        let s = size(all) as int;
        margins_widen(sx + sy, s, 1, 2);
        abouts_scale(s, sx + sy, 20, 2);
        abouts_add_up(s * 20, 20 * sx + 20 * sy, m * r + k * i, 2, 63);
        abouts_widen(s * 20, m * r + k * i, 66, 100);
    }
}

proof fn vast_sums_stay_finite(x: Quantity, y: Quantity)
    requires
        spans(x, 400),
        spans(y, 400),
    ensures
        is_finite(sum(x, y)),
{
    crate::measures::powers_rise(-400, 400);
    crate::precision::scaled_powers(400, 1);
    vstd::arithmetic::power2::lemma2_to64();
    let exact = size(x) + size(y);
    crate::precision::powers_are_magnitudes(401);
    crate::binary::values_stay(crate::precision::power_mag(401));
    nearest_exists(exact, 1);
    crate::binary::nearest_keeps_order(
        exact,
        power_units(401),
        1,
        nearest(exact, 1),
        crate::precision::power_mag(401),
    );
}

/// Unless the curve is shaped, the minutes of an estimate are sixty times the
/// percent left over its rate.
pub proof fn straight_minutes_are_points_over_rate(
    percent: u8,
    state: PowerState,
    instant_minutes: Option<u32>,
    observed: Option<(Quantity, u32)>,
    bands: Seq<Option<Quantity>>,
)
    requires
        state != PowerState::PluggedIn,
        forall|b: int| 0 <= b < 10 && b != percent as int / 10 && !(b == 9 && percent >= 100)
            ==> (#[trigger] bands[b]) is None,
        way_left(percent, state) > 0,
    ensures
        ({
            let e = estimate_of(percent, state, instant_minutes, observed, bands);
            e.rate_pct_hr matches Some(rate) ==> is_measured(rate) ==> (e.minutes matches Some(m)
                && rounds_about(
                m as nat,
                0xffff_ffff,
                (60 * way_left(percent, state) * one_in_units()) as nat,
                size(rate),
                5,
            ))
        }),
{
    assert(!is_shaped(percent, bands));
    let points = points_left(percent, state);
    let e = estimate_of(percent, state, instant_minutes, observed, bands);
    if let Some(rate) = e.rate_pct_hr {
        if is_measured(rate) {
            wholes_measure(points);
            scaled_parts_measure(whole(points), rate, 60, 53, 200);
            let z = product(quotient(whole(points), rate), whole(60));
            let p = 60 * (points * one_in_units());
            assert(p == 60 * points * one_in_units()) by (nonlinear_arith)
                requires
                    p == 60 * (points * one_in_units()),
            ;
            roundings_measure(z, u32::MAX as nat, p, size(rate), 5);
        }
    }
}

} // verus!
