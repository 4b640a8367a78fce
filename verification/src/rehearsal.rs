//! The made-up day: how fast it drains and charges, and what is predicted in
//! it.

use crate::canvas::ones_are_at;
use crate::demo::{DemoPhase, BURST_BITS};
use crate::exact::{sizes_at, wholes_are_at};
use crate::folds::{abouts_are_off_by_little, sums_are_off_by_little};
use crate::measures::{abouts_add_up, abouts_cancel, abouts_scale, abouts_widen};
use crate::measures::{powers_rise, products_measure, quotients_measure, wholes_measure};
use crate::precision::PARTS;
use crate::quantity::{Quantity, ONE_BITS};
use crate::window::Decay;
use vstd::prelude::*;

verus! {

use crate::binary::{
    difference, is_finite, is_negative, negated, one_in_units, product, quotient, size,
    small_wholes_are_exact, sum, value, whole,
};
use crate::demo::{demo_sample, drain_rate, phase_delta, replayed};
use crate::measures::{about, spans};
use crate::precision::power_units;

/// Each sample of the made-up day holds what the model predicts from those
/// before it, for its own percentage, state and moment.
pub proof fn rehearsals_predict_from_what_came_before(now: u64, decay: Decay, n: nat, i: int)
    requires
        0 <= i < n,
    ensures
        ({
            let day = replayed(now, decay, n);
            let x = day[i];
            let e = crate::history::estimate_in(
                day.take(i),
                x.percent,
                x.state,
                crate::power::instant_of(x.state, x.power_w, x.energy_wh, x.energy_full_wh),
                x.t,
                decay,
            );
            &&& day.len() == n
            &&& x.predicted_min == e.minutes
            &&& x.instant_min == e.instant_minutes
            &&& crate::sample::same_reading(x, demo_sample(now, i as nat))
        }),
    decreases n,
{
    let before = replayed(now, decay, (n - 1) as nat);
    let day = replayed(now, decay, n);
    rehearsals_have_their_length(now, decay, (n - 1) as nat);
    if i < n - 1 {
        rehearsals_predict_from_what_came_before(now, decay, (n - 1) as nat, i);
        assert(day.take(i) =~= before.take(i));
    } else {
        assert(day.take(i) =~= before);
    }
}

proof fn rehearsals_have_their_length(now: u64, decay: Decay, n: nat)
    ensures
        replayed(now, decay, n).len() == n,
    decreases n,
{
    if n > 0 {
        rehearsals_have_their_length(now, decay, (n - 1) as nat);
    }
}

proof fn shapes_measure(level: Quantity)
    requires
        is_finite(level),
        0 <= value(level) <= 99 * one_in_units(),
    ensures
        ({
            let part = quotient(difference(whole(100), level), whole(200));
            let shape = sum(Quantity { bits: ONE_BITS }, part);
            &&& spans(shape, 53)
            &&& about(200 * size(shape) as int, 300 * one_in_units() - value(level), 12)
        }),
{
    let one = one_in_units() as int;
    small_wholes_are_exact(1);
    wholes_are_at(100);
    ones_are_at();
    small_wholes_are_exact(100);
    small_wholes_are_exact(200);
    let unit = Quantity { bits: ONE_BITS };
    sizes_at(unit, 1);
    let l = value(level);
    let exact = 100 * one - l;
    let less = negated(level);
    assert(is_finite(less) && value(less) == -l);
    vstd::arithmetic::power2::lemma2_to64();
    crate::precision::scaled_powers(0, 10);
    assert(power_units(0) == one);
    sums_are_off_by_little(whole(100), less, 10);
    let d = difference(whole(100), level);
    let v = value(d);
    let e = PARTS as int;
    assert(one <= exact <= 100 * one);
    assert((v - exact) * e == v * e - exact * e) by (nonlinear_arith);
    assert((exact - v) * e == exact * e - v * e) by (nonlinear_arith);
    assert(v * e <= exact * (e + 2) && exact * e <= v * (e + 5) && one <= 2 * v && v <= 200 * one)
        by (nonlinear_arith)
        requires
            v * e - exact * e <= exact * 2,
            exact * e - v * e <= exact * 2,
            one <= exact <= 100 * one,
            one > 0,
            e == 0x20_0000_0000_0000,
    {
        assert(exact * (e - 2) <= v * e);
        assert(exact <= 2 * v);
    }
    crate::margin::margins_widen(v, exact, 2, 5);
    powers_rise(-53, -1);
    powers_rise(10, 53);
    crate::precision::scaled_powers(-1, 1);
    assert(spans(d, 53));
    wholes_measure(200);
    quotients_measure(d, whole(200), 53, 53);
    let part = quotient(d, whole(200));
    let x = size(part) as int;
    assert(x * (200 * one) == (x * 200) * one) by (nonlinear_arith);
    abouts_cancel(x * 200, v, one, 2);
    abouts_add_up(x * 200, v, exact, 2, 5);
    abouts_are_off_by_little(x * 200, exact, 8);
    let shape = sum(unit, part);
    assert(x <= one) by (nonlinear_arith)
        requires
            (x * 200 - exact) * e <= exact * 9,
            exact <= 100 * one,
            one > 0,
            e == 0x20_0000_0000_0000,
    ;
    sums_are_off_by_little(unit, part, 10);
    let s = value(shape);
    let all = 300 * one - l;
    let (a, b) = (s - (one + x), x * 200 - exact);
    assert(200 * s - all == 200 * a + b);
    assert((200 * s - all) * e == 200 * (a * e) + b * e) by (nonlinear_arith)
        requires
            200 * s - all == 200 * a + b,
    ;
    assert((-a) * e == -(a * e)) by (nonlinear_arith);
    assert((-b) * e == -(b * e)) by (nonlinear_arith);
    assert((200 * s) * e - all * e == (200 * s - all) * e) by (nonlinear_arith);
    // One and the part together are at most two, and all is at least 201.
    assert((200 * s) * e <= all * (e + 12) && all * e <= (200 * s) * (e + 12) && one <= 2 * s && s
        <= 4 * one) by (nonlinear_arith)
        requires
            (200 * s) * e - all * e <= 200 * (2 * (one + x)) + exact * 9,
            -((200 * s) * e - all * e) <= 200 * (2 * (one + x)) + exact * 9,
            0 <= x <= one,
            201 * one <= all <= 300 * one,
            exact <= 100 * one,
            one > 0,
            e == 0x20_0000_0000_0000,
    {
        assert(200 * (2 * (one + x)) + exact * 9 <= 1700 * one);
        assert(1700 * one <= all * 9);
        assert(all <= 2 * (200 * s));
    }
    powers_rise(10, 53);
}

/// Off a burst, the made-up battery drains at fourteen percent an hour when
/// full and half as fast again when empty; in the burst 1.8 times as fast.
pub proof fn drains_speed_up_as_the_cell_empties(level: Quantity)
    requires
        is_finite(level),
        0 <= value(level) <= 99 * one_in_units(),
    ensures
        about(
            200 * size(drain_rate(level, false)) as int,
            14 * (300 * one_in_units() - value(level)),
            18,
        ),
        about(
            1000 * size(drain_rate(level, true)) as int,
            9 * (14 * (300 * one_in_units() - value(level))),
            24,
        ),
{
    let one = one_in_units() as int;
    small_wholes_are_exact(1);
    small_wholes_are_exact(14);
    shapes_measure(level);
    let unit = Quantity { bits: ONE_BITS };
    let shape = sum(unit, quotient(difference(whole(100), level), whole(200)));
    wholes_measure(14);
    products_measure(whole(14), shape, 53, 53);
    let steady = product(whole(14), shape);
    let (s, r) = (size(shape) as int, size(steady) as int);
    let all = 300 * one - value(level);
    assert((14 * one) * s == (14 * s) * one) by (nonlinear_arith);
    abouts_cancel(r, 14 * s, one, 2);
    abouts_scale(r, 14 * s, 200, 2);
    abouts_scale(200 * s, all, 14, 12);
    abouts_add_up(200 * r, 2800 * s, 14 * all, 2, 12);
    abouts_widen(200 * r, 14 * all, 15, 18);
    crate::binary::one_keeps(steady);
    crate::binary::products_commute(steady, unit);
    // The burst.
    let burst = Quantity { bits: BURST_BITS };
    bursts_measure();
    products_measure(steady, burst, 106, 53);
    let (b, t) = (size(burst) as int, size(product(steady, burst)) as int);
    abouts_scale(5 * b, 9 * one, r, 1);
    assert((5 * b) * r == (r * b) * 5) by (nonlinear_arith);
    assert((9 * one) * r == (9 * r) * one) by (nonlinear_arith);
    abouts_scale(t * one, r * b, 5, 2);
    assert((t * one) * 5 == (5 * t) * one) by (nonlinear_arith);
    assert((r * b) * 5 >= 0 && (9 * r) * one >= 0 && (5 * t) * one >= 0) by (nonlinear_arith)
        requires
            r >= 0,
            b >= 0,
            t >= 0,
            one >= 0,
    ;
    abouts_add_up((5 * t) * one, (r * b) * 5, (9 * r) * one, 2, 1);
    abouts_cancel(5 * t, 9 * r, one, 4);
    abouts_scale(5 * t, 9 * r, 200, 4);
    abouts_scale(200 * r, 14 * all, 9, 15);
    abouts_add_up(1000 * t, 1800 * r, 9 * (14 * all), 4, 15);
    abouts_widen(1000 * t, 9 * (14 * all), 20, 24);
}

proof fn bursts_measure()
    ensures
        spans(Quantity { bits: BURST_BITS }, 53),
        about(5 * size(Quantity { bits: BURST_BITS }) as int, 9 * one_in_units() as int, 1),
{
    let q = Quantity { bits: BURST_BITS };
    let span = crate::binary::SPAN as nat;
    let digits = 0x1C_CCCC_CCCC_CCCDnat;
    crate::binary::put_together(digits, 1022);
    assert(BURST_BITS == 1022 * span + digits);
    crate::binary::one_is_one();
    crate::binary::put_together(span, 1022);
    assert(ONE_BITS == 1022 * span + span);
    vstd::arithmetic::power2::lemma_pow2_pos(1022);
    let a = vstd::arithmetic::power2::pow2(1022) as int;
    let (s, one) = (size(q) as int, one_in_units() as int);
    assert(s == digits * a && one == span * a);
    let e = PARTS as int;
    assert((5 * s) * e <= (9 * one) * (e + 1) && (9 * one) * e <= (5 * s) * (e + 1) && one <= s
        && s <= 2 * one) by (nonlinear_arith)
        requires
            s == 0x1C_CCCC_CCCC_CCCD * a,
            one == 0x10_0000_0000_0000 * a,
            a > 0,
            e == 0x20_0000_0000_0000,
    ;
    powers_rise(-53, 0);
    powers_rise(1, 53);
    crate::precision::scaled_powers(0, 1);
    vstd::arithmetic::power2::lemma2_to64();
    assert(power_units(0) == one);
}

/// In a minute the charge moves by a sixtieth of the hourly rate: down while
/// draining, up by forty percent an hour while charging, and not at all on
/// the adapter.
pub proof fn minutes_move_a_sixtieth(level: Quantity, burst: bool)
    requires
        spans(drain_rate(level, burst), 300),
    ensures
        ({
            let down = phase_delta(DemoPhase::Draining { burst }, level);
            let up = phase_delta(DemoPhase::ToppingUp, level);
            &&& is_negative(down)
            &&& about(60 * size(down) as int, size(drain_rate(level, burst)) as int, 2)
            &&& !is_negative(up)
            &&& about(60 * size(up) as int, 40 * one_in_units() as int, 2)
            &&& value(phase_delta(DemoPhase::OnAdapter, level)) == 0
        }),
{
    let one = one_in_units() as int;
    small_wholes_are_exact(1);
    small_wholes_are_exact(40);
    small_wholes_are_exact(60);
    wholes_measure(40);
    wholes_measure(60);
    quotients_measure(whole(40), whole(60), 53, 53);
    let up = size(phase_delta(DemoPhase::ToppingUp, level)) as int;
    assert(up * (60 * one) == (60 * up) * one) by (nonlinear_arith);
    abouts_cancel(60 * up, 40 * one, one, 2);
    let rate = drain_rate(level, burst);
    quotients_measure(rate, whole(60), 300, 53);
    let (x, y) = (quotient(rate, whole(60)), quotient(negated(rate), whole(60)));
    assert(size(negated(rate)) == size(rate) && is_negative(negated(rate)));
    crate::binary::nearest_exists(size(rate) * one_in_units(), size(whole(60)));
    assert(x.magnitude() == y.magnitude());
    let s = size(x) as int;
    assert(s * (60 * one) == (60 * s) * one) by (nonlinear_arith);
    abouts_cancel(60 * s, size(rate) as int, one, 2);
    crate::binary::nothing_is_zero();
}

} // verus!
