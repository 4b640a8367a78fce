//! What a band's rate is: what the charge moved by in its steps, over the time
//! that all of them took.

use crate::folds::{abouts_are_off_by_little, folds_measure, rates_measure};
use crate::folds::{sums_are_off_by_little, MOST_TERMS};
use crate::measures::{abouts_cancel, quotients_measure};
use crate::measures::wholes_measure;
use crate::power::PowerState;
use crate::precision::PARTS;
use crate::quantity::{Quantity, FIVE_BITS, ONE_BITS};
use crate::sample::Sample;
use vstd::prelude::*;

verus! {

use crate::bands::{hours_in, learned_rates, moved_in, steps_by_band, BandStep};
use crate::binary::{
    is_finite, is_negative, one_in_units, one_is_one, only_zeros_have_no_size,
    order_is_that_of_values, product, put_together, quotient, size, small_wholes_are_exact, units,
    value, whole,
};
use crate::curve::tenth;
use crate::folds::{added_up, extent, extent_of, is_off_by, total_of};
use crate::measures::spans;
use crate::precision::power_units;
use crate::sample::{elapsed, hours, progressed};

/// Whether the charge of a sample is finite and not vast.
pub open spec fn has_charge(x: Sample) -> bool {
    is_finite(x.charge()) && size(x.charge()) <= power_units(200)
}

/// How far the charge moved forward, exactly: down on battery, up while
/// charging.
pub open spec fn moved_forward(from: Sample, to: Sample) -> int {
    if from.state == PowerState::Charging {
        value(to.charge()) - value(from.charge())
    } else {
        value(from.charge()) - value(to.charge())
    }
}

/// Whether the step to sample `k` is one of `state` that starts in band `b`:
/// both of its samples are in that state, no more than ten minutes apart.
pub open spec fn is_step_of(s: Seq<Sample>, state: PowerState, b: int, k: int) -> bool {
    &&& s[k - 1].state == state
    &&& s[k].state == state
    &&& s[k].t <= s[k - 1].t + 600
    &&& tenth(s[k - 1].percent as int) == b
}

/// The seconds from one moment to a later one.
pub open spec fn seconds_to(from: u64, to: u64) -> int {
    if to > from {
        to - from
    } else {
        0
    }
}

/// The seconds of every step of `state` that starts in band `b`, whether the
/// charge moved in it or not.
pub open spec fn seconds_in_band(s: Seq<Sample>, state: PowerState, b: int) -> int
    decreases s.len(),
{
    if s.len() < 2 {
        0
    } else {
        let n = s.len() - 1;
        seconds_in_band(s.drop_last(), state, b) + if is_step_of(s, state, b, n) {
            seconds_to(s[n - 1].t, s[n].t)
        } else {
            0
        }
    }
}

/// What the charge moved by in each step of `state` that starts in band `b`.
pub open spec fn moves_in_band(s: Seq<Sample>, state: PowerState, b: int) -> Seq<int>
    decreases s.len(),
{
    if s.len() < 2 {
        Seq::empty()
    } else {
        let n = s.len() - 1;
        let before = moves_in_band(s.drop_last(), state, b);
        if is_step_of(s, state, b, n) {
            before.push(moved_forward(s[n - 1], s[n]))
        } else {
            before
        }
    }
}

/// The movements as they are added up.
spec fn steps_moved(s: Seq<Sample>, state: PowerState, b: int) -> Seq<Quantity>
    decreases s.len(),
{
    if s.len() < 2 {
        Seq::empty()
    } else {
        let n = s.len() - 1;
        let before = steps_moved(s.drop_last(), state, b);
        if is_step_of(s, state, b, n) {
            before.push(progressed(s[n - 1], s[n]))
        } else {
            before
        }
    }
}

/// The times as they are added up.
spec fn steps_taken(s: Seq<Sample>, state: PowerState, b: int) -> Seq<Quantity>
    decreases s.len(),
{
    if s.len() < 2 {
        Seq::empty()
    } else {
        let n = s.len() - 1;
        let before = steps_taken(s.drop_last(), state, b);
        if is_step_of(s, state, b, n) {
            before.push(hours(s[n - 1], s[n]))
        } else {
            before
        }
    }
}

/// The exact times, in multiples of the smallest positive quantity.
spec fn times_taken(s: Seq<Sample>, state: PowerState, b: int) -> Seq<int>
    decreases s.len(),
{
    if s.len() < 2 {
        Seq::empty()
    } else {
        let n = s.len() - 1;
        let before = times_taken(s.drop_last(), state, b);
        if is_step_of(s, state, b, n) {
            before.push(seconds_to(s[n - 1].t, s[n].t) * one_in_units())
        } else {
            before
        }
    }
}

/// Sums over the steps of a history do not depend on what comes after them.
proof fn sums_see_the_steps_alone(s: Seq<Sample>, t: Seq<Sample>, steps: Seq<BandStep>, b: int)
    requires
        forall|i: int|
            0 <= i < steps.len() ==> {
                let at = (#[trigger] steps[i]).at as int;
                s[at] == t[at] && s[at + 1] == t[at + 1]
            },
    ensures
        moved_in(s, steps, b) == moved_in(t, steps, b),
        hours_in(s, steps, b) == hours_in(t, steps, b),
    decreases steps.len(),
{
    if steps.len() > 0 {
        let rest = steps.drop_last();
        assert forall|i: int| 0 <= i < rest.len() implies {
            let at = (#[trigger] rest[i]).at as int;
            s[at] == t[at] && s[at + 1] == t[at + 1]
        } by {
            assert(rest[i] == steps[i]);
        }
        sums_see_the_steps_alone(s, t, rest, b);
        assert(steps[steps.len() - 1] == steps.last());
    }
}

/// What is added up for a band is every step that starts in it.
proof fn bands_add_up_their_steps(s: Seq<Sample>, state: PowerState, b: int)
    requires
        s.len() <= usize::MAX,
        0 <= b < 10,
    ensures
        moved_in(s, steps_by_band(s, state), b) == added_up(steps_moved(s, state, b)),
        hours_in(s, steps_by_band(s, state), b) == added_up(steps_taken(s, state, b)),
        steps_moved(s, state, b).len() == moves_in_band(s, state, b).len(),
        steps_taken(s, state, b).len() == moves_in_band(s, state, b).len(),
        times_taken(s, state, b).len() == moves_in_band(s, state, b).len(),
        moves_in_band(s, state, b).len() <= s.len(),
        total_of(times_taken(s, state, b)) == seconds_in_band(s, state, b) * one_in_units(),
        seconds_in_band(s, state, b) >= 0,
        extent_of(times_taken(s, state, b)) == total_of(times_taken(s, state, b)),
    decreases s.len(),
{
    let one = one_in_units() as int;
    if s.len() < 2 {
        assert(0 * one == 0);
    } else {
        let rest = s.drop_last();
        let n = s.len() - 1;
        bands_add_up_their_steps(rest, state, b);
        let before = steps_by_band(rest, state);
        crate::bands::band_steps_are_the_steps(rest, state);
        sums_see_the_steps_alone(rest, s, before, b);
        let all = steps_by_band(s, state);
        let a = s[n - 1];
        assert(crate::sample::band_of(a.percent) == tenth(a.percent as int));
        assert(is_step_of(s, state, b, n) <==> (a.state == state && !crate::session::opens(s, n)
            && crate::sample::band_of(a.percent) == b));
        if a.state == state && !crate::session::opens(s, n) {
            assert(all.drop_last() =~= before);
        }
        if is_step_of(s, state, b, n) {
            let (q, h, d) = (
                steps_moved(s, state, b),
                steps_taken(s, state, b),
                times_taken(s, state, b),
            );
            assert(q.drop_last() =~= steps_moved(rest, state, b));
            assert(h.drop_last() =~= steps_taken(rest, state, b));
            assert(d.drop_last() =~= times_taken(rest, state, b));
            let x = seconds_to(s[n - 1].t, s[n].t);
            assert((seconds_in_band(rest, state, b) + x) * one == seconds_in_band(rest, state, b)
                * one + x * one) by (nonlinear_arith);
            assert(x * one >= 0) by (nonlinear_arith)
                requires
                    x >= 0,
                    one >= 0,
            ;
        }
    }
}

/// One movement, as it is added up.
pub(crate) proof fn movements_measure(from: Sample, to: Sample)
    requires
        has_charge(from),
        has_charge(to),
    ensures
        is_finite(progressed(from, to)),
        size(progressed(from, to)) <= power_units(202),
        is_off_by(
            value(progressed(from, to)),
            moved_forward(from, to),
            extent(moved_forward(from, to)),
            2,
        ),
{
    let (a, b) = if from.state == PowerState::Charging {
        (to.charge(), from.charge())
    } else {
        (from.charge(), to.charge())
    };
    let c = crate::binary::negated(b);
    assert(value(c) == -value(b));
    crate::precision::scaled_powers(200, 1);
    crate::precision::scaled_powers(201, 1);
    vstd::arithmetic::power2::lemma2_to64();
    sums_are_off_by_little(a, c, 201);
    let x = extent(moved_forward(from, to));
    let y = size(progressed(from, to)) as int;
    let top = power_units(201) as int;
    assert(y * PARTS <= (2 * top) * PARTS) by (nonlinear_arith)
        requires
            (y - x) * PARTS <= x * 2,
            0 <= x <= top,
            PARTS == 0x20_0000_0000_0000,
    {
        assert(y * PARTS == (y - x) * PARTS + x * PARTS);
        assert(x * PARTS <= top * PARTS);
        assert(x * 2 <= top * PARTS);
    }
    assert(y <= 2 * top) by (nonlinear_arith)
        requires
            y * PARTS <= (2 * top) * PARTS,
            PARTS > 0,
    ;
}

/// One step's time, as it is added up.
proof fn times_measure(from: Sample, to: Sample)
    requires
        seconds_to(from.t, to.t) <= 600,
    ensures
        is_finite(hours(from, to)),
        size(hours(from, to)) <= power_units(0),
        !is_negative(hours(from, to)),
        is_off_by(
            value(hours(from, to)) * 3600,
            seconds_to(from.t, to.t) * one_in_units(),
            extent(seconds_to(from.t, to.t) * one_in_units()),
            3,
        ),
{
    let one = one_in_units() as int;
    let n = seconds_to(from.t, to.t) as nat;
    assert(n == elapsed(from.t, to.t));
    wholes_measure(3600);
    small_wholes_are_exact(3600);
    assert(power_units(0) == one);
    if n == 0 {
        crate::binary::nothing_is_zero();
        crate::binary::parts_of_nothing_are_nothing(whole(3600));
        assert(0 * one == 0);
    } else {
        wholes_measure(n);
        quotients_measure(whole(n), whole(3600), 53, 53);
        let h = size(hours(from, to)) as int;
        assert(h * (3600 * one) == (h * 3600) * one) by (nonlinear_arith);
        let m = n * one;
        abouts_cancel(h * 3600, m, one, 2);
        assert(m >= 0 && m <= 600 * one) by (nonlinear_arith)
            requires
                m == n * one,
                0 <= n <= 600,
                one >= 0,
        ;
        abouts_are_off_by_little(h * 3600, m, 2);
        assert(h <= one) by (nonlinear_arith)
            requires
                (h * 3600) * PARTS <= m * (PARTS + 2),
                m <= 600 * one,
                PARTS == 0x20_0000_0000_0000,
                one > 0,
        ;
    }
}

proof fn steps_measure(s: Seq<Sample>, state: PowerState, b: int)
    requires
        forall|i: int| 0 <= i < s.len() ==> has_charge(#[trigger] s[i]),
        0 <= b < 10,
        s.len() <= usize::MAX,
    ensures
        forall|i: int|
            0 <= i < steps_moved(s, state, b).len() ==> is_finite(
                #[trigger] steps_moved(s, state, b)[i],
            ) && size(steps_moved(s, state, b)[i]) <= power_units(202) && is_off_by(
                value(steps_moved(s, state, b)[i]) * 1,
                moves_in_band(s, state, b)[i],
                extent(moves_in_band(s, state, b)[i]),
                2,
            ),
        forall|i: int|
            0 <= i < steps_taken(s, state, b).len() ==> is_finite(
                #[trigger] steps_taken(s, state, b)[i],
            ) && size(steps_taken(s, state, b)[i]) <= power_units(0) && is_off_by(
                value(steps_taken(s, state, b)[i]) * 3600,
                times_taken(s, state, b)[i],
                extent(times_taken(s, state, b)[i]),
                3,
            ),
    decreases s.len(),
{
    if s.len() >= 2 {
        let rest = s.drop_last();
        let n = s.len() - 1;
        assert forall|i: int| 0 <= i < rest.len() implies has_charge(#[trigger] rest[i]) by {
            assert(rest[i] == s[i]);
        }
        steps_measure(rest, state, b);
        bands_add_up_their_steps(rest, state, b);
        assert(has_charge(s[n - 1]) && has_charge(s[n]));
        if is_step_of(s, state, b, n) {
            movements_measure(s[n - 1], s[n]);
            times_measure(s[n - 1], s[n]);
        }
    }
}

/// The rate of a band times the time spent in it is what the charge moved by
/// in it. Every step of the state's sessions that starts in the band counts,
/// with its time and with its movement, whether the charge moved or not. A
/// band is trusted from five minutes and a full percent on.
pub proof fn band_rates_are_movement_over_time(s: Seq<Sample>, state: PowerState, b: int)
    requires
        forall|i: int| 0 <= i < s.len() ==> has_charge(#[trigger] s[i]),
        0 <= b < 10,
        0 < s.len() <= MOST_TERMS,
    ensures
        ({
            let seconds = seconds_in_band(s, state, b);
            let moves = moves_in_band(s, state, b);
            let one = one_in_units() as int;
            match learned_rates(s, state)[b] {
                Some(rate) => {
                    &&& !is_negative(rate)
                    &&& is_off_by(
                        size(rate) * seconds,
                        3600 * total_of(moves),
                        3600 * extent_of(moves),
                        200 * s.len(),
                    )
                    &&& seconds >= 300
                    &&& (one - total_of(moves)) * PARTS <= extent_of(moves) * (14 * s.len())
                },
                None => seconds <= 300 || (total_of(moves) - one) * PARTS <= extent_of(moves)
                    * (14 * s.len()),
            }
        }),
{
    let n = s.len() as int;
    let one = one_in_units() as int;
    small_wholes_are_exact(1);
    bands_add_up_their_steps(s, state, b);
    steps_measure(s, state, b);
    let (q, h) = (steps_moved(s, state, b), steps_taken(s, state, b));
    let (d, t) = (moves_in_band(s, state, b), times_taken(s, state, b));
    folds_measure(q, d, 1, 2, 202);
    folds_measure(h, t, 3600, 3, 0);
    let moved = added_up(q);
    let time = added_up(h);
    times_add_up(s, state, b);
    let (m, y) = (value(moved), size(time) as int);
    let seconds = seconds_in_band(s, state, b);
    let k = q.len() as int;
    let churn = extent_of(d);
    assert(m * 1 == m);
    crate::folds::extents_hold_totals(d);
    // In terms of the length of the history.
    assert(churn * ((2 + 6) * k) <= churn * (14 * n)) by (nonlinear_arith)
        requires
            0 <= k <= n,
            churn >= 0,
    ;
    let so = seconds * one;
    assert(so >= 0) by (nonlinear_arith)
        requires
            so == seconds * one,
            seconds >= 0,
            one > 0,
    ;
    assert(so * ((3 + 6) * k) <= so * (12 * n)) by (nonlinear_arith)
        requires
            0 <= k <= n,
            so >= 0,
    ;
    assert(extent(m - total_of(d)) * PARTS <= churn * (14 * n));
    assert(extent(y * 3600 - so) * PARTS <= so * (12 * n));
    // Five minutes.
    let sixty = product(time, whole(60));
    let five = Quantity { bits: FIVE_BITS };
    five_is_whole();
    minutes_reach_five(time, seconds, n);
    // A full percent.
    let unit = Quantity { bits: ONE_BITS };
    one_is_one();
    order_is_that_of_values(unit, moved);
    if let Some(rate) = learned_rates(s, state)[b] {
        assert(rate == quotient(moved, time));
        assert(m >= one);
        only_zeros_have_no_size(moved);
        assert(extent(m) <= 2 * k * power_units(202));
        let top = power_units(202) as int;
        crate::precision::scaled_powers(202, 26);
        crate::precision::scaled_powers(0, 26);
        vstd::arithmetic::power2::lemma2_to64();
        assert(2 * k * top <= 0x400_0000 * top && 2 * k * one <= 0x400_0000 * one)
            by (nonlinear_arith)
            requires
                k <= 0x100_0000,
                top >= 0,
                one >= 0,
        ;
        crate::measures::powers_rise(-230, 0);
        crate::measures::powers_rise(228, 230);
        crate::measures::powers_rise(26, 30);
        crate::measures::powers_rise(-30, -10);
        assert(power_units(0) == one);
        assert(spans(moved, 230));
        crate::precision::scaled_powers(-10, 10);
        assert(y * 3600 * PARTS >= so * PARTS - so * (12 * n)) by (nonlinear_arith)
            requires
                (so - y * 3600) * PARTS <= so * (12 * n),
        ;
        assert(so >= 300 * one) by (nonlinear_arith)
            requires
                so == seconds * one,
                seconds >= 300,
                one > 0,
        ;
        assert(y * 1024 >= one) by (nonlinear_arith)
            requires
                y * 3600 * PARTS >= so * PARTS - so * (12 * n),
                n <= 0x100_0000,
                so >= 300 * one,
                one > 0,
                PARTS == 0x20_0000_0000_0000,
        {
            assert(so * (12 * n) * 2 <= so * PARTS);
            assert(y * 3600 * PARTS * 2 >= so * PARTS);
        }
        assert(spans(time, 30));
        quotients_measure(moved, time, 230, 30);
        let r = size(rate) as int;
        assert(r * y >= 0 && m * one >= 0) by (nonlinear_arith)
            requires
                r >= 0,
                y >= 0,
                m >= 0,
                one >= 0,
        ;
        abouts_are_off_by_little(r * y, m * one, 2);
        assert(y * (3600 * 1) == y * 3600);
        rates_measure(r, y, m, seconds, total_of(d), churn, 1, one, n);
        // The percent that was asked for.
        assert((one - total_of(d)) * PARTS <= churn * (14 * n)) by (nonlinear_arith)
            requires
                one - total_of(d) <= extent(m - total_of(d)),
                extent(m - total_of(d)) * PARTS <= churn * (14 * n),
        ;
    } else {
        if seconds > 300 {
            assert(m < one);
            assert((total_of(d) - one) * PARTS <= churn * (14 * n)) by (nonlinear_arith)
                requires
                    total_of(d) - one <= extent(m - total_of(d)),
                    extent(m - total_of(d)) * PARTS <= churn * (14 * n),
            ;
        }
    }
}

proof fn five_is_whole()
    ensures
        size(Quantity { bits: FIVE_BITS }) == 5 * one_in_units(),
{
    let span = crate::binary::SPAN as nat;
    let digits = 0x14_0000_0000_0000nat;
    put_together(digits, 1024);
    assert(FIVE_BITS == 1024 * span + digits);
    one_is_one();
    put_together(span, 1022);
    assert(ONE_BITS == 1022 * span + span);
    vstd::arithmetic::power2::lemma2_to64();
    vstd::arithmetic::power2::lemma_pow2_adds(2, 1022);
    let a = vstd::arithmetic::power2::pow2(1022);
    assert(digits * (4 * a) == 5 * (0x10_0000_0000_0000 * a)) by (nonlinear_arith)
        requires
            digits == 0x14_0000_0000_0000nat,
    ;
}

proof fn times_add_up(s: Seq<Sample>, state: PowerState, b: int)
    ensures
        is_finite(added_up(steps_taken(s, state, b))) ==> !is_negative(
            added_up(steps_taken(s, state, b)),
        ),
    decreases s.len(),
{
    if s.len() >= 2 {
        let rest = s.drop_last();
        let n = s.len() - 1;
        times_add_up(rest, state, b);
        if is_step_of(s, state, b, n) {
            let h = steps_taken(s, state, b);
            assert(h.drop_last() =~= steps_taken(rest, state, b));
            times_measure(s[n - 1], s[n]);
            let before = added_up(steps_taken(rest, state, b));
            if is_finite(before) {
                crate::between::sums_are_close(before, hours(s[n - 1], s[n]));
            }
        }
    }
}

/// Sixty times the hours reach five exactly from three hundred seconds on.
proof fn minutes_reach_five(time: Quantity, seconds: int, n: int)
    requires
        is_finite(time),
        !is_negative(time),
        seconds >= 0,
        1 <= n <= MOST_TERMS,
        extent(size(time) * 3600 - seconds * one_in_units()) * PARTS <= (seconds * one_in_units())
            * (12 * n),
    ensures
        (Quantity { bits: FIVE_BITS }).at_most(product(time, whole(60))) ==> seconds >= 300,
        seconds > 300 ==> (Quantity { bits: FIVE_BITS }).at_most(product(time, whole(60))),
{
    let one = one_in_units() as int;
    let y = size(time) as int;
    let so = seconds * one;
    five_is_whole();
    small_wholes_are_exact(60);
    let z = product(time, whole(60));
    let p = size(time) * size(whole(60));
    crate::binary::nearest_exists(p, one_in_units());
    let mag = crate::binary::nearest(p, one_in_units());
    crate::binary::exact_values_stay(FIVE_BITS as nat, one_in_units());
    assert(p == (60 * y) * one) by (nonlinear_arith)
        requires
            p == y * (60 * one),
    ;
    let five = 5 * one;
    if seconds > 300 {
        assert(so >= 301 * one) by (nonlinear_arith)
            requires
                so == seconds * one,
                seconds >= 301,
                one > 0,
        ;
        assert(60 * y >= five) by (nonlinear_arith)
            requires
                (so - y * 3600) * PARTS <= so * (12 * n),
                so >= 301 * one,
                n <= 0x100_0000,
                five == 5 * one,
                one > 0,
                PARTS == 0x20_0000_0000_0000,
        {
            assert(so * (12 * n) * 0x100_0000 <= so * PARTS);
        }
        assert(five * one <= p) by (nonlinear_arith)
            requires
                p == (60 * y) * one,
                60 * y >= five,
                one > 0,
        ;
        crate::binary::nearest_keeps_order(
            (five * one) as nat,
            p,
            one_in_units(),
            FIVE_BITS as nat,
            mag,
        );
    }
    if seconds < 300 {
        // Short of it by a second, sixty times the hours stay below.
        assert(so <= 299 * one) by (nonlinear_arith)
            requires
                so == seconds * one,
                seconds <= 299,
                one > 0,
        ;
        assert(so >= 0) by (nonlinear_arith)
            requires
                so == seconds * one,
                seconds >= 0,
                one > 0,
        ;
        assert(720 * y <= 4 * 15 * one - one / 6) by (nonlinear_arith)
            requires
                (y * 3600 - so) * PARTS <= so * (12 * n),
                0 <= so <= 299 * one,
                n <= 0x100_0000,
                one > 0,
                PARTS == 0x20_0000_0000_0000,
        {
            assert(so * (12 * n) * 0x100_0000 <= so * PARTS);
            assert((y * 3600 - so) * 0x100_0000 <= so);
        }
        crate::margin::rounding_adds_little(p, one_in_units(), mag);
        vstd::arithmetic::power2::lemma2_to64();
        vstd::arithmetic::power2::lemma_pow2_strictly_increases(10, 1074);
        stays_below_five(units(mag) as int, y, one);
        if FIVE_BITS as nat <= mag {
            if (FIVE_BITS as nat) < mag {
                crate::binary::magnitudes_grow(FIVE_BITS as nat, mag);
            }
        }
    }
}

proof fn stays_below_five(u: int, y: int, one: int)
    requires
        one >= 1000,
        y >= 0,
        720 * y <= 60 * one - one / 6,
        ((u - 1) * one) * PARTS <= ((60 * y) * one) * (PARTS + 2),
    ensures
        u < 5 * one,
{
    assert((u - 1) * PARTS <= (60 * y) * (PARTS + 2)) by (nonlinear_arith)
        requires
            ((u - 1) * one) * PARTS <= ((60 * y) * one) * (PARTS + 2),
            one > 0,
    {
        assert(((u - 1) * one) * PARTS == ((u - 1) * PARTS) * one);
        assert(((60 * y) * one) * (PARTS + 2) == ((60 * y) * (PARTS + 2)) * one);
    }
    assert(u < 5 * one) by (nonlinear_arith)
        requires
            (u - 1) * PARTS <= (60 * y) * (PARTS + 2),
            720 * y <= 60 * one - one / 6,
            one >= 1000,
            y >= 0,
            PARTS == 0x20_0000_0000_0000,
    ;
}

} // verus!
