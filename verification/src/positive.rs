//! An observed rate is above zero.

use crate::binary::SPAN;
use crate::multiples::{few_digits_are_exact, magnitudes_are_multiples, multiples_are_large};
use crate::multiples::{products_are_multiples, sums_are_multiples};
use crate::quantity::Quantity;
use crate::sample::Sample;
use crate::window::Decay;
use vstd::arithmetic::power2::pow2;
use vstd::prelude::*;

verus! {

use crate::binary::{
    exact_values_stay, is_finite, is_negative, magnitudes_grow, nearest, nearest_exists,
    nearest_found, nearest_keeps_order, one_in_units, only_zeros_have_no_size, product, quotient,
    size, sum, units, values_stay, zero_stays_zero,
};
use crate::multiples::is_multiple;
use crate::pace::is_ample;
use crate::precision::{power_mag, power_units, powers_are_magnitudes};
use crate::sample::{hours, progressed};
use crate::window::{session_rate, step_weight, weighted_hours, weighted_moves, window_steps};

/// A positive quotient rounds to zero exactly where it is no more than half of
/// the smallest positive quantity.
proof fn quotients_vanish_in_rounding(a: Quantity, b: Quantity)
    requires
        is_finite(a),
        is_finite(b),
        !is_negative(a),
        !is_negative(b),
        size(b) > 0,
    ensures
        (Quantity { bits: 0 }).less(quotient(a, b)) <==> 2 * (size(a) * one_in_units()) > size(b),
{
    let p = size(a) * one_in_units();
    let q = size(b);
    nearest_exists(p, q);
    assert((units(0) + units(1)) * q == q) by (nonlinear_arith)
        requires
            units(0) == 0,
            units(1) == 1,
    ;
    if 2 * p <= q {
        assert(crate::binary::is_nearest(p, q, 0));
        nearest_found(p, q, 0);
    }
}

/// An observed rate is above zero, unless it is too small to be told from it:
/// no more than half of the smallest positive quantity.
pub proof fn rates_vanish_in_rounding_alone(session: Seq<Sample>, now: u64, decay: Decay)
    requires
        is_finite(weighted_moves(session, now, decay, window_steps(session, now))),
        is_finite(weighted_hours(session, now, decay, window_steps(session, now))),
    ensures
        session_rate(session, now, decay) matches Some((rate, _)) ==> {
            let moved = weighted_moves(session, now, decay, window_steps(session, now));
            let time = weighted_hours(session, now, decay, window_steps(session, now));
            (Quantity { bits: 0 }).less(rate) <==> 2 * (size(moved) * one_in_units()) > size(time)
        },
{
    let moved = weighted_moves(session, now, decay, window_steps(session, now));
    let time = weighted_hours(session, now, decay, window_steps(session, now));
    if session_rate(session, now, decay) is Some {
        only_zeros_have_no_size(moved);
        only_zeros_have_no_size(time);
        quotients_vanish_in_rounding(moved, time);
    }
}

/// Whether a weight is neither tiny nor vast: from two to the power of -64 to
/// two to the power of 64. The weights of the half life, from a sixteenth to
/// one, all are.
pub open spec fn is_moderate(weight: Quantity) -> bool {
    is_ample(weight) && size(weight) <= power_units(64)
}

/// Whether a charge is empty, or large enough that what it moves by does not
/// vanish: at least two to the power of -100 percent.
pub open spec fn is_plain(charge: Quantity) -> bool {
    is_finite(charge) && (size(charge) == 0 || size(charge) >= power_units(-100))
}

/// Whether the step that begins at `at` has a moderate weight and plain
/// charges.
pub open spec fn is_plain_step(session: Seq<Sample>, now: u64, decay: Decay, at: int) -> bool {
    &&& is_moderate(step_weight(session, now, decay, at))
    &&& is_plain(session[at].charge())
    &&& is_plain(session[at + 1].charge())
}

/// Plain charges are multiples of two to the power of -152.
pub(crate) proof fn charges_are_multiples(charge: Quantity)
    requires
        is_plain(charge),
    ensures
        is_multiple(size(charge), 922),
{
    if size(charge) == 0 {
        assert(0nat * pow2(922) == 0) by (nonlinear_arith);
    } else {
        magnitudes_are_multiples(charge.magnitude() as nat, 922);
    }
}

/// What plain steps move by, each by its weight, is a multiple of two to the
/// power of -268.
proof fn moves_are_multiples(session: Seq<Sample>, now: u64, decay: Decay, steps: Seq<usize>)
    requires
        is_finite(weighted_moves(session, now, decay, steps)),
        forall|i: int|
            0 <= i < steps.len() ==> is_plain_step(session, now, decay, #[trigger] steps[i] as int),
    ensures
        is_multiple(size(weighted_moves(session, now, decay, steps)), 806),
    decreases steps.len(),
{
    if steps.len() == 0 {
        assert(0nat * pow2(806) == 0) by (nonlinear_arith);
    } else {
        let rest = steps.drop_last();
        let at = steps.last() as int;
        assert(steps[steps.len() - 1] == at);
        let w = step_weight(session, now, decay, at);
        let (a, b) = (session[at], session[at + 1]);
        let p = progressed(a, b);
        let before = weighted_moves(session, now, decay, rest);
        let x = product(w, p);
        assert(weighted_moves(session, now, decay, steps) == sum(before, x));
        assert forall|i: int| 0 <= i < rest.len() implies is_plain_step(
            session,
            now,
            decay,
            #[trigger] rest[i] as int,
        ) by {
            assert(rest[i] == steps[i]);
        }
        moves_are_multiples(session, now, decay, rest);
        charges_are_multiples(a.charge());
        charges_are_multiples(b.charge());
        let (from, to) = if a.state == crate::power::PowerState::Charging {
            (b.charge(), a.charge())
        } else {
            (a.charge(), b.charge())
        };
        assert(p == sum(from, crate::binary::negated(to)));
        sums_are_multiples(from, crate::binary::negated(to), 922);
        magnitudes_are_multiples(w.magnitude() as nat, 958);
        products_are_multiples(w, p, 958, 922, 806);
        sums_are_multiples(before, x, 806);
    }
}

/// The time of steps with moderate weights is not vast.
proof fn times_are_bounded(session: Seq<Sample>, now: u64, decay: Decay, steps: Seq<usize>)
    requires
        steps.len() < 2 * SPAN,
        forall|i: int|
            0 <= i < steps.len() ==> is_moderate(
                step_weight(session, now, decay, #[trigger] steps[i] as int),
            ),
    ensures
        is_finite(weighted_hours(session, now, decay, steps)),
        !is_negative(weighted_hours(session, now, decay, steps)),
        size(weighted_hours(session, now, decay, steps)) <= steps.len() * power_units(128),
    decreases steps.len(),
{
    let bound = power_units(128);
    assert(bound == pow2(1202));
    if steps.len() == 0 {
        assert(0 * bound == 0);
    } else {
        let rest = steps.drop_last();
        let at = steps.last() as int;
        assert(steps[steps.len() - 1] == at);
        assert forall|i: int| 0 <= i < rest.len() implies is_moderate(
            step_weight(session, now, decay, #[trigger] rest[i] as int),
        ) by {
            assert(rest[i] == steps[i]);
        }
        times_are_bounded(session, now, decay, rest);
        let w = step_weight(session, now, decay, at);
        let h = hours(session[at], session[at + 1]);
        crate::pace::hours_are_seconds(session[at], session[at + 1]);
        let one = one_in_units();
        vstd::arithmetic::power2::lemma_pow2_pos(crate::binary::UNIT_POWER as nat);
        // The step itself.
        let high = power_units(64);
        vstd::arithmetic::power2::lemma_pow2_adds(1138, 1138);
        vstd::arithmetic::power2::lemma_pow2_adds(1202, 1074);
        assert(size(w) * size(h) <= bound * one) by (nonlinear_arith)
            requires
                size(w) <= high,
                size(h) <= high,
                high * high == bound * one,
        ;
        powers_are_magnitudes(128);
        let p = size(w) * size(h);
        nearest_exists(p, one);
        exact_values_stay(power_mag(128), one);
        nearest_keeps_order(p, bound * one, one, nearest(p, one), power_mag(128));
        if nearest(p, one) < power_mag(128) {
            magnitudes_grow(nearest(p, one), power_mag(128));
        }
        let y = product(w, h);
        assert(is_finite(y) && !is_negative(y) && size(y) <= bound);
        // With those before it.
        let before = weighted_hours(session, now, decay, rest);
        let exact = size(before) + size(y);
        let n = steps.len();
        assert(rest.len() * bound + bound == n * bound) by (nonlinear_arith)
            requires
                rest.len() + 1 == n,
        ;
        let top = few_digits_are_exact(n, 1202);
        values_stay(top);
        nearest_exists(exact, 1);
        nearest_keeps_order(exact, units(top), 1, nearest(exact, 1), top);
        if nearest(exact, 1) < top {
            magnitudes_grow(nearest(exact, 1), top);
        }
        if exact == 0 {
            zero_stays_zero(1);
        }
    }
}

/// An observed rate is above zero, where the weights are moderate and the
/// charges plain.
pub proof fn observed_rates_are_positive(session: Seq<Sample>, now: u64, decay: Decay)
    requires
        window_steps(session, now).len() < 2 * SPAN,
        forall|i: int|
            0 <= i < window_steps(session, now).len() ==> is_plain_step(
                session,
                now,
                decay,
                #[trigger] window_steps(session, now)[i] as int,
            ),
        is_finite(weighted_moves(session, now, decay, window_steps(session, now))),
    ensures
        session_rate(session, now, decay) matches Some((rate, minutes)) ==> {
            &&& (Quantity { bits: 0 }).less(rate)
            &&& minutes >= 1
        },
{
    let steps = window_steps(session, now);
    let moved = weighted_moves(session, now, decay, steps);
    let time = weighted_hours(session, now, decay, steps);
    times_are_bounded(session, now, decay, steps);
    moves_are_multiples(session, now, decay, steps);
    rates_vanish_in_rounding_alone(session, now, decay);
    crate::window::observations_run_forward(session, now, decay);
    if session_rate(session, now, decay) is Some {
        only_zeros_have_no_size(moved);
        let m = size(moved);
        multiples_are_large(m, 806);
        let one = one_in_units();
        let bound = power_units(128);
        let n = steps.len();
        vstd::arithmetic::power2::lemma2_to64_rest();
        vstd::arithmetic::power2::lemma_pow2_adds(806, 1074);
        vstd::arithmetic::power2::lemma_pow2_adds(53, 1202);
        vstd::arithmetic::power2::lemma_pow2_strictly_increases(1255, 1880);
        vstd::arithmetic::power2::lemma_pow2_pos(1880);
        assert(m * one >= pow2(1880)) by (nonlinear_arith)
            requires
                m >= pow2(806),
                pow2(806) * one == pow2(1880),
        ;
        assert(n * bound <= pow2(1255)) by (nonlinear_arith)
            requires
                n <= pow2(53),
                pow2(53) * bound == pow2(1255),
        ;
    }
}

} // verus!
