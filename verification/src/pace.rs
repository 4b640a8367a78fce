//! An observed rate lies between its slowest and its fastest step.

use crate::margin::{bounds_add_up, bounds_hold_about, margins_add_up, margins_cancel};
use crate::margin::{margins_scale, margins_widen, one_more_is_little, rounding_adds_little};
use crate::margin::rounding_takes_little;
use crate::precision::PARTS;
use crate::quantity::{Quantity, INFINITY_BITS};
use crate::sample::Sample;
use crate::window::Decay;
use vstd::arithmetic::power2::pow2;
use vstd::prelude::*;

verus! {

use crate::binary::{
    is_finite, is_negative, magnitudes_grow, nearest, nearest_exists, one_in_units, product,
    quotient, size, small_wholes_are_exact, sum, units, value, whole,
};
use crate::margin::about_at_most;
use crate::precision::power_units;
use crate::sample::{elapsed, hours, progressed};
use crate::window::{
    session_rate, step_rate, step_weight, weighted_hours, weighted_moves, window_steps,
};

/// The slowest rate that is told from standing still, two to the power of
/// -900 percent per hour, in multiples of the smallest positive quantity.
pub open spec fn least_rate() -> nat {
    pow2(174)
}

/// Whether a weight is large enough not to vanish: at least two to the power
/// of -64.
pub open spec fn is_ample(weight: Quantity) -> bool {
    &&& is_finite(weight)
    &&& !is_negative(weight)
    &&& size(weight) >= power_units(-64)
}

/// Whether the step that begins at `at` takes time, moves by an amount, and
/// has an ample weight.
spec fn is_step(session: Seq<Sample>, now: u64, decay: Decay, at: int) -> bool {
    &&& is_ample(step_weight(session, now, decay, at))
    &&& is_finite(progressed(session[at], session[at + 1]))
    &&& is_finite(hours(session[at], session[at + 1]))
    &&& !is_negative(hours(session[at], session[at + 1]))
    &&& size(hours(session[at], session[at + 1])) >= power_units(-12)
    &&& is_finite(step_rate(session, at))
}

/// The exact weight of the time that a step took.
spec fn load(session: Seq<Sample>, now: u64, decay: Decay, at: int) -> nat {
    size(step_weight(session, now, decay, at)) * size(hours(session[at], session[at + 1]))
}

/// The exact weight of the time that these steps took.
spec fn total_load(session: Seq<Sample>, now: u64, decay: Decay, steps: Seq<usize>) -> nat
    decreases steps.len(),
{
    if steps.len() == 0 {
        0
    } else {
        total_load(session, now, decay, steps.drop_last()) + load(
            session,
            now,
            decay,
            steps.last() as int,
        )
    }
}

/// What a step that is told from standing still comes to outweighs the
/// smallest quantity by far.
proof fn loads_are_vast(w: nat, h: nat, f: nat)
    requires
        w >= power_units(-64),
        h >= power_units(-12),
    ensures
        one_in_units() > 0,
        one_in_units() * PARTS * 4 <= w * h,
        f >= least_rate() ==> one_in_units() * one_in_units() * PARTS * 4 <= f * (w * h),
{
    let one = one_in_units();
    vstd::arithmetic::power2::lemma2_to64();
    vstd::arithmetic::power2::lemma2_to64_rest();
    let a = power_units(-64);
    let b = power_units(-12);
    assert(a == pow2(1010));
    assert(b == pow2(1062));
    vstd::arithmetic::power2::lemma_pow2_pos(1010);
    vstd::arithmetic::power2::lemma_pow2_pos(1062);
    vstd::arithmetic::power2::lemma_pow2_pos(1074);
    vstd::arithmetic::power2::lemma_pow2_adds(1010, 1062);
    assert(a * b <= w * h) by (nonlinear_arith)
        requires
            a <= w,
            b <= h,
    ;
    let four = pow2(55);
    assert(four == PARTS * 4) by {
        vstd::arithmetic::power2::lemma_pow2_adds(53, 2);
    }
    // One, times four times the parts.
    vstd::arithmetic::power2::lemma_pow2_adds(1074, 55);
    vstd::arithmetic::power2::lemma_pow2_strictly_increases(1129, 2072);
    assert(one * PARTS * 4 == one * four) by (nonlinear_arith)
        requires
            four == PARTS * 4,
    ;
    if f >= least_rate() {
        let t = least_rate();
        vstd::arithmetic::power2::lemma_pow2_adds(174, 2072);
        vstd::arithmetic::power2::lemma_pow2_adds(1074, 1074);
        vstd::arithmetic::power2::lemma_pow2_adds(2148, 55);
        vstd::arithmetic::power2::lemma_pow2_strictly_increases(2203, 2246);
        assert(t * (a * b) <= f * (w * h)) by (nonlinear_arith)
            requires
                t <= f,
                a * b <= w * h,
        ;
        assert(one * one * PARTS * 4 == (one * one) * four) by (nonlinear_arith)
            requires
                four == PARTS * 4,
        ;
    }
}

/// A step that is no faster than `f` moves no more than `f` times its time,
/// up to rounding.
proof fn steps_move_at_most(w: Quantity, p: Quantity, h: Quantity, f: nat)
    requires
        is_ample(w),
        is_finite(p),
        !is_negative(p),
        is_finite(h),
        !is_negative(h),
        size(h) >= power_units(-12),
        is_finite(quotient(p, h)),
        size(quotient(p, h)) <= f,
        f >= least_rate(),
        is_finite(product(w, p)),
    ensures
        about_at_most(
            (size(product(w, p)) * (one_in_units() * one_in_units())) as int,
            (f * (size(w) * size(h))) as int,
            8,
        ),
{
    let one = one_in_units();
    let (sw, sp, sh) = (size(w), size(p), size(h));
    loads_are_vast(sw, sh, f);
    vstd::arithmetic::power2::lemma_pow2_pos((crate::binary::UNIT_POWER - 12) as nat);
    // The rate.
    let mag = nearest(sp * one, sh);
    let u = units(mag);
    nearest_exists(sp * one, sh);
    assert(size(quotient(p, h)) == u);
    rounding_takes_little(sp * one, sh, mag);
    assert(f >= PARTS) by {
        vstd::arithmetic::power2::lemma2_to64_rest();
        vstd::arithmetic::power2::lemma_pow2_strictly_increases(53, 174);
    }
    one_more_is_little(f as int);
    margins_scale(f + 1int, f as int, sh as int, 1);
    assert((u + 1) * sh <= (f + 1) * sh) by (nonlinear_arith)
        requires
            u <= f,
    ;
    assert(f * sh >= 0 && (f + 1) * sh >= 0);
    bounds_hold_about(((u + 1) * sh) as int, (f + 1) * sh as int, 0);
    margins_add_up((sp * one) as int, ((u + 1) * sh) as int, (f + 1) * sh as int, 1, 0);
    margins_add_up((sp * one) as int, (f + 1) * sh as int, f * sh as int, 2, 1);
    margins_scale((sp * one) as int, f * sh as int, sw as int, 4);
    // The weighted movement.
    let x = size(product(w, p)) as int;
    let m = nearest(sw * sp, one);
    nearest_exists(sw * sp, one);
    assert(x == units(m));
    rounding_adds_little(sw * sp, one, m);
    margins_scale((x - 1) * one, (sw * sp) as int, one as int, 2);
    let b = (f * (sw * sh)) as int;
    assert((f * sh) * sw == b) by (nonlinear_arith)
        requires
            b == f * (sw * sh),
    ;
    assert((sw * sp) * one == (sp * one) * sw) by (nonlinear_arith);
    margins_add_up(((x - 1) * one) * one, ((sw * sp) * one) as int, b, 2, 4);
    let o = (one * one) as int;
    assert(((x - 1) * one) * one == (x - 1) * o) by (nonlinear_arith)
        requires
            o == one * one,
    ;
    assert(about_at_most(x * o, b, 8)) by (nonlinear_arith)
        requires
            ((x - 1) * o) * PARTS <= b * (PARTS + 7),
            o * PARTS * 4 <= b,
            o >= 0,
            about_at_most(x * o, b, 8) == ((x * o) * PARTS <= b * (PARTS + 8)),
    ;
}

/// A step that is no slower than `l` moves no less than `l` times its time,
/// up to rounding.
proof fn steps_move_at_least(w: Quantity, p: Quantity, h: Quantity, l: nat)
    requires
        is_ample(w),
        is_finite(p),
        !is_negative(p),
        is_finite(h),
        !is_negative(h),
        size(h) >= power_units(-12),
        is_finite(quotient(p, h)),
        size(quotient(p, h)) >= l,
        l >= least_rate(),
        is_finite(product(w, p)),
    ensures
        about_at_most(
            (l * (size(w) * size(h))) as int,
            (size(product(w, p)) * (one_in_units() * one_in_units())) as int,
            10,
        ),
{
    let one = one_in_units();
    let (sw, sp, sh) = (size(w), size(p), size(h));
    loads_are_vast(sw, sh, l);
    vstd::arithmetic::power2::lemma_pow2_pos((crate::binary::UNIT_POWER - 12) as nat);
    // The rate.
    let mag = nearest(sp * one, sh);
    let u = units(mag);
    nearest_exists(sp * one, sh);
    assert(size(quotient(p, h)) == u);
    rounding_adds_little(sp * one, sh, mag);
    assert(l >= PARTS) by {
        vstd::arithmetic::power2::lemma2_to64_rest();
        vstd::arithmetic::power2::lemma_pow2_strictly_increases(53, 174);
    }
    one_more_is_little(l as int);
    bounds_hold_about(l - 1, u - 1, 0);
    margins_add_up(l as int, l - 1, u - 1, 2, 0);
    margins_scale(l as int, u - 1, sh as int, 3);
    assert(sp * one >= 0);
    margins_add_up(l * sh as int, (u - 1) * sh, (sp * one) as int, 3, 2);
    margins_scale(l * sh as int, (sp * one) as int, sw as int, 6);
    // The weighted movement.
    let x = size(product(w, p)) as int;
    let m = nearest(sw * sp, one);
    nearest_exists(sw * sp, one);
    assert(x == units(m));
    rounding_takes_little(sw * sp, one, m);
    margins_scale((sw * sp) as int, (x + 1) * one, one as int, 1);
    let b = (l * (sw * sh)) as int;
    assert((l * sh) * sw == b) by (nonlinear_arith)
        requires
            b == l * (sw * sh),
    ;
    assert((sw * sp) * one == (sp * one) * sw) by (nonlinear_arith);
    let o = (one * one) as int;
    assert(((x + 1) * one) * one == (x + 1) * o) by (nonlinear_arith)
        requires
            o == one * one,
    ;
    assert((x + 1) * o >= 0) by (nonlinear_arith)
        requires
            x >= 0,
            o >= 0,
    ;
    margins_add_up(b, ((sw * sp) * one) as int, (x + 1) * o, 6, 1);
    assert(o > 0) by (nonlinear_arith)
        requires
            o == one * one,
            one > 0,
    ;
    assert(about_at_most(b, x * o, 10)) by {
        assert(x >= PARTS) by (nonlinear_arith)
            requires
                b * PARTS <= ((x + 1) * o) * (PARTS + 8),
                o * PARTS * 4 <= b,
                o > 0,
                x >= 0,
        {
            assert((o * PARTS * 4) * PARTS <= b * PARTS);
            assert((o * PARTS * 4) * PARTS == o * (PARTS * PARTS * 4));
            assert(((x + 1) * o) * (PARTS + 8) == o * ((x + 1) * (PARTS + 8)));
            assert(PARTS * PARTS * 4 <= (x + 1) * (PARTS + 8));
            if x < PARTS {
                assert((x + 1) * (PARTS + 8) <= PARTS * (PARTS + 8));
            }
        }
        one_more_is_little(x);
        margins_scale(x + 1, x, o, 1);
        assert(x * o >= 0) by (nonlinear_arith)
            requires
                x >= 0,
                o >= 0,
        ;
        margins_add_up(b, (x + 1) * o, x * o, 8, 1);
    }
}

/// The weighted time of a step is its exact weight, up to rounding.
proof fn steps_take_their_time(w: Quantity, h: Quantity)
    requires
        is_ample(w),
        is_finite(h),
        !is_negative(h),
        size(h) >= power_units(-12),
        is_finite(product(w, h)),
    ensures
        about_at_most(
            (size(product(w, h)) * one_in_units()) as int,
            (size(w) * size(h)) as int,
            4,
        ),
        about_at_most(
            (size(w) * size(h)) as int,
            (size(product(w, h)) * one_in_units()) as int,
            4,
        ),
{
    let one = one_in_units();
    let (sw, sh) = (size(w), size(h));
    loads_are_vast(sw, sh, 0);
    let y = size(product(w, h)) as int;
    let b = (sw * sh) as int;
    let m = nearest(sw * sh, one);
    nearest_exists(sw * sh, one);
    assert(y == units(m));
    rounding_adds_little(sw * sh, one, m);
    rounding_takes_little(sw * sh, one, m);
    let o = one as int;
    assert(about_at_most(y * o, b, 4)) by (nonlinear_arith)
        requires
            ((y - 1) * o) * PARTS <= b * (PARTS + 2),
            o * PARTS * 4 <= b,
            o > 0,
            about_at_most(y * o, b, 4) == ((y * o) * PARTS <= b * (PARTS + 4)),
    ;
    assert(y >= PARTS) by (nonlinear_arith)
        requires
            b * PARTS <= ((y + 1) * o) * (PARTS + 1),
            o * PARTS * 4 <= b,
            o > 0,
            y >= 0,
    {
        assert((o * PARTS * 4) * PARTS <= b * PARTS);
        assert((o * PARTS * 4) * PARTS == o * (PARTS * PARTS * 4));
        assert(((y + 1) * o) * (PARTS + 1) == o * ((y + 1) * (PARTS + 1)));
        assert(PARTS * PARTS * 4 <= (y + 1) * (PARTS + 1));
        if y < PARTS {
            assert((y + 1) * (PARTS + 1) <= PARTS * (PARTS + 1));
        }
    }
    one_more_is_little(y);
    margins_scale(y + 1, y, o, 1);
    assert(y * o >= 0) by (nonlinear_arith)
        requires
            y >= 0,
            o >= 0,
    ;
    margins_add_up(b, (y + 1) * o, y * o, 1, 1);
    margins_widen(b, y * o, 3, 4);
}

/// What several steps may be off by, in parts.
spec fn margin(n: nat) -> nat {
    3 * n + 10
}

/// How many steps can be weighed up before what they are off by adds up to
/// more than that.
pub const MOST_STEPS: u64 = 0x100_0000;

proof fn margins_are_small(n: nat, k: nat)
    requires
        n <= MOST_STEPS,
        k <= 2 * (3 * MOST_STEPS + 10),
    ensures
        margin(n) * k <= PARTS,
{
    assert(margin(n) * k <= PARTS) by (nonlinear_arith)
        requires
            margin(n) == 3 * n + 10,
            n <= 0x100_0000,
            k <= 2 * (3 * 0x100_0000 + 10),
            PARTS == 0x20_0000_0000_0000,
    ;
}

/// A smaller bound than `y` is one that `y` keeps.
proof fn bounds_grow(x: int, y: int, z: int, parts: nat)
    requires
        about_at_most(x, y, parts),
        y <= z,
    ensures
        about_at_most(x, z, parts),
{
    assert(y * (PARTS + parts) <= z * (PARTS + parts)) by (nonlinear_arith)
        requires
            y <= z,
            parts >= 0,
    ;
}

/// How far a movement goes forward.
spec fn forward(a: Quantity) -> nat {
    if is_negative(a) {
        0
    } else {
        size(a)
    }
}

/// A sum goes no further forward than both of its terms, up to rounding.
proof fn sums_go_no_further(a: Quantity, b: Quantity)
    requires
        is_finite(a),
        is_finite(b),
        is_finite(sum(a, b)),
    ensures
        about_at_most(forward(sum(a, b)) as int, (forward(a) + forward(b)) as int, 2),
{
    let exact = value(a) + value(b);
    let both = (forward(a) + forward(b)) as int;
    if exact > 0 {
        let mag = nearest(exact as nat, 1);
        nearest_exists(exact as nat, 1);
        rounding_adds_little(exact as nat, 1, mag);
        bounds_grow(units(mag) as int, exact, both, 2);
    } else {
        if exact < 0 {
            nearest_exists((-exact) as nat, 1);
        }
        bounds_hold_about(0, both, 2);
    }
}

/// Steps that are no faster than `f` move no more than `f` times the time
/// that they took, up to rounding.
proof fn moves_stay_below(
    session: Seq<Sample>,
    now: u64,
    decay: Decay,
    steps: Seq<usize>,
    f: nat,
)
    requires
        steps.len() <= MOST_STEPS,
        f >= least_rate(),
        is_finite(weighted_moves(session, now, decay, steps)),
        forall|i: int|
            0 <= i < steps.len() ==> is_step(session, now, decay, #[trigger] steps[i] as int)
                && value(step_rate(session, steps[i] as int)) <= f,
    ensures
        about_at_most(
            (forward(weighted_moves(session, now, decay, steps)) * (one_in_units()
                * one_in_units())) as int,
            (f * total_load(session, now, decay, steps)) as int,
            margin(steps.len()),
        ),
    decreases steps.len(),
{
    let o = (one_in_units() * one_in_units()) as int;
    let all = weighted_moves(session, now, decay, steps);
    if steps.len() == 0 {
        assert(0 * o == 0);
        bounds_hold_about(0, (f * 0) as int, margin(0));
    } else {
        let rest = steps.drop_last();
        let at = steps.last() as int;
        assert(steps[steps.len() - 1] == at);
        let w = step_weight(session, now, decay, at);
        let p = progressed(session[at], session[at + 1]);
        let h = hours(session[at], session[at + 1]);
        let before = weighted_moves(session, now, decay, rest);
        let x = product(w, p);
        assert(all == sum(before, x));
        assert forall|i: int| 0 <= i < rest.len() implies is_step(
            session,
            now,
            decay,
            #[trigger] rest[i] as int,
        ) && value(step_rate(session, rest[i] as int)) <= f by {
            assert(rest[i] == steps[i]);
        }
        moves_stay_below(session, now, decay, rest, f);
        let g = total_load(session, now, decay, rest);
        let more = load(session, now, decay, at);
        let c = margin(rest.len());
        assert(f * more >= 0 && f * g >= 0);
        if !is_negative(p) {
            assert(is_finite(quotient(p, h)));
            vstd::arithmetic::power2::lemma_pow2_pos((crate::binary::UNIT_POWER - 12) as nat);
            nearest_exists(size(p) * one_in_units(), size(h));
            assert(!is_negative(quotient(p, h)));
            steps_move_at_most(w, p, h, f);
            margins_widen(forward(x) * o, (f * more) as int, 8, c);
        } else {
            vstd::arithmetic::power2::lemma_pow2_pos(crate::binary::UNIT_POWER as nat);
            nearest_exists(size(w) * size(p), one_in_units());
            assert(is_negative(x));
            assert(0 * o == 0);
            bounds_hold_about(forward(x) * o, (f * more) as int, c);
        }
        let a = forward(before) as int;
        let b = forward(x) as int;
        bounds_add_up(a * o, (f * g) as int, b * o, (f * more) as int, c);
        assert(a * o + b * o == (a + b) * o) by (nonlinear_arith);
        assert(f * g + f * more == f * (g + more)) by (nonlinear_arith);
        sums_go_no_further(before, x);
        assert(o >= 0) by (nonlinear_arith)
            requires
                o == one_in_units() * one_in_units(),
        ;
        margins_scale(forward(all) as int, a + b, o, 2);
        margins_are_small(rest.len(), 2);
        assert(2 * c <= PARTS) by (nonlinear_arith)
            requires
                c * 2 <= PARTS,
        ;
        margins_add_up(forward(all) * o, (a + b) * o, (f * (g + more)) as int, 2, c);
    }
}

/// Steps that are no slower than `l` move no less than `l` times the time
/// that they took, up to rounding.
proof fn moves_stay_above(
    session: Seq<Sample>,
    now: u64,
    decay: Decay,
    steps: Seq<usize>,
    l: nat,
)
    requires
        steps.len() <= MOST_STEPS,
        l >= least_rate(),
        is_finite(weighted_moves(session, now, decay, steps)),
        forall|i: int|
            0 <= i < steps.len() ==> is_step(session, now, decay, #[trigger] steps[i] as int)
                && value(step_rate(session, steps[i] as int)) >= l,
    ensures
        !is_negative(weighted_moves(session, now, decay, steps)),
        about_at_most(
            (l * total_load(session, now, decay, steps)) as int,
            (size(weighted_moves(session, now, decay, steps)) * (one_in_units()
                * one_in_units())) as int,
            margin(steps.len()),
        ),
    decreases steps.len(),
{
    let o = (one_in_units() * one_in_units()) as int;
    let all = weighted_moves(session, now, decay, steps);
    assert(o >= 0) by (nonlinear_arith)
        requires
            o == one_in_units() * one_in_units(),
    ;
    if steps.len() == 0 {
        assert(0 * o == 0);
        bounds_hold_about((l * 0) as int, 0, margin(0));
    } else {
        let rest = steps.drop_last();
        let at = steps.last() as int;
        assert(steps[steps.len() - 1] == at);
        let w = step_weight(session, now, decay, at);
        let p = progressed(session[at], session[at + 1]);
        let h = hours(session[at], session[at + 1]);
        let before = weighted_moves(session, now, decay, rest);
        let x = product(w, p);
        assert(all == sum(before, x));
        assert forall|i: int| 0 <= i < rest.len() implies is_step(
            session,
            now,
            decay,
            #[trigger] rest[i] as int,
        ) && value(step_rate(session, rest[i] as int)) >= l by {
            assert(rest[i] == steps[i]);
        }
        moves_stay_above(session, now, decay, rest, l);
        let g = total_load(session, now, decay, rest);
        let more = load(session, now, decay, at);
        let c = margin(rest.len());
        assert(value(step_rate(session, at)) >= l);
        vstd::arithmetic::power2::lemma_pow2_pos((crate::binary::UNIT_POWER - 12) as nat);
        vstd::arithmetic::power2::lemma_pow2_pos(174);
        nearest_exists(size(p) * one_in_units(), size(h));
        assert(!is_negative(p));
        steps_move_at_least(w, p, h, l);
        vstd::arithmetic::power2::lemma_pow2_pos(crate::binary::UNIT_POWER as nat);
        nearest_exists(size(w) * size(p), one_in_units());
        assert(!is_negative(x));
        let a = size(before) as int;
        let b = size(x) as int;
        assert(a * o >= 0 && b * o >= 0) by (nonlinear_arith)
            requires
                a >= 0,
                b >= 0,
                o >= 0,
        ;
        margins_widen((l * more) as int, b * o, 10, c);
        bounds_add_up((l * g) as int, a * o, (l * more) as int, b * o, c);
        assert(a * o + b * o == (a + b) * o) by (nonlinear_arith);
        assert(l * g + l * more == l * (g + more)) by (nonlinear_arith);
        crate::between::sums_are_close(before, x);
        let s = size(all) as int;
        margins_scale(a + b, s, o, 1);
        margins_are_small(rest.len(), 1);
        assert(s * o >= 0) by (nonlinear_arith)
            requires
                s >= 0,
                o >= 0,
        ;
        margins_add_up((l * (g + more)) as int, (a + b) * o, s * o, c, 1);
        margins_widen((l * (g + more)) as int, s * o, c + 2, margin(steps.len()));
    }
}

/// The weighted time of several steps is its exact weight, up to rounding.
proof fn times_are_close(session: Seq<Sample>, now: u64, decay: Decay, steps: Seq<usize>)
    requires
        steps.len() <= MOST_STEPS,
        is_finite(weighted_hours(session, now, decay, steps)),
        forall|i: int|
            0 <= i < steps.len() ==> is_step(session, now, decay, #[trigger] steps[i] as int),
    ensures
        !is_negative(weighted_hours(session, now, decay, steps)),
        about_at_most(
            (size(weighted_hours(session, now, decay, steps)) * one_in_units()) as int,
            total_load(session, now, decay, steps) as int,
            margin(steps.len()),
        ),
        about_at_most(
            total_load(session, now, decay, steps) as int,
            (size(weighted_hours(session, now, decay, steps)) * one_in_units()) as int,
            margin(steps.len()),
        ),
    decreases steps.len(),
{
    let o = one_in_units() as int;
    let all = weighted_hours(session, now, decay, steps);
    if steps.len() == 0 {
        assert(0 * o == 0);
        bounds_hold_about(0, 0, margin(0));
    } else {
        let rest = steps.drop_last();
        let at = steps.last() as int;
        assert(steps[steps.len() - 1] == at);
        let w = step_weight(session, now, decay, at);
        let h = hours(session[at], session[at + 1]);
        let before = weighted_hours(session, now, decay, rest);
        let y = product(w, h);
        assert(all == sum(before, y));
        assert forall|i: int| 0 <= i < rest.len() implies is_step(
            session,
            now,
            decay,
            #[trigger] rest[i] as int,
        ) by {
            assert(rest[i] == steps[i]);
        }
        times_are_close(session, now, decay, rest);
        let g = total_load(session, now, decay, rest) as int;
        let more = load(session, now, decay, at) as int;
        let c = margin(rest.len());
        vstd::arithmetic::power2::lemma_pow2_pos(crate::binary::UNIT_POWER as nat);
        nearest_exists(size(w) * size(h), one_in_units());
        assert(!is_negative(y));
        steps_take_their_time(w, h);
        let a = size(before) as int;
        let b = size(y) as int;
        let s = size(all) as int;
        assert(a * o >= 0 && b * o >= 0 && s * o >= 0) by (nonlinear_arith)
            requires
                a >= 0,
                b >= 0,
                s >= 0,
                o >= 0,
        ;
        assert(a * o + b * o == (a + b) * o) by (nonlinear_arith);
        crate::between::sums_are_close(before, y);
        margins_are_small(rest.len(), 2);
        margins_are_small(rest.len(), 1);
        margins_widen(b * o, more, 4, c);
        margins_widen(more, b * o, 4, c);
        bounds_add_up(a * o, g, b * o, more, c);
        bounds_add_up(g, a * o, more, b * o, c);
        margins_scale(s, a + b, o, 2);
        margins_scale(a + b, s, o, 1);
        assert(2 * c <= PARTS) by (nonlinear_arith)
            requires
                c * 2 <= PARTS,
        ;
        margins_add_up(s * o, (a + b) * o, g + more, 2, c);
        margins_add_up(g + more, (a + b) * o, s * o, c, 1);
        margins_widen(g + more, s * o, c + 2, margin(steps.len()));
    }
}

/// The time between two samples is finite, and none or at least a second.
pub(crate) proof fn hours_are_seconds(a: Sample, b: Sample)
    ensures
        is_finite(hours(a, b)),
        !is_negative(hours(a, b)),
        size(hours(a, b)) <= power_units(64),
        size(hours(a, b)) > 0 ==> size(hours(a, b)) >= power_units(-12),
{
    let one = one_in_units();
    let n = elapsed(a.t, b.t);
    vstd::arithmetic::power2::lemma2_to64();
    vstd::arithmetic::power2::lemma2_to64_rest();
    small_wholes_are_exact(3600);
    let q = 3600 * one;
    assert(power_units(0) == one);
    if n == 0 {
        crate::binary::nothing_is_zero();
        crate::binary::parts_of_nothing_are_nothing(whole(3600));
    } else {
        crate::precision::scaled_powers(0, 64);
        crate::precision::scaled_powers(-12, 12);
        let vast = power_units(64);
        assert(vast == pow2(64) * one);
        assert(power_units(0) * 1 <= n * one <= vast * 1) by (nonlinear_arith)
            requires
                power_units(0) == one,
                vast == 0x1_0000_0000_0000_0000 * one,
                1 <= n <= 0x1_0000_0000_0000_0000,
        ;
        let m = crate::precision::nearest_between(n * one, 1, 0, 64);
        let u = units(m);
        assert(size(whole(n)) == u);
        let low = power_units(-12);
        assert(one == 4096 * low);
        assert(low * q <= u * one) by (nonlinear_arith)
            requires
                q == 3600 * one,
                one == 4096 * low,
                u >= one,
        {
            assert(low * (3600 * one) == 3600 * (low * one));
            assert(u * one >= one * one);
            assert(one * one == 4096 * (low * one));
        }
        assert(u * one <= vast * q) by (nonlinear_arith)
            requires
                q == 3600 * one,
                u <= vast,
        {
            assert(u * one <= vast * one);
            assert(vast * (3600 * one) == 3600 * (vast * one));
        }
        let r = crate::precision::nearest_between(u * one, q, -12, 64);
    }
}

/// An observed rate lies between the slowest and the fastest of the steps
/// that it is read from, up to rounding, whatever the weights are. Steps of
/// less than [`least_rate`] count as standing still.
pub proof fn rates_lie_between_the_steps(
    session: Seq<Sample>,
    now: u64,
    decay: Decay,
    slow: Quantity,
    fast: Quantity,
)
    requires
        is_finite(slow),
        is_finite(fast),
        window_steps(session, now).len() <= MOST_STEPS,
        forall|i: int|
            #![trigger window_steps(session, now)[i]]
            0 <= i < window_steps(session, now).len() ==> {
                let at = window_steps(session, now)[i] as int;
                &&& slow.at_most(step_rate(session, at))
                &&& step_rate(session, at).at_most(fast)
                &&& is_ample(step_weight(session, now, decay, at))
            },
        is_finite(weighted_moves(session, now, decay, window_steps(session, now))),
        is_finite(weighted_hours(session, now, decay, window_steps(session, now))),
    ensures
        session_rate(session, now, decay) matches Some((rate, _)) ==> {
            let parts = 8 * (window_steps(session, now).len() + 4);
            &&& rate.is_number()
            &&& !is_negative(rate)
            &&& about_at_most(
                size(rate) as int,
                if value(fast) < least_rate() {
                    least_rate() as int
                } else {
                    value(fast)
                },
                parts,
            )
            &&& value(slow) >= least_rate() ==> about_at_most(
                value(slow),
                size(rate) as int,
                parts,
            )
        },
{
    let steps = window_steps(session, now);
    let n = steps.len();
    let zero = Quantity { bits: 0 };
    let moved = weighted_moves(session, now, decay, steps);
    let time = weighted_hours(session, now, decay, steps);
    let f = if value(fast) < least_rate() {
        least_rate()
    } else {
        value(fast) as nat
    };
    assert forall|i: int| 0 <= i < steps.len() implies is_step(
        session,
        now,
        decay,
        #[trigger] steps[i] as int,
    ) && value(slow) <= value(step_rate(session, steps[i] as int)) <= value(fast) by {
        let at = window_steps(session, now)[i] as int;
        let p = progressed(session[at], session[at + 1]);
        let h = hours(session[at], session[at + 1]);
        hours_are_seconds(session[at], session[at + 1]);
        assert(is_finite(step_rate(session, at)));
        crate::binary::order_is_that_of_values(slow, step_rate(session, at));
        crate::binary::order_is_that_of_values(step_rate(session, at), fast);
    }
    if session_rate(session, now, decay) is Some {
        let one = one_in_units();
        vstd::arithmetic::power2::lemma_pow2_pos(crate::binary::UNIT_POWER as nat);
        times_are_close(session, now, decay, steps);
        moves_stay_below(session, now, decay, steps, f);
        crate::binary::only_zeros_have_no_size(time);
        crate::binary::only_zeros_have_no_size(moved);
        let rate = quotient(moved, time);
        let m = size(moved);
        let y = size(time);
        let g = total_load(session, now, decay, steps);
        let c = margin(n);
        let mag = nearest(m * one, y);
        nearest_exists(m * one, y);
        assert(rate == crate::binary::with_sign(false, mag));
        let u = units(mag) as int;
        margins_are_small(n, c);
        margins_are_small(n, 1);
        assert(2 * c + 1 <= 2 * (3 * MOST_STEPS + 10) + 1);
        let o = one as int;
        // From above.
        margins_scale(g as int, (y * one) as int, f as int, c);
        assert(g * f == f * g) by (nonlinear_arith);
        let fy = (y * one) * f;
        assert(fy == (f * y) * one) by (nonlinear_arith)
            requires
                fy == (y * one) * f,
        ;
        assert(m * (one * one) == (m * one) * one) by (nonlinear_arith);
        margins_add_up((m * (one * one)) as int, (f * g) as int, fy as int, c, c);
        margins_cancel((m * one) as int, (f * y) as int, o, 2 * c + 1);
        rounding_adds_little(m * one, y, mag);
        assert(2 * (2 * c + 1) <= PARTS);
        margins_add_up((u - 1) * y, (m * one) as int, (f * y) as int, 2, 2 * c + 1);
        margins_cancel(u - 1, f as int, y as int, 2 * c + 4);
        assert(f >= PARTS) by {
            vstd::arithmetic::power2::lemma2_to64_rest();
            vstd::arithmetic::power2::lemma_pow2_strictly_increases(53, 174);
        }
        assert(about_at_most(u, f as int, 2 * c + 6)) by (nonlinear_arith)
            requires
                (u - 1) * PARTS <= f * (PARTS + (2 * c + 4)),
                f >= PARTS,
                about_at_most(u, f as int, 2 * c + 6) == (u * PARTS <= f * (PARTS + (2 * c + 6))),
        ;
        let parts = 8 * (n + 4);
        margins_widen(u, f as int, 2 * c + 6, parts);
        // From below.
        if value(slow) >= least_rate() {
            let l = value(slow) as nat;
            moves_stay_above(session, now, decay, steps, l);
            if mag < INFINITY_BITS {
                margins_scale((y * one) as int, g as int, l as int, c);
                assert(g * l == l * g) by (nonlinear_arith);
                let ly = (y * one) * l;
                assert(ly == (l * y) * one) by (nonlinear_arith)
                    requires
                        ly == (y * one) * l,
                ;
                margins_add_up(ly as int, (l * g) as int, (m * (one * one)) as int, c, c);
                margins_cancel((l * y) as int, (m * one) as int, o, 2 * c + 1);
                rounding_takes_little(m * one, y, mag);
                assert((u + 1) * y >= 0) by (nonlinear_arith)
                    requires
                        u >= 0,
                        y >= 0,
                ;
                margins_add_up((l * y) as int, (m * one) as int, (u + 1) * y, 2 * c + 1, 1);
                margins_cancel(l as int, u + 1, y as int, 2 * c + 3);
                assert(l >= 4 * PARTS) by {
                    vstd::arithmetic::power2::lemma2_to64_rest();
                    vstd::arithmetic::power2::lemma_pow2_strictly_increases(55, 174);
                    vstd::arithmetic::power2::lemma_pow2_adds(53, 2);
                }
                assert(u >= PARTS) by (nonlinear_arith)
                    requires
                        l * PARTS <= (u + 1) * (PARTS + (2 * c + 3)),
                        l >= 4 * PARTS,
                        2 * c + 3 <= PARTS,
                        u >= 0,
                {
                    assert((4 * PARTS) * PARTS <= l * PARTS);
                    assert((u + 1) * (PARTS + (2 * c + 3)) <= (u + 1) * (2 * PARTS));
                    assert((4 * PARTS) * PARTS <= (u + 1) * (2 * PARTS));
                }
                one_more_is_little(u);
                margins_add_up(l as int, u + 1, u, 2 * c + 3, 1);
                margins_widen(l as int, u, 2 * c + 5, parts);
            } else {
                magnitudes_grow(slow.magnitude() as nat, mag);
                bounds_hold_about(l as int, u, parts);
            }
        }
    }
}

} // verus!
