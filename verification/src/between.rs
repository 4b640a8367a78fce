//! What is averaged lies between what it is an average of.

use crate::margin::{bounds_add_up, bounds_hold_about, margins_add_up, margins_cancel};
use crate::margin::{margins_scale, margins_widen, rounding_adds_little, rounding_takes_little};
use crate::power::PowerState;
use crate::precision::PARTS;
use crate::quantity::{Quantity, INFINITY_BITS, ONE_BITS};
use vstd::prelude::*;

verus! {

use crate::binary::{
    difference, exact_values_stay, is_finite, is_negative, larger_factors_make_more,
    magnitudes_grow, nearest, nearest_exists, nearest_keeps_order, one_in_units, one_is_one,
    order_is_that_of_values, product, quotient, size, small_wholes_are_exact, sum, value, whole,
    zero_stays_zero,
};
use crate::estimate::{current_rate, estimate_of, points_left, rate_for, trust};
use crate::margin::about_at_most;

/// The smaller of two sizes.
pub open spec fn smaller(a: nat, b: nat) -> nat {
    if a <= b {
        a
    } else {
        b
    }
}

/// The larger of two sizes.
pub open spec fn larger(a: nat, b: nat) -> nat {
    if a <= b {
        b
    } else {
        a
    }
}

/// A share, which is at most one, of a finite quantity: none of it exceeds
/// the quantity, and it is the exact share up to rounding.
proof fn shares_are_close(t: Quantity, a: Quantity)
    requires
        is_finite(t),
        is_finite(a),
        !is_negative(t),
        !is_negative(a),
        size(t) <= one_in_units(),
    ensures
        is_finite(product(t, a)),
        !is_negative(product(t, a)),
        about_at_most((size(product(t, a)) - 1) * one_in_units(), (size(t) * size(a)) as int, 2),
        about_at_most(
            (size(t) * size(a)) as int,
            ((size(product(t, a)) + 1) * one_in_units()) as int,
            1,
        ),
{
    let one = one_in_units();
    one_is_one();
    vstd::arithmetic::power2::lemma_pow2_pos(crate::binary::UNIT_POWER as nat);
    let p = size(t) * size(a);
    let mag = nearest(p, one);
    nearest_exists(p, one);
    exact_values_stay(a.magnitude() as nat, one);
    larger_factors_make_more(size(t), one, size(a));
    assert(one * size(a) == size(a) * one) by (nonlinear_arith);
    nearest_keeps_order(p, size(a) * one, one, mag, a.magnitude() as nat);
    rounding_adds_little(p, one, mag);
    rounding_takes_little(p, one, mag);
}

/// The sum of two quantities that are not negative is their exact sum, up to
/// rounding.
pub(crate) proof fn sums_are_close(a: Quantity, b: Quantity)
    requires
        is_finite(a),
        is_finite(b),
        !is_negative(a),
        !is_negative(b),
    ensures
        sum(a, b).is_number(),
        !is_negative(sum(a, b)),
        about_at_most(size(sum(a, b)) as int, (size(a) + size(b)) as int, 2),
        is_finite(sum(a, b)) ==> about_at_most(
            (size(a) + size(b)) as int,
            size(sum(a, b)) as int,
            1,
        ),
{
    let exact = size(a) + size(b);
    let mag = nearest(exact, 1);
    nearest_exists(exact, 1);
    rounding_adds_little(exact, 1, mag);
    if mag < INFINITY_BITS {
        rounding_takes_little(exact, 1, mag);
    }
    if exact == 0 {
        zero_stays_zero(1);
    }
}

/// A mixture of two quantities, so much of the one and the rest of the other,
/// lies between them, up to rounding.
pub proof fn mixtures_lie_between(t: Quantity, a: Quantity, b: Quantity)
    requires
        is_finite(t),
        is_finite(a),
        is_finite(b),
        !is_negative(t),
        !is_negative(a),
        !is_negative(b),
        t.at_most(Quantity { bits: ONE_BITS }),
    ensures
        ({
            let rest = difference(Quantity { bits: ONE_BITS }, t);
            let mixed = sum(product(t, a), product(rest, b));
            &&& mixed.is_number()
            &&& !is_negative(mixed)
            &&& about_at_most(size(mixed) as int, larger(size(a), size(b)) + 2int, 10)
            &&& about_at_most(smaller(size(a), size(b)) as int, size(mixed) + 2int, 10)
        }),
{
    let one = one_in_units();
    let whole_one = Quantity { bits: ONE_BITS };
    one_is_one();
    vstd::arithmetic::power2::lemma_pow2_pos(crate::binary::UNIT_POWER as nat);
    order_is_that_of_values(t, whole_one);
    let s = size(t);
    // The rest.
    let rest = difference(whole_one, t);
    let left = (one - s) as nat;
    let d = size(rest);
    assert(value(crate::binary::negated(t)) == -s);
    if left == 0 {
        zero_stays_zero(1);
        assert(rest.bits == 0);
        bounds_hold_about(d as int, left as int, 2);
        bounds_hold_about(left as int, d as int, 1);
    } else {
        let mag = nearest(left, 1);
        nearest_exists(left, 1);
        crate::binary::values_stay(ONE_BITS as nat);
        nearest_keeps_order(left, one, 1, mag, ONE_BITS as nat);
        assert(rest.magnitude() == mag);
        if mag < ONE_BITS as nat {
            magnitudes_grow(mag, ONE_BITS as nat);
        }
        rounding_adds_little(left, 1, mag);
        rounding_takes_little(left, 1, mag);
    }
    assert(is_finite(rest) && !is_negative(rest) && d <= one);
    // Both shares.
    shares_are_close(t, a);
    shares_are_close(rest, b);
    let x = product(t, a);
    let y = product(rest, b);
    sums_are_close(x, y);
    let mixed = sum(x, y);
    let sx = size(x) as int;
    let sy = size(y) as int;
    // From above.
    let top = larger(size(a), size(b));
    let o = one as int;
    let h = top as int;
    assert(s * size(a) <= s * top) by (nonlinear_arith)
        requires
            size(a) <= top,
    ;
    assert(d * size(b) <= d * top) by (nonlinear_arith)
        requires
            size(b) <= top,
    ;
    bounds_hold_about((s * size(a)) as int, (s * top) as int, 0);
    margins_add_up((sx - 1) * o, (s * size(a)) as int, (s * top) as int, 2, 0);
    margins_widen((sx - 1) * o, (s * top) as int, 3, 7);
    bounds_hold_about((d * size(b)) as int, (d * top) as int, 0);
    margins_add_up((sy - 1) * o, (d * size(b)) as int, (d * top) as int, 2, 0);
    margins_scale(d as int, left as int, h, 2);
    assert(left * h >= 0) by (nonlinear_arith)
        requires
            h >= 0,
            left >= 0,
    ;
    margins_add_up((sy - 1) * o, d * h, left * h, 3, 2);
    margins_widen((sy - 1) * o, left * h, 6, 7);
    bounds_add_up((sx - 1) * o, s * h, (sy - 1) * o, left * h, 7);
    assert((sx - 1) * o + (sy - 1) * o == (sx + sy - 2) * o) by (nonlinear_arith);
    assert(s * h + left * h == h * o) by (nonlinear_arith)
        requires
            s + left == o,
    ;
    margins_cancel(sx + sy - 2, h, o, 7);
    assert(about_at_most(sx + sy, h + 2, 7)) by (nonlinear_arith)
        requires
            (sx + sy - 2) * PARTS <= h * (PARTS + 7),
            about_at_most(sx + sy, h + 2, 7) == ((sx + sy) * PARTS <= (h + 2) * (PARTS + 7)),
    ;
    margins_add_up(size(mixed) as int, sx + sy, h + 2, 2, 7);
    // From below.
    let low = smaller(size(a), size(b));
    let l = low as int;
    assert(s * low <= s * size(a)) by (nonlinear_arith)
        requires
            low <= size(a),
    ;
    assert(d * low <= d * size(b)) by (nonlinear_arith)
        requires
            low <= size(b),
    ;
    let wx = (sx + 1) * o;
    let wy = (sy + 1) * o;
    assert(wx >= 0 && wy >= 0) by (nonlinear_arith)
        requires
            wx == (sx + 1) * o,
            wy == (sy + 1) * o,
            sx >= 0,
            sy >= 0,
            o >= 0,
    ;
    bounds_hold_about(s * l, (s * size(a)) as int, 0);
    margins_add_up(s * l, (s * size(a)) as int, wx, 0, 1);
    margins_scale(left as int, d as int, l, 1);
    bounds_hold_about(d * l, (d * size(b)) as int, 0);
    assert(d * size(b) >= 0);
    margins_add_up(left * l, d * l, (d * size(b)) as int, 1, 0);
    margins_add_up(left * l, (d * size(b)) as int, wy, 2, 1);
    margins_widen(s * l, wx, 2, 4);
    bounds_add_up(s * l, wx, left * l, wy, 4);
    assert(s * l + left * l == l * o) by (nonlinear_arith)
        requires
            s + left == o,
    ;
    assert(wx + wy == (sx + sy + 2) * o) by (nonlinear_arith)
        requires
            wx == (sx + 1) * o,
            wy == (sy + 1) * o,
    ;
    margins_cancel(l, sx + sy + 2, o, 4);
    if is_finite(mixed) {
        assert(about_at_most(sx + sy + 2, size(mixed) + 2int, 1));
        margins_add_up(l, sx + sy + 2, size(mixed) + 2int, 4, 1);
        margins_widen(l, size(mixed) + 2int, 6, 10);
    } else {
        let larger_one = if size(a) <= size(b) {
            a
        } else {
            b
        };
        magnitudes_grow(larger_one.magnitude() as nat, INFINITY_BITS as nat);
        bounds_hold_about(l, size(mixed) + 2int, 10);
    }
}

/// Today's rate lies between the observed and the instant one, up to
/// rounding, and so does the rate that an estimate shows.
pub proof fn blends_lie_between(
    percent: u8,
    state: PowerState,
    rate: Quantity,
    minutes: u32,
    instant_minutes: u32,
    bands: Seq<Option<Quantity>>,
)
    requires
        state != PowerState::PluggedIn,
        is_finite(rate),
        !is_negative(rate),
        instant_minutes > 0,
    ensures
        ({
            let points = points_left(percent, state);
            let instant = rate_for(points, instant_minutes);
            let observed = Some((rate, minutes));
            let e = estimate_of(percent, state, Some(instant_minutes), observed, bands);
            &&& e.rate_pct_hr is Some
            &&& e.rate_pct_hr == current_rate(points, observed, Some(instant_minutes))
            &&& about_at_most(
                size(e.rate_pct_hr->0) as int,
                larger(size(rate), size(instant)) + 2int,
                10,
            )
            &&& about_at_most(
                smaller(size(rate), size(instant)) as int,
                size(e.rate_pct_hr->0) + 2int,
                10,
            )
        }),
{
    let points = points_left(percent, state);
    let instant = rate_for(points, instant_minutes);
    crate::estimate::instant_rates_are_finite(points, instant_minutes);
    crate::estimate::trust_grows(minutes, minutes);
    small_wholes_are_exact(points);
    small_wholes_are_exact(instant_minutes as nat);
    small_wholes_are_exact(minutes as nat);
    small_wholes_are_exact(60);
    small_wholes_are_exact(20);
    let share = quotient(whole(minutes as nat), whole(20));
    nearest_exists(size(whole(minutes as nat)) * one_in_units(), size(whole(20)));
    assert(!is_negative(share));
    let t = trust(minutes);
    assert(!is_negative(t) && is_finite(t));
    nearest_exists(size(whole(instant_minutes as nat)) * one_in_units(), size(whole(60)));
    let hours = quotient(whole(instant_minutes as nat), whole(60));
    assert(!is_negative(hours));
    if is_finite(hours) && size(hours) > 0 {
        nearest_exists(size(whole(points)) * one_in_units(), size(hours));
    }
    assert(!is_negative(instant));
    mixtures_lie_between(t, rate, instant);
}

} // verus!
