//! Where things land on a chart, in whole numbers.

use crate::chart::{
    Plot, Rgb, Series, Tint, MARGIN_BOTTOM, MARGIN_LEFT, MARGIN_RIGHT, MARGIN_TOP, QUARTER_BITS,
    TWO_DAYS_BITS,
};
use crate::exact::{
    differences_at, orders_at, patterns_are_at, products_at, quotients_at, sizes_at, sums_at,
    signed_wholes_are_at, wholes_are_at,
};
use crate::folds::{abouts_are_off_by_little, sums_are_off_by_little};
use crate::measures::{abouts_add_up, abouts_cancel, abouts_scale};
use crate::measures::{products_measure, quotients_measure, wholes_measure};
use crate::power::PowerState;
use crate::precision::PARTS;
use crate::quantity::{Quantity, EIGHT_BITS, EIGHT_HOURS_BITS, FORTY_BITS, ONE_BITS};
use crate::sample::Sample;
use crate::scoring::Checkpoint;
use vstd::prelude::*;

verus! {

use crate::binary::{
    difference, is_finite, is_negative, one_in_units, product, quotient, size,
    small_wholes_are_exact, sum, value, whole,
};
use crate::chart::{
    are_marks, axis_end, between_margins, charge_span_of, cuts_few, in_window, mark,
    projection_end, recent_points, window_start, windowed,
};
use crate::exact::{is_at, is_small};
use crate::folds::{extent, is_off_by};
use crate::measures::{about, spans};
use crate::precision::power_units;

/// The greater of two whole numbers.
pub open spec fn most(a: int, b: int) -> int {
    if a < b {
        b
    } else {
        a
    }
}

pub(crate) proof fn ones_are_at()
    ensures
        is_at(Quantity { bits: ONE_BITS }, 1),
{
    vstd::arithmetic::power2::lemma2_to64();
    patterns_are_at(ONE_BITS, 0x10_0000_0000_0000, 0, 1);
}

/// The thresholds of the charts: a day is written out from two days on, the
/// drain chart is ruled in tens above forty percent an hour, the runtime
/// chart in two hours above eight, and a time axis has at most eight steps.
pub proof fn thresholds_are_round()
    ensures
        is_at(Quantity { bits: TWO_DAYS_BITS }, 172_800),
        is_at(Quantity { bits: FORTY_BITS }, 40),
        is_at(Quantity { bits: EIGHT_HOURS_BITS }, 480),
        is_at(Quantity { bits: EIGHT_BITS }, 8),
{
    vstd::arithmetic::power2::lemma2_to64();
    patterns_are_at(TWO_DAYS_BITS, 0x15_1800_0000_0000, 17, 172800);
    patterns_are_at(FORTY_BITS, 0x14_0000_0000_0000, 5, 40);
    patterns_are_at(EIGHT_HOURS_BITS, 0x1E_0000_0000_0000, 8, 480);
    patterns_are_at(EIGHT_BITS, 0x10_0000_0000_0000, 3, 8);
}

/// A plot takes what its canvas has between the margins, 44 and 14 pixels at
/// the sides, 12 above and 24 below, and never less than one.
pub proof fn plots_lie_between_the_margins(width: i32, height: i32)
    ensures
        is_at(between_margins(width, MARGIN_LEFT, MARGIN_RIGHT), most(width - 58, 1)),
        is_at(between_margins(height, MARGIN_TOP, MARGIN_BOTTOM), most(height - 36, 1)),
        MARGIN_LEFT == 44,
        MARGIN_TOP == 12,
{
    margins_come_off(width, 44, 14);
    margins_come_off(height, 12, 24);
}

proof fn margins_come_off(length: i32, before: u64, after: u64)
    requires
        before < 100,
        after < 100,
    ensures
        is_at(between_margins(length, before, after), most(length - before - after, 1)),
{
    let n = length as int;
    signed_wholes_are_at(n);
    wholes_are_at(before as nat);
    wholes_are_at(after as nat);
    ones_are_at();
    let a = crate::binary::signed_whole(n);
    let b = difference(a, whole(before as nat));
    differences_at(a, whole(before as nat), n, before as int);
    differences_at(b, whole(after as nat), n - before, after as int);
    let c = difference(b, whole(after as nat));
    orders_at(c, Quantity { bits: ONE_BITS }, n - before - after, 1);
}

/// An axis ends where it is told to, but at least one after its start.
pub proof fn axes_have_a_length(from: Quantity, to: Quantity, a: int, b: int)
    requires
        is_at(from, a),
        is_at(to, b),
        is_small(a + 1),
    ensures
        is_at(axis_end(from, to), most(b, a + 1)),
{
    ones_are_at();
    let one = Quantity { bits: ONE_BITS };
    sums_at(from, one, a, 1);
    orders_at(to, sum(from, one), b, a + 1);
}

pub(crate) proof fn wholes_span(q: Quantity, n: int)
    requires
        is_at(q, n),
        n > 0,
        is_small(n),
    ensures
        spans(q, 53),
{
    wholes_measure(n as nat);
    small_wholes_are_exact(n as nat);
    sizes_at(q, n);
}

/// A share of a length: so many parts of `of` of it.
proof fn shares_measure(part: Quantity, of: Quantity, length: Quantity, m: int, n: int, w: int)
    requires
        is_at(part, m),
        is_at(of, n),
        is_at(length, w),
        0 <= m <= n,
        0 < n,
        0 < w,
        is_small(n),
        is_small(w),
    ensures
        ({
            let p = product(quotient(part, of), length);
            &&& is_finite(p)
            &&& value(p) >= 0
            &&& m == 0 ==> value(p) == 0
            &&& is_off_by(value(p) * n, (m * w) * one_in_units(), (m * w) * one_in_units(), 6)
        }),
{
    let one = one_in_units() as int;
    small_wholes_are_exact(1);
    let q = quotient(part, of);
    let p = product(q, length);
    if m == 0 {
        assert(0 * n == 0 && 0 * w == 0 && 0 * one == 0);
        quotients_at(part, of, 0, n);
        products_at(q, length, 0, w);
    } else {
        wholes_span(part, m);
        wholes_span(of, n);
        wholes_span(length, w);
        sizes_at(part, m);
        sizes_at(of, n);
        sizes_at(length, w);
        quotients_measure(part, of, 53, 53);
        products_measure(q, length, 106, 53);
        let (x, y) = (size(q) as int, size(p) as int);
        // x * n is about m, and y about x * w.
        assert(x * (n * one) == (x * n) * one) by (nonlinear_arith);
        abouts_cancel(x * n, m * one, one, 2);
        assert(x * (w * one) == (x * w) * one) by (nonlinear_arith);
        abouts_cancel(y, x * w, one, 2);
        abouts_scale(y, x * w, n, 2);
        abouts_scale(x * n, m * one, w, 2);
        assert((x * w) * n == (x * n) * w) by (nonlinear_arith);
        assert((m * one) * w == (m * w) * one) by (nonlinear_arith);
        assert(y * n >= 0 && (m * w) * one >= 0 && (x * w) * n >= 0) by (nonlinear_arith)
            requires
                y >= 0,
                n >= 0,
                m >= 0,
                w >= 0,
                one >= 0,
                x >= 0,
        ;
        abouts_add_up(y * n, (x * w) * n, (m * w) * one, 2, 2);
        abouts_are_off_by_little(y * n, (m * w) * one, 5);
        assert(!is_negative(p));
    }
}

/// A moment lands as far across the plot as it lies along the time axis.
pub proof fn moments_land_in_proportion(
    plot: Plot,
    t: Quantity,
    left: int,
    width: int,
    from: int,
    to: int,
    at: int,
)
    requires
        is_at(plot.x0, left),
        is_at(plot.width, width),
        is_at(plot.t_min, from),
        is_at(plot.t_max, to),
        is_at(t, at),
        0 <= left,
        0 < width,
        from <= at <= to,
        from < to,
        is_small(to - from),
        is_small(left),
        is_small(width),
    ensures
        ({
            let all = (left * (to - from) + (at - from) * width) * one_in_units();
            &&& is_finite(plot.across(t))
            &&& is_off_by(value(plot.across(t)) * (to - from), all, all, 12)
            &&& at == from ==> is_at(plot.across(t), left)
        }),
{
    let one = one_in_units() as int;
    small_wholes_are_exact(1);
    let part = difference(t, plot.t_min);
    let of = difference(plot.t_max, plot.t_min);
    let n = to - from;
    let m = at - from;
    differences_at(t, plot.t_min, at, from);
    differences_at(plot.t_max, plot.t_min, to, from);
    shares_measure(part, of, plot.width, m, n, width);
    let p = product(quotient(part, of), plot.width);
    let (x, y) = (left * one, value(p));
    let share = (m * width) * one;
    assert(share >= 0 && x >= 0) by (nonlinear_arith)
        requires
            share == (m * width) * one,
            x == left * one,
            m >= 0,
            width >= 0,
            left >= 0,
            one >= 0,
    ;
    shares_fit(y, m, n, width, one);
    sizes_at(plot.width, width);
    sizes_at(plot.x0, left);
    landings_are_small(left, width, x, y);
    sums_are_off_by_little(plot.x0, p, 60);
    let s = value(plot.across(t));
    landings_add_up(s, x, y, n, share);
    let all = (left * n + m * width) * one;
    assert(x * n + share == all) by (nonlinear_arith)
        requires
            x == left * one,
            share == (m * width) * one,
            all == (left * n + m * width) * one,
    ;
    if at == from {
        assert(0 * one == 0);
        sums_at(plot.x0, p, left, 0);
    }
}

/// A share is no more than the whole, but for rounding.
proof fn shares_fit(y: int, m: int, n: int, w: int, one: int)
    requires
        is_off_by(y * n, (m * w) * one, (m * w) * one, 6),
        0 <= m <= n,
        0 < n,
        0 < w,
        0 < one,
        y >= 0,
    ensures
        y <= 2 * w * one,
{
    let e = PARTS as int;
    let share = (m * w) * one;
    assert(share <= (w * one) * n && share >= 0) by (nonlinear_arith)
        requires
            share == (m * w) * one,
            0 <= m <= n,
            w > 0,
            one > 0,
    ;
    assert(y * n <= 2 * share) by (nonlinear_arith)
        requires
            (y * n - share) * e <= share * 6,
            share >= 0,
            e == 0x20_0000_0000_0000,
    ;
    if y > 2 * w * one {
        assert(y * n > (2 * w * one) * n) by (nonlinear_arith)
            requires
                y > 2 * w * one,
                n > 0,
        ;
        assert((2 * w * one) * n == 2 * ((w * one) * n)) by (nonlinear_arith);
    }
}

proof fn landings_are_small(left: int, w: int, x: int, y: int)
    requires
        0 <= left < 0x20_0000_0000_0000,
        0 <= w < 0x20_0000_0000_0000,
        x == left * one_in_units(),
        0 <= y <= 2 * w * one_in_units(),
    ensures
        0 <= x + y <= power_units(60),
{
    let one = one_in_units() as int;
    small_wholes_are_exact(1);
    vstd::arithmetic::power2::lemma2_to64_rest();
    crate::precision::scaled_powers(0, 60);
    assert(power_units(0) == one);
    assert(x + y <= 0x1000_0000_0000_0000 * one && x >= 0) by (nonlinear_arith)
        requires
            0 <= left < 0x20_0000_0000_0000,
            0 <= w < 0x20_0000_0000_0000,
            x == left * one,
            y <= 2 * w * one,
            one > 0,
    ;
}

/// A landing, rounded once more, is off by a few parts.
proof fn landings_add_up(s: int, x: int, y: int, n: int, share: int)
    requires
        is_off_by(s, x + y, extent(x + y), 2),
        is_off_by(y * n, share, share, 6),
        x >= 0,
        y >= 0,
        n > 0,
        share >= 0,
    ensures
        is_off_by(s * n, x * n + share, x * n + share, 12),
{
    let e = PARTS as int;
    let z = x + y;
    let (a, b) = (s - z, y * n - share);
    let all = x * n + share;
    assert(s * n - all == a * n + b) by (nonlinear_arith)
        requires
            a == s - z,
            z == x + y,
            b == y * n - share,
            all == x * n + share,
    ;
    assert(x * n >= 0) by (nonlinear_arith)
        requires
            x >= 0,
            n > 0,
    ;
    assert(b <= share) by (nonlinear_arith)
        requires
            b * e <= share * 6,
            share >= 0,
            e == 0x20_0000_0000_0000,
    ;
    assert(z * n <= 2 * all) by (nonlinear_arith)
        requires
            z == x + y,
            b == y * n - share,
            b <= share,
            all == x * n + share,
            x * n >= 0,
    ;
    assert((a * n) * e <= (z * n) * 2 && -((a * n) * e) <= (z * n) * 2) by (nonlinear_arith)
        requires
            a * e <= z * 2,
            (-a) * e <= z * 2,
            n > 0,
    ;
    assert((s * n - all) * e == (a * n) * e + b * e) by (nonlinear_arith)
        requires
            s * n - all == a * n + b,
    ;
    assert((-b) * e == -(b * e)) by (nonlinear_arith);
    assert((all - s * n) * e == -((s * n - all) * e)) by (nonlinear_arith);
    assert(share * 6 <= all * 6);
}

/// A value lands as far up from the lower edge as it lies along its axis.
pub proof fn values_land_in_proportion(
    plot: Plot,
    v: Quantity,
    top: int,
    height: int,
    from: int,
    to: int,
    at: int,
)
    requires
        is_at(plot.y0, top),
        is_at(plot.height, height),
        is_at(plot.v_min, from),
        is_at(plot.v_max, to),
        is_at(v, at),
        0 <= top,
        0 < height,
        from <= at <= to,
        from < to,
        is_small(to - from),
        is_small(top + height),
    ensures
        ({
            let n = to - from;
            let all = ((top + height) * n - (at - from) * height) * one_in_units();
            let edge = ((top + height) * n) * one_in_units();
            &&& is_finite(plot.down(v))
            &&& is_off_by(value(plot.down(v)) * n, all, edge, 12)
            &&& at == from ==> is_at(plot.down(v), top + height)
        }),
{
    let one = one_in_units() as int;
    small_wholes_are_exact(1);
    let part = difference(v, plot.v_min);
    let of = difference(plot.v_max, plot.v_min);
    let n = to - from;
    let m = at - from;
    differences_at(v, plot.v_min, at, from);
    differences_at(plot.v_max, plot.v_min, to, from);
    sums_at(plot.y0, plot.height, top, height);
    let bottom = sum(plot.y0, plot.height);
    shares_measure(part, of, plot.height, m, n, height);
    let p = product(quotient(part, of), plot.height);
    let (x, y) = ((top + height) * one, value(p));
    let share = (m * height) * one;
    shares_fit(y, m, n, height, one);
    assert(is_finite(crate::binary::negated(p)) && value(crate::binary::negated(p)) == -y);
    rises_are_small(top + height, height, x, y);
    sums_are_off_by_little(bottom, crate::binary::negated(p), 60);
    let s = value(plot.down(v));
    rises_take_off(s, x, y, n, share, top + height, m, height, one);
    let all = ((top + height) * n - m * height) * one;
    let edge = ((top + height) * n) * one;
    assert(x * n - share == all && x * n == edge) by (nonlinear_arith)
        requires
            x == (top + height) * one,
            share == (m * height) * one,
            all == ((top + height) * n - m * height) * one,
            edge == ((top + height) * n) * one,
    ;
    if at == from {
        assert(0 * one == 0);
        assert(is_at(p, 0));
        differences_at(bottom, p, top + height, 0);
    }
}

proof fn rises_are_small(edge: int, w: int, x: int, y: int)
    requires
        0 <= edge < 0x20_0000_0000_0000,
        0 <= w < 0x20_0000_0000_0000,
        x == edge * one_in_units(),
        0 <= y <= 2 * w * one_in_units(),
    ensures
        extent(x - y) <= power_units(60),
        x >= 0,
{
    landings_are_small(edge, w, x, y);
    assert(x >= 0) by (nonlinear_arith)
        requires
            x == edge * one_in_units(),
            edge >= 0,
    ;
}

proof fn rises_take_off(
    s: int,
    x: int,
    y: int,
    n: int,
    share: int,
    edge: int,
    m: int,
    w: int,
    one: int,
)
    requires
        is_off_by(s, x - y, extent(x - y), 2),
        is_off_by(y * n, share, share, 6),
        x == edge * one,
        share == (m * w) * one,
        0 <= w <= edge,
        0 <= m <= n,
        n > 0,
        one > 0,
        y >= 0,
    ensures
        is_off_by(s * n, x * n - share, x * n, 12),
{
    let e = PARTS as int;
    let z = x - y;
    let (a, b) = (s - z, share - y * n);
    let all = x * n - share;
    assert(x * n >= share && share >= 0) by (nonlinear_arith)
        requires
            x == edge * one,
            share == (m * w) * one,
            0 <= w <= edge,
            0 <= m <= n,
            one > 0,
    ;
    assert(s * n - all == a * n + b) by (nonlinear_arith)
        requires
            a == s - z,
            z == x - y,
            b == share - y * n,
            all == x * n - share,
    ;
    assert((-b) * e == -(b * e)) by (nonlinear_arith);
    assert(extent(b) <= share) by (nonlinear_arith)
        requires
            b * e <= share * 6,
            -(b * e) <= share * 6,
            share >= 0,
            e == 0x20_0000_0000_0000,
    ;
    let far = extent(z);
    assert(far * n <= 2 * (x * n)) by (nonlinear_arith)
        requires
            far == extent(z),
            z == x - y,
            b == share - y * n,
            -b <= share,
            x * n >= share,
            y >= 0,
            n > 0,
            x * n >= 0,
    {
        assert(z * n == x * n - y * n);
        assert(y * n <= 2 * share);
        assert(y * n >= 0);
    }
    assert((a * n) * e <= (far * n) * 2 && -((a * n) * e) <= (far * n) * 2) by (nonlinear_arith)
        requires
            a * e <= far * 2,
            (-a) * e <= far * 2,
            n > 0,
    ;
    assert((s * n - all) * e == (a * n) * e + b * e) by (nonlinear_arith)
        requires
            s * n - all == a * n + b,
    ;
    assert((all - s * n) * e == -((s * n - all) * e)) by (nonlinear_arith);
}

// Marks along an axis.

/// Marks stand a step apart, from the first one on.
pub proof fn marks_stand_a_step_apart(first: Quantity, step: nat, from: int, k: nat)
    requires
        is_at(first, from),
        is_small(step as int),
        forall|j: int| 0 <= j <= k ==> is_small(#[trigger] (from + j * step)),
    ensures
        is_at(mark(first, whole(step), k), from + k * step),
    decreases k,
{
    if k == 0 {
        assert(0 * step == 0);
    } else {
        let before = (k - 1) as nat;
        assert(is_small(from + k * step));
        marks_stand_a_step_apart(first, step, from, before);
        wholes_are_at(step);
        assert(before * step + step == k * step) by (nonlinear_arith)
            requires
                before == k - 1,
        ;
        sums_at(mark(first, whole(step), before), whole(step), from + before * step, step as int);
    }
}

/// The marks along an axis are all the steps that do not pass its end.
pub proof fn marks_reach_the_end(
    marks: Seq<Quantity>,
    first: Quantity,
    step: nat,
    end: Quantity,
    from: int,
    to: int,
)
    requires
        are_marks(marks, first, whole(step), end),
        is_at(first, from),
        is_at(end, to),
        0 < step < 0x10_0000_0000_0000,
        extent(from) < 0x10_0000_0000_0000,
        extent(to) < 0x8_0000_0000_0000,
    ensures
        forall|i: int|
            0 <= i < marks.len() ==> is_at(#[trigger] marks[i], from + i * step) && from + i * step
                <= to,
        from + marks.len() * step > to,
    decreases marks.len(),
{
    let n = marks.len();
    marks_up_to(marks, first, step, end, from, to, n);
}

proof fn marks_up_to(
    marks: Seq<Quantity>,
    first: Quantity,
    step: nat,
    end: Quantity,
    from: int,
    to: int,
    n: nat,
)
    requires
        are_marks(marks, first, whole(step), end),
        is_at(first, from),
        is_at(end, to),
        0 < step < 0x10_0000_0000_0000,
        extent(from) < 0x10_0000_0000_0000,
        extent(to) < 0x8_0000_0000_0000,
        n <= marks.len(),
    ensures
        forall|i: int|
            0 <= i < n ==> is_at(#[trigger] marks[i], from + i * step) && from + i * step <= to,
        is_at(mark(first, whole(step), n), from + n * step),
        n == marks.len() ==> from + n * step > to,
    decreases n,
{
    if n == 0 {
        assert(0 * step == 0);
    } else {
        let m = (n - 1) as nat;
        marks_up_to(marks, first, step, end, from, to, m);
        assert(marks[m as int] == mark(first, whole(step), m) && marks[m as int].at_most(end));
        orders_at(marks[m as int], end, from + m * step, to);
        wholes_are_at(step);
        assert(m * step + step == n * step) by (nonlinear_arith)
            requires
                m == n - 1,
        ;
        assert(m * step >= 0) by (nonlinear_arith);
        sums_at(mark(first, whole(step), m), whole(step), from + m * step, step as int);
    }
    if n == marks.len() {
        orders_at(mark(first, whole(step), n), end, from + n * step, to);
    }
}

// Windows of time.

/// A window of a chart begins `range` seconds before now.
pub proof fn windows_begin_before_now(now: u64, range: u64)
    requires
        is_small(now as int),
        is_small(range as int),
    ensures
        is_at(window_start(now, range), now - range),
{
    wholes_are_at(now as nat);
    wholes_are_at(range as nat);
    differences_at(whole(now as nat), whole(range as nat), now as int, range as int);
}

proof fn window_edges_are_sharp(x: Sample, now: u64, range: u64)
    requires
        now < 0x10_0000_0000_0000,
        range < 0x8_0000_0000_0000,
        is_small(x.t as int),
    ensures
        in_window(x, now, range) <==> x.t + range + 600 >= now,
{
    windows_begin_before_now(now, range);
    wholes_are_at(600);
    wholes_are_at(x.t as nat);
    let start = window_start(now, range);
    differences_at(start, whole(600), now - range, 600);
    orders_at(difference(start, whole(600)), whole(x.t as nat), now - range - 600, x.t as int);
}

/// The charge chart shows the samples of its window and of the ten minutes
/// before it, in the order they have.
pub proof fn charge_charts_show_their_window(s: Seq<Sample>, now: u64, range: u64)
    requires
        now < 0x10_0000_0000_0000,
        range < 0x8_0000_0000_0000,
        forall|i: int| 0 <= i < s.len() ==> is_small((#[trigger] s[i]).t as int),
    ensures
        windowed(s, now, range) == s.filter(|x: Sample| x.t + range + 600 >= now),
    decreases s.len(),
{
    reveal(Seq::filter);
    if s.len() > 0 {
        assert(is_small(s[s.len() - 1].t as int));
        charge_charts_show_their_window(s.drop_last(), now, range);
        window_edges_are_sharp(s.last(), now, range);
    }
}

/// The runtime chart shows the checkpoints of its window, in the order they
/// have.
pub proof fn runtime_charts_show_their_window(p: Seq<Checkpoint>, now: u64, range: u64)
    requires
        is_small(now as int),
        is_small(range as int),
        forall|i: int| 0 <= i < p.len() ==> is_small((#[trigger] p[i]).t as int),
    ensures
        recent_points(p, now, range) == p.filter(|c: Checkpoint| c.t + range >= now),
    decreases p.len(),
{
    reveal(Seq::filter);
    if p.len() > 0 {
        let c = p[p.len() - 1];
        assert(is_small(c.t as int));
        runtime_charts_show_their_window(p.drop_last(), now, range);
        windows_begin_before_now(now, range);
        wholes_are_at(c.t as nat);
        orders_at(window_start(now, range), whole(c.t as nat), now - range, c.t as int);
    }
}

/// The charge chart spans its window, and a quarter more where there is
/// something to project.
pub proof fn charge_charts_leave_a_quarter(now: u64, range: u64)
    requires
        is_small(now + range),
        range % 4 == 0,
    ensures
        is_at(charge_span_of(now, range, true).0, now - range),
        is_at(charge_span_of(now, range, true).1, now + range / 4),
        is_at(charge_span_of(now, range, false).0, now - range),
        is_at(charge_span_of(now, range, false).1, now as int),
{
    let one = one_in_units() as int;
    windows_begin_before_now(now, range);
    wholes_are_at(now as nat);
    wholes_are_at(range as nat);
    assert(0 * one == 0);
    small_wholes_are_exact(0);
    crate::binary::nothing_is_zero();
    let zero = Quantity { bits: 0 };
    sums_at(whole(now as nat), zero, now as int, 0);
    let q = Quantity { bits: QUARTER_BITS };
    let k = (range / 4) as nat;
    quarters_are_exact(k);
    sums_at(whole(now as nat), product(whole(range as nat), q), now as int, k as int);
}

proof fn quarters_are_exact(k: nat)
    requires
        4 * k < 0x20_0000_0000_0000,
    ensures
        is_at(product(whole(4 * k), Quantity { bits: QUARTER_BITS }), k as int),
{
    let one = one_in_units() as int;
    let q = Quantity { bits: QUARTER_BITS };
    let span = crate::binary::SPAN as nat;
    crate::binary::put_together(span, 1020);
    crate::binary::one_is_one();
    crate::binary::put_together(span, 1022);
    assert(ONE_BITS == 1022 * span + span);
    assert(QUARTER_BITS == 1020 * span + span);
    vstd::arithmetic::power2::lemma2_to64();
    vstd::arithmetic::power2::lemma_pow2_adds(2, 1020);
    let a = vstd::arithmetic::power2::pow2(1020);
    assert(span * (4 * a) == 4 * (span * a)) by (nonlinear_arith);
    assert(4 * size(q) == one);
    small_wholes_are_exact(4 * k);
    small_wholes_are_exact(k);
    crate::binary::exact_values_stay(whole(k).magnitude() as nat, one_in_units());
    let u = size(q) as int;
    assert(((4 * k) * one) * u == (k * one) * one) by (nonlinear_arith)
        requires
            4 * u == one,
    ;
    let p = product(whole(4 * k), q);
    assert(p.magnitude() == whole(k).magnitude());
}

// The projection.

/// The charge that a projection heads for.
pub open spec fn heads_for(state: PowerState) -> int {
    if state == PowerState::Charging {
        100
    } else {
        0
    }
}

/// A projection that the chart has room for ends after its minutes, at full
/// while charging and at empty otherwise.
pub proof fn projections_arrive(
    now: u64,
    percent: u8,
    state: PowerState,
    minutes: u32,
    t_max: Quantity,
    end: int,
)
    requires
        minutes > 0,
        is_small(now + 60 * minutes),
        is_at(t_max, end),
        now + 60 * minutes <= end,
    ensures
        ({
            let (t, v) = projection_end(now, percent, state, minutes, t_max);
            &&& is_at(t, now + 60 * minutes)
            &&& is_at(v, heads_for(state))
        }),
{
    let goal = heads_for(state);
    let start = whole(now as nat);
    let level = whole(percent as nat);
    let target = whole(goal as nat);
    let far = product(whole(minutes as nat), whole(60));
    let last = sum(start, far);
    let one = Quantity { bits: ONE_BITS };
    let (n, m, p) = (now as int, 60 * minutes, percent as int);
    wholes_are_at(now as nat);
    wholes_are_at(percent as nat);
    wholes_are_at(goal as nat);
    wholes_are_at(minutes as nat);
    wholes_are_at(60);
    ones_are_at();
    products_at(whole(minutes as nat), whole(60), minutes as int, 60);
    sums_at(start, far, n, m);
    orders_at(t_max, last, end, n + m);
    let t = crate::binary::lesser(last, t_max);
    differences_at(target, level, goal, p);
    differences_at(t, start, n + m, n);
    differences_at(last, start, n + m, n);
    let (gap, run, whole_run) = (
        difference(target, level),
        difference(t, start),
        difference(last, start),
    );
    assert(extent((goal - p) * m) < 0x20_0000_0000_0000) by (nonlinear_arith)
        requires
            -255 <= goal - p <= 255,
            0 < m <= 60 * 0xffff_ffff,
    ;
    products_at(gap, run, goal - p, m);
    orders_at(whole_run, one, m, 1);
    quotients_at(product(gap, run), whole_run, goal - p, m);
    sums_at(level, quotient(product(gap, run), whole_run), p, goal - p);
}

/// A projection that the chart has no room for is cut at its end, on the
/// straight line to where it was headed.
pub proof fn projections_are_cut_on_their_way(
    now: u64,
    percent: u8,
    state: PowerState,
    minutes: u32,
    t_max: Quantity,
    end: int,
)
    requires
        percent <= 100,
        is_small(now + 60 * minutes),
        is_at(t_max, end),
        now <= end < now + 60 * minutes,
    ensures
        ({
            let (t, v) = projection_end(now, percent, state, minutes, t_max);
            let all = 60 * minutes;
            &&& t == t_max
            &&& is_finite(v)
            &&& is_off_by(
                value(v) * all,
                (percent * all + (heads_for(state) - percent) * (end - now)) * one_in_units(),
                (100 * all) * one_in_units(),
                12,
            )
        }),
{
    let goal = heads_for(state);
    let start = whole(now as nat);
    let level = whole(percent as nat);
    let target = whole(goal as nat);
    let far = product(whole(minutes as nat), whole(60));
    let last = sum(start, far);
    let unit = Quantity { bits: ONE_BITS };
    let (n, m, p) = (now as int, 60 * minutes, percent as int);
    let one = one_in_units() as int;
    wholes_are_at(now as nat);
    wholes_are_at(percent as nat);
    wholes_are_at(goal as nat);
    wholes_are_at(minutes as nat);
    wholes_are_at(60);
    ones_are_at();
    products_at(whole(minutes as nat), whole(60), minutes as int, 60);
    sums_at(start, far, n, m);
    orders_at(t_max, last, end, n + m);
    let t = crate::binary::lesser(last, t_max);
    assert(t == t_max);
    let c = end - n;
    differences_at(target, level, goal, p);
    differences_at(t, start, end, n);
    differences_at(last, start, n + m, n);
    let (gap, run, whole_run) = (
        difference(target, level),
        difference(t, start),
        difference(last, start),
    );
    let d = (goal - p) * c;
    assert(extent(d) <= 100 * m && 100 * m < 0x20_0000_0000_0000) by (nonlinear_arith)
        requires
            d == (goal - p) * c,
            -100 <= goal - p <= 100,
            0 <= c < m <= 60 * 0xffff_ffff,
    ;
    products_at(gap, run, goal - p, c);
    orders_at(whole_run, unit, m, 1);
    let moved = product(gap, run);
    let q = quotient(moved, whole_run);
    slopes_measure(moved, whole_run, d, m);
    let (x, y) = (p * one, value(q));
    small_wholes_are_exact(1);
    slopes_are_small(p, d, m, x, y, one);
    vstd::arithmetic::power2::lemma2_to64();
    crate::precision::scaled_powers(0, 10);
    assert(power_units(0) == one);
    sums_are_off_by_little(level, q, 10);
    let s = value(sum(level, q));
    let churn = extent(x + y);
    let e = PARTS as int;
    let (a, b) = (s - (x + y), y * m - d * one);
    let all = (p * m + d) * one;
    let cap = (100 * m) * one;
    assert(s * m - all == a * m + b) by (nonlinear_arith)
        requires
            a == s - (x + y),
            b == y * m - d * one,
            all == (p * m + d) * one,
            x == p * one,
    ;
    assert((a * m) * e <= (churn * m) * 2 && -((a * m) * e) <= (churn * m) * 2) by (nonlinear_arith)
        requires
            a * e <= churn * 2,
            (-a) * e <= churn * 2,
            m > 0,
    ;
    assert(churn * m <= 3 * cap) by (nonlinear_arith)
        requires
            churn <= 300 * one,
            cap == (100 * m) * one,
            m > 0,
    ;
    let size_of = extent(d) * one;
    assert(size_of <= cap) by (nonlinear_arith)
        requires
            size_of == extent(d) * one,
            extent(d) <= 100 * m,
            cap == (100 * m) * one,
            one > 0,
    ;
    assert(extent(d * one) == size_of) by (nonlinear_arith)
        requires
            size_of == extent(d) * one,
            one > 0,
    ;
    assert((-b) * e == -(b * e)) by (nonlinear_arith);
    assert((s * m - all) * e == (a * m) * e + b * e) by (nonlinear_arith)
        requires
            s * m - all == a * m + b,
    ;
    assert((all - s * m) * e == -((s * m - all) * e)) by (nonlinear_arith);
}

/// A quotient of whole numbers of either sign.
pub(crate) proof fn slopes_measure(a: Quantity, b: Quantity, d: int, m: int)
    requires
        is_at(a, d),
        is_at(b, m),
        is_small(d),
        is_small(m),
        m > 0,
    ensures
        is_finite(quotient(a, b)),
        is_off_by(
            value(quotient(a, b)) * m,
            d * one_in_units(),
            extent(d * one_in_units()),
            3,
        ),
{
    let one = one_in_units() as int;
    let q = quotient(a, b);
    if d == 0 {
        assert(0 * m == 0 && 0 * one == 0);
        quotients_at(a, b, 0, m);
    } else {
        let k = extent(d) as nat;
        wholes_measure(k);
        small_wholes_are_exact(k);
        sizes_at(a, d);
        sizes_at(b, m);
        wholes_span(b, m);
        let w = whole(k);
        quotients_measure(w, b, 53, 53);
        let r = quotient(w, b);
        crate::binary::nearest_exists(size(a) * one_in_units(), size(b));
        assert(q.magnitude() == r.magnitude());
        let x = size(r) as int;
        assert(x * (m * one) == (x * m) * one) by (nonlinear_arith);
        abouts_cancel(x * m, k * one, one, 2);
        assert(x * m >= 0 && k * one >= 0) by (nonlinear_arith)
            requires
                x >= 0,
                m > 0,
                one >= 0,
        ;
        abouts_are_off_by_little(x * m, k * one, 2);
        if d < 0 {
            assert((-x) * m == -(x * m) && d * one == -(k * one)) by (nonlinear_arith)
                requires
                    k == -d,
            ;
        }
    }
}

proof fn slopes_are_small(p: int, d: int, m: int, x: int, y: int, one: int)
    requires
        0 <= p <= 100,
        extent(d) <= 100 * m,
        m > 0,
        one > 0,
        x == p * one,
        is_off_by(y * m, d * one, extent(d * one), 3),
    ensures
        extent(x + y) <= 300 * one,
        300 * one <= 1024 * one,
{
    let e = PARTS as int;
    let k = extent(d) * one;
    assert(extent(d * one) == k && k <= (100 * one) * m && k >= 0) by (nonlinear_arith)
        requires
            k == extent(d) * one,
            extent(d) <= 100 * m,
            one > 0,
    ;
    let b = y * m - d * one;
    assert((-b) * e == -(b * e)) by (nonlinear_arith);
    assert(extent(b) <= k) by (nonlinear_arith)
        requires
            b * e <= k * 3,
            -(b * e) <= k * 3,
            k >= 0,
            e == 0x20_0000_0000_0000,
    ;
    assert((200 * one) * m == 2 * ((100 * one) * m)) by (nonlinear_arith);
    assert(extent(y * m) <= (200 * one) * m);
    assert(extent(y) <= 200 * one) by (nonlinear_arith)
        requires
            extent(y * m) <= (200 * one) * m,
            m > 0,
            one > 0,
    ;
    assert(0 <= x <= 100 * one) by (nonlinear_arith)
        requires
            x == p * one,
            0 <= p <= 100,
            one > 0,
    ;
}

// The time axis.

/// A step cuts an axis into at most eight where eight of it are as long.
pub proof fn eight_steps_cover_an_axis(span: Quantity, n: int, step: u64)
    requires
        is_at(span, n),
        0 <= n,
        0 < step,
        8 * step < 0x4_0000_0000_0000,
        is_small(n),
    ensures
        cuts_few(span, step) <==> n <= 8 * step,
{
    thresholds_are_round();
    let one = one_in_units() as int;
    small_wholes_are_exact(1);
    let s = whole(step as nat);
    let eight = Quantity { bits: EIGHT_BITS };
    wholes_are_at(step as nat);
    let q = quotient(span, s);
    let k = step as int;
    if n == 0 {
        assert(0 * k == 0);
        quotients_at(span, s, 0, k);
        orders_at(q, eight, 0, 8);
    } else {
        slopes_measure(span, s, n, k);
        let y = value(q);
        crate::binary::order_is_that_of_values(q, eight);
        let e = PARTS as int;
        let no = n * one;
        assert(no > 0) by (nonlinear_arith)
            requires
                no == n * one,
                n > 0,
                one > 0,
        ;
        if n > 8 * k {
            // One second more than eight steps shows in the quotient.
            if y <= 8 * one {
                assert(y * k <= (8 * k) * one) by (nonlinear_arith)
                    requires
                        y <= 8 * one,
                        k > 0,
                ;
                let over = n - 8 * k;
                assert(no - y * k >= over * one) by (nonlinear_arith)
                    requires
                        no == n * one,
                        over == n - 8 * k,
                        y * k <= (8 * k) * one,
                ;
                assert((over * one) * e <= no * 3) by (nonlinear_arith)
                    requires
                        no - y * k >= over * one,
                        (no - y * k) * e <= no * 3,
                        e > 0,
                ;
                assert(over * e <= n * 3) by (nonlinear_arith)
                    requires
                        (over * one) * e <= no * 3,
                        no == n * one,
                        one > 0,
                ;
                assert(over * 0x20_0000_0000_0000 <= n * 3) by (nonlinear_arith)
                    requires
                        over * e <= n * 3,
                        e == 0x20_0000_0000_0000,
                ;
            }
        } else {
            parts_stay_below(span, s, n, k, 8);
        }
    }
}

/// What is no more than `c` times as much is no more than `c` of it.
pub(crate) proof fn parts_stay_below(a: Quantity, b: Quantity, n: int, k: int, c: nat)
    requires
        is_at(a, n),
        is_at(b, k),
        0 < n <= c * k,
        0 < k,
        is_small(c as int),
    ensures
        value(quotient(a, b)) <= c * one_in_units(),
{
    let one = one_in_units() as int;
    sizes_at(a, n);
    sizes_at(b, k);
    small_wholes_are_exact(c);
    let most = whole(c);
    crate::binary::exact_values_stay(most.magnitude() as nat, size(b));
    crate::binary::nearest_exists(size(a) * one_in_units(), size(b));
    let (p, r) = (size(a) * one_in_units(), size(most) * size(b));
    assert(p <= r) by (nonlinear_arith)
        requires
            p == (n * one) * one,
            r == (c * one) * (k * one),
            n <= c * k,
            one > 0,
    ;
    let x = crate::binary::nearest(p, size(b));
    crate::binary::nearest_keeps_order(p, r, size(b), x, most.magnitude() as nat);
    if x < most.magnitude() {
        crate::binary::magnitudes_grow(x, most.magnitude() as nat);
    }
}

/// Time labels stand a quarter of an hour apart, half an hour, one, two,
/// three, six, twelve hours or a day: each step is longer than the one before
/// and goes into a day without rest.
pub proof fn label_steps_divide_the_day()
    ensures
        crate::chart::axis_steps().len() == 8,
        crate::chart::axis_steps()[0] == 15 * 60,
        crate::chart::axis_steps()[1] == 30 * 60,
        crate::chart::axis_steps()[2] == 60 * 60,
        crate::chart::axis_steps()[3] == 2 * 3600,
        crate::chart::axis_steps()[4] == 3 * 3600,
        crate::chart::axis_steps()[5] == 6 * 3600,
        crate::chart::axis_steps()[6] == 12 * 3600,
        crate::chart::axis_steps()[7] == 24 * 3600,
{
}

// Colours.

/// The hexadecimal digit of a number below sixteen, small or capital.
pub open spec fn hex_digit(d: int, capital: bool) -> char {
    if d < 10 {
        ('0' as int + d) as char
    } else if capital {
        ('A' as int + d - 10) as char
    } else {
        ('a' as int + d - 10) as char
    }
}

/// A colour written out, two digits a channel, red first.
pub open spec fn written(c: Rgb, capital: bool) -> Seq<char> {
    seq![
        '#',
        hex_digit(c.red as int / 16, capital),
        hex_digit(c.red as int % 16, capital),
        hex_digit(c.green as int / 16, capital),
        hex_digit(c.green as int % 16, capital),
        hex_digit(c.blue as int / 16, capital),
        hex_digit(c.blue as int % 16, capital),
    ]
}

/// A colour reads back as it was written, in small letters or in capitals.
pub proof fn colours_read_back(c: Rgb, capital: bool)
    ensures
        crate::chart::is_colour(written(c, capital)),
        crate::chart::colour_of(written(c, capital)) == c,
{
    let s = written(c, capital);
    hex_digits_read_back(c.red as int / 16, capital);
    hex_digits_read_back(c.red as int % 16, capital);
    hex_digits_read_back(c.green as int / 16, capital);
    hex_digits_read_back(c.green as int % 16, capital);
    hex_digits_read_back(c.blue as int / 16, capital);
    hex_digits_read_back(c.blue as int % 16, capital);
    assert forall|i: int| 1 <= i < 7 implies crate::chart::hex_value(#[trigger] s[i]) is Some by {
        assert(i == 1 || i == 2 || i == 3 || i == 4 || i == 5 || i == 6);
    }
}

proof fn hex_digits_read_back(d: int, capital: bool)
    requires
        0 <= d < 16,
    ensures
        crate::chart::hex_value(hex_digit(d, capital)) == Some(d as nat),
{
}

/// A line joins two neighbouring samples that are at most ten minutes apart.
/// It is shaded where the adapter was in, and has the colour of the state it
/// starts in.
pub proof fn lines_join_within_ten_minutes(a: Sample, b: Sample)
    ensures
        ({
            let s = crate::chart::stretch_of(a, b);
            &&& s.line <==> a.t <= b.t <= a.t + 600
            &&& s.shaded <==> s.line && (a.state == PowerState::Charging || a.state
                == PowerState::PluggedIn)
            &&& s.tint == Tint::Accent <==> a.state == PowerState::OnBattery
            &&& s.tint == Tint::Charge <==> a.state == PowerState::Charging
            &&& s.tint == Tint::Dimmed <==> a.state == PowerState::PluggedIn
        }),
{
}

/// The pen goes to what its line reads, and draws from the checkpoint before
/// where that one has something to read and is at most ten minutes away.
pub proof fn pens_follow_their_line(p: Seq<Checkpoint>, i: int)
    requires
        0 <= i < p.len(),
    ensures
        ({
            let near = i > 0 && p[i - 1].t <= p[i].t <= p[i - 1].t + 600;
            let pen = |s: Series| crate::chart::pen_at(p, s, i);
            &&& pen(Series::Predicted) is Some && pen(Series::Predicted)->0.minutes
                == p[i].predicted_min && pen(Series::Predicted)->0.draws == near
            &&& pen(Series::Realized) is Some && pen(Series::Realized)->0.minutes
                == p[i].realized_min && pen(Series::Realized)->0.draws == near
            &&& pen(Series::Instant) is Some <==> p[i].instant_min is Some
            &&& p[i].instant_min matches Some(m) ==> pen(Series::Instant)->0.minutes == m && pen(
                Series::Instant,
            )->0.draws == (near && p[i - 1].instant_min is Some)
        }),
{
}

} // verus!
