//! How high the charts reach, where their labels begin and how their bars
//! stand.

use crate::canvas::{parts_stay_below, slopes_measure, wholes_span};
use crate::chart::{Plot, BAR_BITS, FIVE_QUARTERS_BITS, HEADROOM_BITS};
use crate::exact::{differences_at, orders_at, products_at, sizes_at, sums_at, wholes_are_at};
use crate::folds::sums_are_off_by_little;
use crate::margin::bounds_add_up;
use crate::measures::{abouts_add_up, abouts_cancel, abouts_scale, abouts_widen, equals_are_about};
use crate::measures::{powers_rise, products_measure, quotients_measure};
use crate::measures::wholes_measure;
use crate::precision::PARTS;
use crate::quantity::{Quantity, ONE_BITS};
use crate::scoring::Checkpoint;
use vstd::prelude::*;

verus! {

use crate::binary::{
    difference, greater, is_finite, is_negative, one_in_units, order_is_that_of_values, product,
    quotient, size, small_wholes_are_exact, sum, value, whole, whole_above,
};
use crate::chart::{chart_top_of, drain_top_of, greatest_rate, most_minutes};
use crate::exact::{is_at, is_small};
use crate::folds::extent;
use crate::margin::about_at_most;
use crate::measures::{about, spans};
use crate::precision::power_units;

/// The least whole number that is no less than a quantity.
proof fn ceilings_are_at(a: Quantity) -> (k: nat)
    requires
        is_finite(a),
        !is_negative(a),
        size(a) <= 0x10_0000_0000_0000 * one_in_units(),
    ensures
        is_at(whole_above(a), k as int),
        size(a) <= k * one_in_units(),
        size(a) > (k - 1) * one_in_units(),
        k <= 0x10_0000_0000_0000,
{
    let one = one_in_units() as int;
    small_wholes_are_exact(1);
    let s = size(a) as int;
    let k = ((s + one - 1) / one) as nat;
    assert(s <= k * one && s > (k - 1) * one && k >= 0) by (nonlinear_arith)
        requires
            k == (s + one - 1) / one,
            s >= 0,
            one > 0,
    ;
    assert(k <= 0x10_0000_0000_0000) by (nonlinear_arith)
        requires
            s > (k - 1) * one,
            s <= 0x10_0000_0000_0000 * one,
            one > 0,
    ;
    wholes_are_at(k);
    k
}

// The first label of a time axis.

/// Whether a label is the first on an axis: on a round local time, no earlier
/// than the start of the axis and less than a step after it.
pub open spec fn is_first_label(r: Quantity, from: int, offset: int, step: int) -> bool {
    exists|k: int| #[trigger] is_first_step(r, from, offset, step, k)
}

/// Whether a label stands on the `k`-th round local time, no earlier than the
/// start of the axis and less than a step after it.
pub open spec fn is_first_step(r: Quantity, from: int, offset: int, step: int, k: int) -> bool {
    is_at(r, k * step - offset) && from <= k * step - offset < from + step
}

/// The first label, as it is computed.
pub(crate) proof fn labels_begin_on_a_round_time(
    t_min: Quantity,
    offset: Quantity,
    step: u64,
    from: int,
    ahead: int,
)
    requires
        is_at(t_min, from),
        is_at(offset, ahead),
        0 <= from + ahead < 0x4_0000_0000_0000,
        extent(ahead) < 0x4_0000_0000_0000,
        0 < step < 0x4_0000_0000_0000,
    ensures
        is_first_label(
            difference(
                product(
                    whole_above(quotient(sum(t_min, offset), whole(step as nat))),
                    whole(step as nat),
                ),
                offset,
            ),
            from,
            ahead,
            step as int,
        ),
{
    let one = one_in_units() as int;
    small_wholes_are_exact(1);
    let n = from + ahead;
    let d = step as int;
    let (local, s) = (sum(t_min, offset), whole(step as nat));
    sums_at(t_min, offset, from, ahead);
    wholes_are_at(step as nat);
    let q = quotient(local, s);
    let k = cuts_round_up(local, s, n, d);
    let up = whole_above(q);
    products_at(up, s, k, d);
    differences_at(product(up, s), offset, k * d, ahead);
    assert(is_first_step(difference(product(up, s), offset), from, ahead, d, k));
}

/// A quotient of whole numbers, rounded up.
proof fn cuts_round_up(a: Quantity, b: Quantity, n: int, d: int) -> (k: int)
    requires
        is_at(a, n),
        is_at(b, d),
        0 <= n < 0x4_0000_0000_0000,
        0 < d < 0x4_0000_0000_0000,
    ensures
        is_at(whole_above(quotient(a, b)), k),
        n <= k * d < n + d,
        0 <= k * d < 0x8_0000_0000_0000,
{
    let one = one_in_units() as int;
    small_wholes_are_exact(1);
    let q = quotient(a, b);
    if n == 0 {
        assert(0 * d == 0 && 0 * one == 0);
        crate::exact::quotients_at(a, b, 0, d);
        sizes_at(q, 0);
        wholes_are_at(0);
        assert((0 + one - 1) / one == 0) by (nonlinear_arith)
            requires
                one > 0,
        ;
        0
    } else {
        sizes_at(a, n);
        sizes_at(b, d);
        slopes_measure(a, b, n, d);
        crate::binary::nearest_exists(size(a) * one_in_units(), size(b));
        assert(!is_negative(q));
        let c = (n / d + 1) as nat;
        assert(n <= c * d && c <= n + 1) by (nonlinear_arith)
            requires
                c == n / d + 1,
                n > 0,
                d > 0,
        ;
        parts_stay_below(a, b, n, d, c);
        assert(c * one <= 0x10_0000_0000_0000 * one) by (nonlinear_arith)
            requires
                c <= 0x10_0000_0000_0000,
                one > 0,
        ;
        let k = ceilings_are_at(q) as int;
        let x = size(q) as int;
        let e = PARTS as int;
        let no = n * one;
        assert(no > 0) by (nonlinear_arith)
            requires
                no == n * one,
                n > 0,
                one > 0,
        ;
        if n > k * d {
            assert(x * d <= (k * d) * one) by (nonlinear_arith)
                requires
                    x <= k * one,
                    d > 0,
            ;
            let over = n - k * d;
            assert(no - x * d >= over * one) by (nonlinear_arith)
                requires
                    no == n * one,
                    over == n - k * d,
                    x * d <= (k * d) * one,
            ;
            assert((over * one) * e <= no * 3) by (nonlinear_arith)
                requires
                    no - x * d >= over * one,
                    (no - x * d) * e <= no * 3,
                    e > 0,
            ;
            assert(over * e <= n * 3) by (nonlinear_arith)
                requires
                    (over * one) * e <= no * 3,
                    no == n * one,
                    one > 0,
            ;
            assert(over * 0x20_0000_0000_0000 <= n * 3) by (nonlinear_arith)
                requires
                    over * e <= n * 3,
                    e == 0x20_0000_0000_0000,
            ;
        }
        if n <= (k - 1) * d {
            assert(k - 1 > 0) by (nonlinear_arith)
                requires
                    n <= (k - 1) * d,
                    n > 0,
                    d > 0,
            ;
            parts_stay_below(a, b, n, d, (k - 1) as nat);
        }
        assert((k - 1) * d == k * d - d) by (nonlinear_arith);
        k
    }
}

// The top of the runtime chart.

/// Whether `r` is the top of a runtime chart whose lines reach `top` minutes:
/// a whole number of hours, at least one, the first that leaves fifteen
/// percent of room.
pub open spec fn is_runtime_top(r: Quantity, top: int) -> bool {
    exists|hours: int| #[trigger] has_room(r, top, hours)
}

/// Whether `r` is so many hours, the first that leave fifteen percent of room
/// above `top` minutes.
pub open spec fn has_room(r: Quantity, top: int, hours: int) -> bool {
    &&& is_at(r, hours * 60)
    &&& hours >= 1
    &&& 115 * top <= 100 * (hours * 60)
    &&& hours == 1 || 100 * ((hours - 1) * 60) <= 115 * top
}

proof fn headroom_measures()
    ensures
        spans(Quantity { bits: HEADROOM_BITS }, 53),
        about(20 * size(Quantity { bits: HEADROOM_BITS }) as int, 23 * one_in_units() as int, 1),
{
    let q = Quantity { bits: HEADROOM_BITS };
    let span = crate::binary::SPAN as nat;
    let digits = 0x12_6666_6666_6666nat;
    crate::binary::put_together(digits, 1022);
    assert(HEADROOM_BITS == 1022 * span + digits);
    crate::binary::one_is_one();
    crate::binary::put_together(span, 1022);
    assert(ONE_BITS == 1022 * span + span);
    vstd::arithmetic::power2::lemma_pow2_pos(1022);
    let a = vstd::arithmetic::power2::pow2(1022) as int;
    let (s, one) = (size(q) as int, one_in_units() as int);
    assert(s == digits * a && one == span * a);
    let e = PARTS as int;
    assert((20 * s) * e <= (23 * one) * (e + 1) && (23 * one) * e <= (20 * s) * (e + 1) && one <= s
        && s <= 2 * one) by (nonlinear_arith)
        requires
            s == 0x12_6666_6666_6666 * a,
            one == 0x10_0000_0000_0000 * a,
            a > 0,
            e == 0x20_0000_0000_0000,
    ;
    powers_rise(-53, 0);
    powers_rise(1, 53);
    crate::precision::scaled_powers(0, 1);
    vstd::arithmetic::power2::lemma2_to64();
    assert(power_units(0) == one);
}

/// The top of the runtime chart, as it is computed.
pub(crate) proof fn runtime_tops_leave_room(top: nat)
    requires
        top <= 0xffff_ffff,
    ensures
        is_runtime_top(
            greater(
                product(
                    whole_above(
                        quotient(
                            product(whole(top), Quantity { bits: HEADROOM_BITS }),
                            whole(60),
                        ),
                    ),
                    whole(60),
                ),
                whole(60),
            ),
            top as int,
        ),
{
    let one = one_in_units() as int;
    small_wholes_are_exact(1);
    let room = Quantity { bits: HEADROOM_BITS };
    wholes_are_at(60);
    wholes_are_at(top);
    headroom_measures();
    let high = product(whole(top), room);
    let q = quotient(high, whole(60));
    if top == 0 {
        crate::binary::nothing_is_zero();
        crate::binary::zero_takes_all(whole(0), room);
        crate::binary::only_zeros_have_no_size(high);
        assert(0 * one == 0);
        assert(is_at(high, 0));
        crate::exact::quotients_at(high, whole(60), 0, 60);
        tops_of(q, 0, 0);
    } else {
        wholes_measure(top);
        wholes_measure(60);
        small_wholes_are_exact(top);
        small_wholes_are_exact(60);
        products_measure(whole(top), room, 53, 53);
        quotients_measure(high, whole(60), 106, 53);
        let (h, x, s) = (size(high) as int, size(q) as int, size(room) as int);
        let t = top as int;
        // h is about top times the room, and x sixty times less.
        assert((t * one) * s == (t * s) * one) by (nonlinear_arith);
        abouts_cancel(h, t * s, one, 2);
        assert(x * (60 * one) == (x * 60) * one) by (nonlinear_arith);
        abouts_cancel(x * 60, h, one, 2);
        abouts_scale(20 * s, 23 * one, t, 1);
        assert((20 * s) * t == (t * s) * 20) by (nonlinear_arith);
        assert((23 * one) * t == (23 * t) * one) by (nonlinear_arith);
        abouts_scale(h, t * s, 20, 2);
        abouts_scale(x * 60, h, 20, 2);
        assert((x * 60) * 20 == x * 1200) by (nonlinear_arith);
        assert((23 * t) * one >= 0 && (t * s) * 20 >= 0) by (nonlinear_arith)
            requires
                t >= 0,
                one >= 0,
                s >= 0,
        ;
        abouts_add_up(h * 20, (t * s) * 20, (23 * t) * one, 2, 1);
        abouts_add_up(x * 1200, h * 20, (23 * t) * one, 2, 4);
        tops_of(q, t, 23 * t);
    }
}

proof fn tops_of(q: Quantity, t: int, n: int)
    requires
        is_finite(q),
        !is_negative(q) || size(q) == 0,
        about((size(q) * 1200) as int, n * one_in_units(), 7),
        n == 23 * t,
        0 <= t <= 0xffff_ffff,
    ensures
        is_runtime_top(greater(product(whole_above(q), whole(60)), whole(60)), t),
{
    let one = one_in_units() as int;
    let x = size(q) as int;
    let e = PARTS as int;
    small_wholes_are_exact(1);
    wholes_are_at(60);
    assert(x <= 0x10_0000_0000_0000 * one) by (nonlinear_arith)
        requires
            (x * 1200) * e <= (n * one) * (e + 7),
            n <= 23 * 0xffff_ffff,
            one > 0,
            n >= 0,
            e == 0x20_0000_0000_0000,
    {
        assert(n * one <= (23 * 0xffff_ffff) * one);
        assert((n * one) * (e + 7) <= (n * one) * (2 * e));
    }
    let k = if size(q) == 0 {
        let up = whole_above(q);
        assert((0 + one - 1) / one == 0 && 0int / one == 0) by (nonlinear_arith)
            requires
                one > 0,
        ;
        crate::binary::nothing_is_zero();
        assert(0 * one == 0);
        assert(is_at(up, 0)) by {
            small_wholes_are_exact(0);
        }
        0
    } else {
        ceilings_are_at(q) as int
    };
    let up = whole_above(q);
    assert(x <= k * one);
    assert(k == 0 || x > (k - 1) * one);
    assert(k <= 0x1_0000_0000) by {
        if k > 0x1_0000_0000 {
            assert((x * 1200) * e <= (n * one) * (e + 7));
            assert(false) by (nonlinear_arith)
                requires
                    (x * 1200) * e <= (n * one) * (e + 7),
                    x > (k - 1) * one,
                    k > 0x1_0000_0000,
                    0 <= n <= 23 * 0xffff_ffff,
                    one > 0,
                    e == 0x20_0000_0000_0000,
            {
                assert(x >= 0x1_0000_0000 * one);
                assert(n * one <= (23 * 0xffff_ffff) * one);
            }
        }
    }
    products_at(up, whole(60), k, 60);
    let r = product(up, whole(60));
    orders_at(r, whole(60), k * 60, 60);
    // As whole numbers, the margins make no difference.
    assert(n * 0x20_0000_0000_0000 <= (1200 * k) * 0x20_0000_0000_0007) by (nonlinear_arith)
        requires
            (n * one) * e <= (x * 1200) * (e + 7),
            x <= k * one,
            one > 0,
            e == 0x20_0000_0000_0000,
    {
        assert(x * 1200 <= (1200 * k) * one);
        assert((n * one) * e <= ((1200 * k) * one) * (e + 7));
        assert((n * one) * e == (n * e) * one);
        assert(((1200 * k) * one) * (e + 7) == ((1200 * k) * (e + 7)) * one);
    }
    assert(23 * t <= 1200 * k);
    if k >= 1 {
        assert((1200 * (k - 1)) * 0x20_0000_0000_0000 <= n * 0x20_0000_0000_0007)
            by (nonlinear_arith)
            requires
                (x * 1200) * e <= (n * one) * (e + 7),
                x > (k - 1) * one,
                one > 0,
                e == 0x20_0000_0000_0000,
        {
            assert((1200 * (k - 1)) * one <= x * 1200);
            assert(((1200 * (k - 1)) * one) * e <= (n * one) * (e + 7));
            assert(((1200 * (k - 1)) * one) * e == ((1200 * (k - 1)) * e) * one);
            assert((n * one) * (e + 7) == (n * (e + 7)) * one);
        }
        assert(1200 * (k - 1) <= 23 * t);
        assert(has_room(greater(r, whole(60)), t, k));
    } else {
        assert(has_room(greater(r, whole(60)), t, 1));
    }
}

/// The top of the lines of a runtime chart is the most minutes that any
/// checkpoint shows, in any of its lines, and no more.
pub proof fn the_highest_point_is_on_a_line(p: Seq<Checkpoint>) -> (i: int)
    requires
        p.len() > 0,
    ensures
        0 <= i < p.len(),
        chart_top_of(p) == p[i].predicted_min || chart_top_of(p) == p[i].realized_min
            || p[i].instant_min == Some(chart_top_of(p) as u32),
        chart_top_of(p) <= 0xffff_ffff,
        forall|j: int|
            0 <= j < p.len() ==> {
                &&& (#[trigger] p[j]).predicted_min <= chart_top_of(p)
                &&& p[j].realized_min <= chart_top_of(p)
                &&& p[j].instant_min matches Some(m) ==> m <= chart_top_of(p)
            },
    decreases p.len(),
{
    let n = p.len() - 1;
    if n == 0 {
        assert(chart_top_of(p.drop_last()) == 0);
        0
    } else {
        let rest = p.drop_last();
        let i = the_highest_point_is_on_a_line(rest);
        assert forall|j: int| 0 <= j < p.len() implies {
            &&& (#[trigger] p[j]).predicted_min <= chart_top_of(p)
            &&& p[j].realized_min <= chart_top_of(p)
            &&& p[j].instant_min matches Some(m) ==> m <= chart_top_of(p)
        } by {
            if j < n {
                assert(rest[j] == p[j]);
            }
        }
        if chart_top_of(rest) < most_minutes(p.last()) {
            n
        } else {
            i
        }
    }
}

// The top of the drain chart.

/// The greatest rate is one of the rates, and none is above it; without rates
/// it is nothing.
pub proof fn the_greatest_rate_is_one_of_them(rates: Seq<Option<Quantity>>)
    requires
        forall|i: int|
            0 <= i < rates.len() ==> ((#[trigger] rates[i]) matches Some(q) ==> is_finite(q)
                && value(q) > 0),
    ensures
        ({
            let g = greatest_rate(rates);
            &&& is_finite(g)
            &&& forall|i: int|
                0 <= i < rates.len() ==> ((#[trigger] rates[i]) matches Some(q) ==> value(q)
                    <= value(g))
            &&& (exists|i: int| 0 <= i < rates.len() && (#[trigger] rates[i]) == Some(g)) || (
            forall|i: int| 0 <= i < rates.len() ==> (#[trigger] rates[i]) is None) && g == (
            Quantity { bits: 0 })
        }),
    decreases rates.len(),
{
    if rates.len() > 0 {
        let rest = rates.drop_last();
        let n = rates.len() - 1;
        assert forall|i: int| 0 <= i < rest.len() implies ((#[trigger] rest[i]) matches Some(q)
            ==> is_finite(q) && value(q) > 0) by {
            assert(rest[i] == rates[i]);
        }
        the_greatest_rate_is_one_of_them(rest);
        let h = greatest_rate(rest);
        let g = greatest_rate(rates);
        assert(rates[n] == rates.last());
        if let Some(q) = rates.last() {
            order_is_that_of_values(h, q);
        }
        assert forall|i: int| 0 <= i < rates.len() implies ((#[trigger] rates[i]) matches Some(q)
            ==> value(q) <= value(g)) by {
            if i < n {
                assert(rest[i] == rates[i]);
            }
        }
        if g == h && exists|i: int| 0 <= i < rest.len() && (#[trigger] rest[i]) == Some(h) {
            let i = choose|i: int| 0 <= i < rest.len() && (#[trigger] rest[i]) == Some(h);
            assert(rates[i] == Some(g));
        } else if rates.last() is None {
            assert forall|i: int| 0 <= i < rates.len() implies (#[trigger] rates[i]) is None by {
                if i < n {
                    assert(rest[i] == rates[i]);
                }
            }
        } else {
            assert(rates[n] == Some(g));
        }
    }
}

proof fn five_quarters_measure()
    ensures
        spans(Quantity { bits: FIVE_QUARTERS_BITS }, 53),
        4 * size(Quantity { bits: FIVE_QUARTERS_BITS }) == 5 * one_in_units(),
{
    let q = Quantity { bits: FIVE_QUARTERS_BITS };
    let span = crate::binary::SPAN as nat;
    let digits = 0x14_0000_0000_0000nat;
    crate::binary::put_together(digits, 1022);
    assert(FIVE_QUARTERS_BITS == 1022 * span + digits);
    crate::binary::one_is_one();
    crate::binary::put_together(span, 1022);
    assert(ONE_BITS == 1022 * span + span);
    vstd::arithmetic::power2::lemma_pow2_pos(1022);
    let a = vstd::arithmetic::power2::pow2(1022) as int;
    let (s, one) = (size(q) as int, one_in_units() as int);
    assert(s == digits * a && one == span * a);
    assert(4 * s == 5 * one && one <= s <= 2 * one) by (nonlinear_arith)
        requires
            s == 0x14_0000_0000_0000 * a,
            one == 0x10_0000_0000_0000 * a,
            a > 0,
    ;
    powers_rise(-53, 0);
    powers_rise(1, 53);
    crate::precision::scaled_powers(0, 1);
    vstd::arithmetic::power2::lemma2_to64();
    assert(power_units(0) == one);
}

/// The drain chart reaches the first multiple of five that leaves a quarter
/// of room above the greatest rate. There is none without a rate.
pub proof fn drain_charts_leave_a_quarter(
    rates: Seq<Option<Quantity>>,
    now: Option<Quantity>,
) -> (k: int)
    requires
        forall|i: int|
            0 <= i < rates.len() ==> ((#[trigger] rates[i]) matches Some(q) ==> is_drain(q)),
        now matches Some(q) ==> is_drain(q),
    ensures
        ({
            let all = rates.push(now);
            let g = greatest_rate(all);
            match drain_top_of(rates, now) {
                Some(top) => {
                    &&& is_at(top, 5 * k)
                    &&& k >= 1
                    &&& about_at_most(5 * size(g) as int, 4 * (5 * k) * one_in_units(), 9)
                    &&& about_at_most(4 * (5 * (k - 1)) * one_in_units(), 5 * size(g) as int, 9)
                },
                None => forall|i: int| 0 <= i < all.len() ==> (#[trigger] all[i]) is None,
            }
        }),
{
    let one = one_in_units() as int;
    small_wholes_are_exact(1);
    let all = rates.push(now);
    assert forall|i: int| 0 <= i < all.len() implies ((#[trigger] all[i]) matches Some(q)
        ==> is_finite(q) && value(q) > 0 && is_drain(q)) by {
        if i < rates.len() {
            assert(all[i] == rates[i]);
        }
        if let Some(q) = all[i] {
            powers_rise(-200, -200);
        }
    }
    the_greatest_rate_is_one_of_them(all);
    let g = greatest_rate(all);
    order_is_that_of_values(g, Quantity { bits: 0 });
    if forall|i: int| 0 <= i < all.len() ==> (#[trigger] all[i]) is None {
        0
    } else {
        let i = choose|i: int| 0 <= i < all.len() && (#[trigger] all[i]) == Some(g);
        assert(is_drain(all[i]->0));
        let room = Quantity { bits: FIVE_QUARTERS_BITS };
        five_quarters_measure();
        let high = product(g, room);
        products_measure(g, room, 200, 53);
        wholes_measure(5);
        small_wholes_are_exact(5);
        quotients_measure(high, whole(5), 253, 53);
        let q = quotient(high, whole(5));
        let (a, h, x, s) = (size(g) as int, size(high) as int, size(q) as int, size(room) as int);
        // h is about five quarters of the rate, and x a fifth of that.
        abouts_scale(h * one, a * s, 4, 2);
        assert((a * s) * 4 == (5 * a) * one) by (nonlinear_arith)
            requires
                4 * s == 5 * one,
        ;
        assert((h * one) * 4 == (4 * h) * one) by (nonlinear_arith);
        abouts_cancel(4 * h, 5 * a, one, 2);
        assert(x * (5 * one) == (x * 5) * one) by (nonlinear_arith);
        abouts_cancel(x * 5, h, one, 2);
        abouts_scale(x * 5, h, 4, 2);
        assert((x * 5) * 4 == 20 * x);
        abouts_add_up(20 * x, 4 * h, 5 * a, 2, 2);
        let e = PARTS as int;
        assert(x <= 0x10_0000_0000_0000 * one) by (nonlinear_arith)
            requires
                (20 * x) * e <= (5 * a) * (e + 5),
                a <= 0x1_0000_0000_0000 * one,
                one > 0,
                a >= 0,
                e == 0x20_0000_0000_0000,
        ;
        let k = ceilings_are_at(q) as int;
        wholes_are_at(5);
        assert(k <= 0x2_0000_0000_0000) by (nonlinear_arith)
            requires
                (20 * x) * e <= (5 * a) * (e + 5),
                a <= 0x1_0000_0000_0000 * one,
                x > (k - 1) * one,
                one > 0,
                a >= 0,
                e == 0x20_0000_0000_0000,
        ;
        products_at(whole_above(q), whole(5), k, 5);
        powers_rise(-306, -306);
        assert(x > 0);
        assert(k >= 1) by (nonlinear_arith)
            requires
                0 < x <= k * one,
                one > 0,
        ;
        crate::margin::margins_widen(5 * a, 20 * x, 5, 9);
        crate::margin::margins_widen(20 * x, 5 * a, 5, 9);
        let (low, up) = (4 * (5 * (k - 1)) * one, 4 * (5 * k) * one);
        assert(low <= 20 * x <= up) by (nonlinear_arith)
            requires
                x <= k * one,
                x > (k - 1) * one,
                low == 4 * (5 * (k - 1)) * one,
                up == 4 * (5 * k) * one,
        ;
        assert((20 * x) * (e + 9) <= up * (e + 9)) by (nonlinear_arith)
            requires
                20 * x <= up,
                e > 0,
        ;
        assert(low * e <= (20 * x) * e) by (nonlinear_arith)
            requires
                low <= 20 * x,
                e > 0,
        ;
        k
    }
}

/// Whether a quantity can be a rate of drain.
pub open spec fn is_drain(q: Quantity) -> bool {
    spans(q, 200) && size(q) <= 0x1_0000_0000_0000 * one_in_units()
}

// The bars.

proof fn bars_measure()
    ensures
        spans(Quantity { bits: BAR_BITS }, 53),
        about(50 * size(Quantity { bits: BAR_BITS }) as int, 31 * one_in_units() as int, 1),
{
    let q = Quantity { bits: BAR_BITS };
    let span = crate::binary::SPAN as nat;
    let digits = 0x13_D70A_3D70_A3D7nat;
    crate::binary::put_together(digits, 1021);
    assert(BAR_BITS == 1021 * span + digits);
    crate::binary::one_is_one();
    crate::binary::put_together(span, 1022);
    assert(ONE_BITS == 1022 * span + span);
    vstd::arithmetic::power2::lemma2_to64();
    vstd::arithmetic::power2::lemma_pow2_adds(1, 1021);
    vstd::arithmetic::power2::lemma_pow2_pos(1021);
    let a = vstd::arithmetic::power2::pow2(1021) as int;
    let (s, one) = (size(q) as int, one_in_units() as int);
    assert(s == digits * a && one == span * (2 * a));
    let e = PARTS as int;
    assert((50 * s) * e <= (31 * one) * (e + 1) && (31 * one) * e <= (50 * s) * (e + 1) && one
        <= 2 * s && s <= one) by (nonlinear_arith)
        requires
            s == 0x13_D70A_3D70_A3D7 * a,
            one == 0x10_0000_0000_0000 * (2 * a),
            a > 0,
            e == 0x20_0000_0000_0000,
    ;
    powers_rise(-53, -1);
    powers_rise(0, 53);
    crate::precision::scaled_powers(-1, 1);
    assert(power_units(0) == one);
}

proof fn slots_measure(plot: Plot, width: int)
    requires
        is_at(plot.width, width),
        0 < width,
        is_small(width),
    ensures
        spans(crate::chart::slot_width(plot), 106),
        about(size(crate::chart::slot_width(plot)) as int * 10, width * one_in_units(), 2),
{
    let one = one_in_units() as int;
    small_wholes_are_exact(1);
    wholes_span(plot.width, width);
    sizes_at(plot.width, width);
    wholes_measure(10);
    small_wholes_are_exact(10);
    quotients_measure(plot.width, whole(10), 53, 53);
    let x = size(crate::chart::slot_width(plot)) as int;
    assert(x * (10 * one) == (x * 10) * one) by (nonlinear_arith);
    abouts_cancel(x * 10, width * one, one, 2);
}

proof fn bars_of_slots(slot: Quantity)
    requires
        spans(slot, 106),
    ensures
        about(
            50 * size(product(slot, Quantity { bits: BAR_BITS })) as int,
            31 * size(slot) as int,
            4,
        ),
{
    let one = one_in_units() as int;
    small_wholes_are_exact(1);
    let share = Quantity { bits: BAR_BITS };
    bars_measure();
    products_measure(slot, share, 106, 53);
    let (x, y, s) = (size(slot) as int, size(product(slot, share)) as int, size(share) as int);
    abouts_scale(50 * s, 31 * one, x, 1);
    assert((50 * s) * x == (x * s) * 50) by (nonlinear_arith);
    assert((31 * one) * x == (31 * x) * one) by (nonlinear_arith);
    abouts_scale(y * one, x * s, 50, 2);
    assert((y * one) * 50 == (50 * y) * one) by (nonlinear_arith);
    assert((x * s) * 50 >= 0 && (31 * x) * one >= 0 && (50 * y) * one >= 0) by (nonlinear_arith)
        requires
            x >= 0,
            s >= 0,
            y >= 0,
            one >= 0,
    ;
    abouts_add_up((50 * y) * one, (x * s) * 50, (31 * x) * one, 2, 1);
    abouts_cancel(50 * y, 31 * x, one, 4);
}

/// Ten slots share the width of a plot, and a bar takes 62 hundredths of its
/// slot.
pub proof fn bars_take_their_share(plot: Plot, width: int)
    requires
        is_at(plot.width, width),
        0 < width,
        is_small(width),
    ensures
        about(size(crate::chart::slot_width(plot)) as int * 10, width * one_in_units(), 2),
        about(
            1000 * size(crate::chart::bar_width(plot)) as int,
            (62 * width) * one_in_units(),
            7,
        ),
{
    let one = one_in_units() as int;
    small_wholes_are_exact(1);
    slots_measure(plot, width);
    let slot = crate::chart::slot_width(plot);
    bars_of_slots(slot);
    let (x, y) = (size(slot) as int, size(crate::chart::bar_width(plot)) as int);
    abouts_scale(50 * y, 31 * x, 20, 4);
    abouts_scale(x * 10, width * one, 62, 2);
    assert((width * one) * 62 == (62 * width) * one) by (nonlinear_arith);
    assert((62 * width) * one >= 0) by (nonlinear_arith)
        requires
            width > 0,
            one >= 0,
    ;
    abouts_add_up(1000 * y, 620 * x, (62 * width) * one, 4, 2);
}

/// A sum of quantities that are no less than zero, and not vast.
proof fn sums_measure(a: Quantity, b: Quantity)
    requires
        is_finite(a),
        is_finite(b),
        value(a) >= 0,
        value(b) >= 0,
        value(a) + value(b) <= power_units(400),
    ensures
        is_finite(sum(a, b)),
        value(sum(a, b)) >= 0,
        about(value(sum(a, b)), value(a) + value(b), 3),
{
    let all = value(a) + value(b);
    sums_are_off_by_little(a, b, 400);
    let s = value(sum(a, b));
    let e = PARTS as int;
    assert((s - all) * e == s * e - all * e && (all - s) * e == all * e - s * e)
        by (nonlinear_arith);
    assert(s >= 0 && s * e <= all * (e + 3) && all * e <= s * (e + 3)) by (nonlinear_arith)
        requires
            s * e - all * e <= all * 2,
            all * e - s * e <= all * 2,
            all >= 0,
            e == 0x20_0000_0000_0000,
    {
        assert(all * (e - 2) <= s * e);
        assert(all <= 2 * s);
    }
}

/// The gap on either side of a bar in its slot.
proof fn gaps_of_slots(slot: Quantity)
    requires
        spans(slot, 106),
    ensures
        ({
            let bar = product(slot, Quantity { bits: BAR_BITS });
            let gap = quotient(difference(slot, bar), whole(2));
            &&& is_finite(gap)
            &&& value(gap) >= 0
            &&& about(100 * value(gap), 19 * size(slot) as int, 20)
        }),
{
    let one = one_in_units() as int;
    small_wholes_are_exact(1);
    bars_of_slots(slot);
    bars_measure();
    products_measure(slot, Quantity { bits: BAR_BITS }, 106, 53);
    let bar = product(slot, Quantity { bits: BAR_BITS });
    let (x, y) = (size(slot) as int, size(bar) as int);
    let e = PARTS as int;
    powers_rise(-106, -106);
    powers_rise(106, 400);
    assert(50 * y <= 32 * x && 30 * x <= 50 * y) by (nonlinear_arith)
        requires
            (50 * y) * e <= (31 * x) * (e + 4),
            (31 * x) * e <= (50 * y) * (e + 4),
            x > 0,
            y >= 0,
            e == 0x20_0000_0000_0000,
    ;
    let less = crate::binary::negated(bar);
    assert(is_finite(less) && value(less) == -y);
    sums_are_off_by_little(slot, less, 400);
    let d = difference(slot, bar);
    let v = value(d);
    let exact = x - y;
    assert((v - exact) * e == v * e - exact * e && (exact - v) * e == exact * e - v * e)
        by (nonlinear_arith);
    // Fifty times the difference is nineteen times the slot.
    assert((50 * v) * e <= (19 * x) * (e + 13) && (19 * x) * e <= (50 * v) * (e + 13) && 5 * v >= x
        && v <= x) by (nonlinear_arith)
        requires
            v * e - exact * e <= exact * 2,
            exact * e - v * e <= exact * 2,
            exact == x - y,
            (50 * y) * e <= (31 * x) * (e + 4),
            (31 * x) * e <= (50 * y) * (e + 4),
            50 * y <= 32 * x,
            30 * x <= 50 * y,
            x > 0,
            e == 0x20_0000_0000_0000,
    {
        assert(exact * 2 <= x);
        assert(5 * exact * 2 >= 3 * x);
        assert(v * e <= exact * e + exact * 2);
        assert(v * e >= exact * e - exact * 2);
    }
    crate::precision::scaled_powers(-109, 3);
    vstd::arithmetic::power2::lemma2_to64();
    assert(spans(d, 109)) by {
        powers_rise(-109, -106);
        powers_rise(106, 109);
    }
    wholes_measure(2);
    small_wholes_are_exact(2);
    quotients_measure(d, whole(2), 109, 53);
    let h = size(quotient(d, whole(2))) as int;
    assert(h * (2 * one) == (2 * h) * one) by (nonlinear_arith);
    abouts_cancel(2 * h, v, one, 2);
    abouts_scale(2 * h, v, 50, 2);
    abouts_add_up(100 * h, 50 * v, 19 * x, 2, 13);
    abouts_widen(100 * h, 19 * x, 16, 20);
}

/// Bars stand in the middle of their slots, the slots side by side from the
/// left edge of the plot.
pub proof fn bars_stand_in_their_slots(plot: Plot, left: int, width: int, slot: nat)
    requires
        is_at(plot.x0, left),
        is_at(plot.width, width),
        0 <= left,
        0 < width,
        is_small(left),
        is_small(width),
        slot < 10,
    ensures
        about(
            1000 * value(crate::chart::bar_left(plot, slot)),
            (1000 * left + 100 * (width * slot) + 19 * width) * one_in_units(),
            60,
        ),
{
    let one = one_in_units() as int;
    small_wholes_are_exact(1);
    slots_measure(plot, width);
    let each = crate::chart::slot_width(plot);
    gaps_of_slots(each);
    let x = size(each) as int;
    let i = slot as int;
    let (l, w) = (left * one, width * one);
    sizes_at(plot.x0, left);
    assert(l >= 0 && w >= 0) by (nonlinear_arith)
        requires
            l == left * one,
            w == width * one,
            left >= 0,
            width >= 0,
            one >= 0,
    ;
    let before = product(each, whole(slot));
    slots_before_measure(each, slot);
    let p = value(before);
    let gap = quotient(difference(each, crate::chart::bar_width(plot)), whole(2));
    let h = value(gap);
    bars_are_small(left, width, l, x, p, h, i);
    sums_measure(plot.x0, before);
    let s = value(sum(plot.x0, before));
    sums_measure(sum(plot.x0, before), gap);
    let t = value(crate::chart::bar_left(plot, slot));
    // In thousandths of the width.
    abouts_scale(x * 10, w, i * 10, 2);
    assert((x * 10) * (i * 10) == 100 * (x * i) && w * (i * 10) == 10 * (w * i))
        by (nonlinear_arith);
    abouts_scale(p, x * i, 100, 3);
    assert(x * i >= 0 && w * i >= 0) by (nonlinear_arith)
        requires
            x >= 0,
            w >= 0,
            i >= 0,
    ;
    abouts_add_up(100 * p, 100 * (x * i), 10 * (w * i), 3, 2);
    abouts_scale(100 * p, 10 * (w * i), 10, 6);
    abouts_scale(x * 10, w, 19, 2);
    abouts_scale(100 * h, 19 * x, 10, 20);
    abouts_add_up(1000 * h, 190 * x, 19 * w, 20, 2);
    abouts_widen(1000 * p, 100 * (w * i), 6, 30);
    abouts_widen(1000 * h, 19 * w, 23, 30);
    let (near, far) = (1000 * l + 1000 * p, 1000 * l + 100 * (w * i));
    equals_are_about(1000 * l, 30);
    bounds_add_up(1000 * l, 1000 * l, 1000 * p, 100 * (w * i), 30);
    bounds_add_up(1000 * l, 1000 * l, 100 * (w * i), 1000 * p, 30);
    bounds_add_up(near, far, 1000 * h, 19 * w, 30);
    bounds_add_up(far, near, 19 * w, 1000 * h, 30);
    let all = far + 19 * w;
    abouts_scale(s, l + p, 1000, 3);
    abouts_widen(1000 * s, near, 3, 10);
    equals_are_about(1000 * h, 10);
    bounds_add_up(1000 * s, near, 1000 * h, 1000 * h, 10);
    bounds_add_up(near, 1000 * s, 1000 * h, 1000 * h, 10);
    abouts_add_up(1000 * s + 1000 * h, near + 1000 * h, all, 10, 30);
    abouts_scale(t, s + h, 1000, 3);
    abouts_add_up(1000 * t, 1000 * (s + h), all, 3, 41);
    abouts_widen(1000 * t, all, 45, 60);
    assert(all == (1000 * left + 100 * (width * i) + 19 * width) * one) by (nonlinear_arith)
        requires
            all == 1000 * l + 100 * (w * i) + 19 * w,
            l == left * one,
            w == width * one,
    ;
}

proof fn slots_before_measure(each: Quantity, slot: nat)
    requires
        spans(each, 106),
        slot < 10,
    ensures
        is_finite(product(each, whole(slot))),
        value(product(each, whole(slot))) >= 0,
        about(value(product(each, whole(slot))), size(each) * (slot as int), 3),
{
    let one = one_in_units() as int;
    small_wholes_are_exact(1);
    small_wholes_are_exact(slot);
    let before = product(each, whole(slot));
    let (x, i) = (size(each) as int, slot as int);
    if slot == 0 {
        crate::binary::nothing_is_zero();
        crate::binary::zero_takes_all(whole(0), each);
        crate::binary::products_commute(each, whole(0));
        crate::binary::only_zeros_have_no_size(before);
        assert(x * 0 == 0);
        equals_are_about(0, 3);
    } else {
        wholes_measure(slot);
        products_measure(each, whole(slot), 106, 53);
        let p = size(before) as int;
        assert(x * (i * one) == (x * i) * one) by (nonlinear_arith);
        abouts_cancel(p, x * i, one, 2);
        assert(x * i >= 0) by (nonlinear_arith)
            requires
                x >= 0,
                i >= 0,
        ;
        abouts_widen(p, x * i, 2, 3);
    }
}

proof fn bars_are_small(left: int, width: int, l: int, x: int, p: int, h: int, i: int)
    requires
        0 <= left < 0x20_0000_0000_0000,
        0 < width < 0x20_0000_0000_0000,
        l == left * one_in_units(),
        about(x * 10, width * one_in_units(), 2),
        about(p, x * i, 3),
        about(100 * h, 19 * x, 20),
        0 <= i < 10,
        p >= 0,
        h >= 0,
        x >= 0,
    ensures
        l + p <= power_units(400),
        2 * (l + p) + h <= power_units(400),
{
    let one = one_in_units() as int;
    let e = PARTS as int;
    small_wholes_are_exact(1);
    vstd::arithmetic::power2::lemma2_to64_rest();
    crate::precision::scaled_powers(0, 60);
    assert(power_units(0) == one);
    powers_rise(60, 400);
    let w = width * one;
    let most = 0x20_0000_0000_0000 * one;
    assert(l <= most && w <= most && l >= 0 && w >= 0) by (nonlinear_arith)
        requires
            0 <= left < 0x20_0000_0000_0000,
            0 < width < 0x20_0000_0000_0000,
            l == left * one,
            w == width * one,
            most == 0x20_0000_0000_0000 * one,
            one > 0,
    ;
    assert(x <= w) by (nonlinear_arith)
        requires
            (x * 10) * e <= w * (e + 2),
            w >= 0,
            x >= 0,
            e == 0x20_0000_0000_0000,
    ;
    assert(p <= 10 * x) by (nonlinear_arith)
        requires
            p * e <= (x * i) * (e + 3),
            0 <= i < 10,
            x >= 0,
            e == 0x20_0000_0000_0000,
    {
        assert(x * i <= 9 * x);
        assert((x * i) * (e + 3) <= (9 * x) * (e + 3));
        assert((9 * x) * (e + 3) <= (10 * x) * e);
    }
    assert(h <= x) by (nonlinear_arith)
        requires
            (100 * h) * e <= (19 * x) * (e + 20),
            x >= 0,
            h >= 0,
            e == 0x20_0000_0000_0000,
    ;
}

} // verus!
