//! What an observed rate is: what the charge moved by in the steps of the
//! last half hour, over the time that all of them took, both weighted by age.

use crate::folds::{abouts_are_off_by_little, folds_measure, rates_measure, MOST_TERMS};
use crate::learning::movements_measure;
use crate::measures::{abouts_add_up, abouts_cancel, abouts_scale};
use crate::measures::{products_measure, quotients_measure, roundings_measure};
use crate::measures::wholes_measure;
use crate::multiples::{magnitudes_are_multiples, multiples_are_large, products_are_multiples};
use crate::multiples::sums_are_multiples;
use crate::precision::PARTS;
use crate::quantity::{Quantity, ONE_BITS};
use crate::sample::Sample;
use crate::window::Decay;
use vstd::arithmetic::power2::pow2;
use vstd::prelude::*;

verus! {

use crate::binary::{
    is_finite, is_negative, one_in_units, one_is_one, only_zeros_have_no_size,
    order_is_that_of_values, product, quotient, size, small_wholes_are_exact, value, whole,
    with_sign,
};
use crate::folds::{added_up, extent, extent_of, is_off_by, total_of};
use crate::learning::{has_charge, moved_forward, seconds_to};
use crate::measures::{about, rounds_about, spans};
use crate::multiples::is_multiple;
use crate::positive::{is_moderate, is_plain};
use crate::precision::power_units;
use crate::sample::{elapsed, hours, progressed};
use crate::window::{
    session_rate, step_weight, weighted_hours, weighted_moves, window_span, window_steps,
};

/// Whether the step to sample `k` ends within the half hour before `now`.
pub open spec fn counts(session: Seq<Sample>, now: u64, k: int) -> bool {
    session[k].t + 1800 >= now
}

/// The size of the weight of the step to sample `k`, by the seconds since it
/// ended.
pub open spec fn weight_of(session: Seq<Sample>, now: u64, decay: Decay, k: int) -> int {
    size(decay.weights@[seconds_to(session[k].t, now)]) as int
}

/// The seconds of every step that counts, each by its weight.
pub open spec fn weighed_seconds(session: Seq<Sample>, now: u64, decay: Decay) -> int
    decreases session.len(),
{
    if session.len() < 2 {
        0
    } else {
        let k = session.len() - 1;
        weighed_seconds(session.drop_last(), now, decay) + if counts(session, now, k) {
            weight_of(session, now, decay, k) * seconds_to(session[k - 1].t, session[k].t)
        } else {
            0
        }
    }
}

/// What the charge moved by in every step that counts, each by its weight.
pub open spec fn weighed_moves(session: Seq<Sample>, now: u64, decay: Decay) -> Seq<int>
    decreases session.len(),
{
    if session.len() < 2 {
        Seq::empty()
    } else {
        let k = session.len() - 1;
        let before = weighed_moves(session.drop_last(), now, decay);
        if counts(session, now, k) {
            before.push(
                weight_of(session, now, decay, k) * moved_forward(session[k - 1], session[k]),
            )
        } else {
            before
        }
    }
}

spec fn terms_moved(session: Seq<Sample>, now: u64, decay: Decay) -> Seq<Quantity>
    decreases session.len(),
{
    if session.len() < 2 {
        Seq::empty()
    } else {
        let k = session.len() - 1;
        let before = terms_moved(session.drop_last(), now, decay);
        if counts(session, now, k) {
            before.push(
                product(
                    step_weight(session, now, decay, k - 1),
                    progressed(session[k - 1], session[k]),
                ),
            )
        } else {
            before
        }
    }
}

spec fn terms_taken(session: Seq<Sample>, now: u64, decay: Decay) -> Seq<Quantity>
    decreases session.len(),
{
    if session.len() < 2 {
        Seq::empty()
    } else {
        let k = session.len() - 1;
        let before = terms_taken(session.drop_last(), now, decay);
        if counts(session, now, k) {
            before.push(
                product(
                    step_weight(session, now, decay, k - 1),
                    hours(session[k - 1], session[k]),
                ),
            )
        } else {
            before
        }
    }
}

spec fn exact_taken(session: Seq<Sample>, now: u64, decay: Decay) -> Seq<int>
    decreases session.len(),
{
    if session.len() < 2 {
        Seq::empty()
    } else {
        let k = session.len() - 1;
        let before = exact_taken(session.drop_last(), now, decay);
        if counts(session, now, k) {
            before.push(
                (weight_of(session, now, decay, k) * seconds_to(session[k - 1].t, session[k].t))
                    * one_in_units(),
            )
        } else {
            before
        }
    }
}

proof fn sums_see_the_steps_alone(
    s: Seq<Sample>,
    t: Seq<Sample>,
    now: u64,
    decay: Decay,
    steps: Seq<usize>,
)
    requires
        forall|i: int|
            0 <= i < steps.len() ==> {
                let at = #[trigger] steps[i] as int;
                s[at] == t[at] && s[at + 1] == t[at + 1]
            },
    ensures
        weighted_moves(s, now, decay, steps) == weighted_moves(t, now, decay, steps),
        weighted_hours(s, now, decay, steps) == weighted_hours(t, now, decay, steps),
    decreases steps.len(),
{
    if steps.len() > 0 {
        let rest = steps.drop_last();
        assert forall|i: int| 0 <= i < rest.len() implies {
            let at = #[trigger] rest[i] as int;
            s[at] == t[at] && s[at + 1] == t[at + 1]
        } by {
            assert(rest[i] == steps[i]);
        }
        sums_see_the_steps_alone(s, t, now, decay, rest);
        assert(steps[steps.len() - 1] == steps.last());
    }
}

/// Every step that counts is added up.
proof fn windows_add_up_their_steps(session: Seq<Sample>, now: u64, decay: Decay)
    requires
        session.len() <= usize::MAX,
    ensures
        weighted_moves(session, now, decay, window_steps(session, now)) == added_up(
            terms_moved(session, now, decay),
        ),
        weighted_hours(session, now, decay, window_steps(session, now)) == added_up(
            terms_taken(session, now, decay),
        ),
        terms_moved(session, now, decay).len() == weighed_moves(session, now, decay).len(),
        terms_taken(session, now, decay).len() == weighed_moves(session, now, decay).len(),
        exact_taken(session, now, decay).len() == weighed_moves(session, now, decay).len(),
        weighed_moves(session, now, decay).len() <= session.len(),
        window_steps(session, now).len() == weighed_moves(session, now, decay).len(),
        weighed_seconds(session, now, decay) >= 0,
        total_of(exact_taken(session, now, decay)) == weighed_seconds(session, now, decay)
            * one_in_units(),
        extent_of(exact_taken(session, now, decay)) == total_of(exact_taken(session, now, decay)),
    decreases session.len(),
{
    let one = one_in_units() as int;
    if session.len() < 2 {
        assert(0 * one == 0);
    } else {
        let rest = session.drop_last();
        let k = session.len() - 1;
        windows_add_up_their_steps(rest, now, decay);
        let before = window_steps(rest, now);
        crate::window::window_steps_are_recent(rest, now);
        assert forall|i: int| 0 <= i < before.len() implies {
            let at = #[trigger] before[i] as int;
            rest[at] == session[at] && rest[at + 1] == session[at + 1]
        } by {}
        sums_see_the_steps_alone(rest, session, now, decay, before);
        assert(counts(session, now, k) == crate::window::in_window(session.last(), now));
        if counts(session, now, k) {
            let all = window_steps(session, now);
            assert(all.drop_last() =~= before);
            let (q, h, d) = (
                terms_moved(session, now, decay),
                terms_taken(session, now, decay),
                exact_taken(session, now, decay),
            );
            assert(q.drop_last() =~= terms_moved(rest, now, decay));
            assert(h.drop_last() =~= terms_taken(rest, now, decay));
            assert(d.drop_last() =~= exact_taken(rest, now, decay));
            let x = weight_of(session, now, decay, k) * seconds_to(
                session[k - 1].t,
                session[k].t,
            );
            assert(x >= 0) by (nonlinear_arith)
                requires
                    x == weight_of(session, now, decay, k) * seconds_to(
                        session[k - 1].t,
                        session[k].t,
                    ),
                    weight_of(session, now, decay, k) >= 0,
                    seconds_to(session[k - 1].t, session[k].t) >= 0,
            ;
            let y = weighed_seconds(rest, now, decay);
            assert((y + x) * one == y * one + x * one) by (nonlinear_arith);
            assert(x * one >= 0) by (nonlinear_arith)
                requires
                    x >= 0,
                    one >= 0,
            ;
        }
    }
}

/// Whether the step to sample `k` is one whose figures do not vanish in
/// rounding: a moderate weight, plain charges that are not vast, and a time
/// of less than two to the power of 53 seconds.
pub open spec fn is_ordinary(session: Seq<Sample>, now: u64, decay: Decay, k: int) -> bool {
    &&& is_moderate(decay.weights@[seconds_to(session[k].t, now)])
    &&& is_plain(session[k - 1].charge()) && has_charge(session[k - 1])
    &&& is_plain(session[k].charge()) && has_charge(session[k])
    &&& seconds_to(session[k - 1].t, session[k].t) < 0x20_0000_0000_0000
}

/// One weighted movement.
proof fn weighted_moves_measure(w: Quantity, from: Sample, to: Sample)
    requires
        is_moderate(w),
        is_plain(from.charge()),
        is_plain(to.charge()),
        has_charge(from),
        has_charge(to),
    ensures
        ({
            let x = product(w, progressed(from, to));
            let d = size(w) * moved_forward(from, to);
            &&& is_finite(x)
            &&& size(x) <= power_units(270)
            &&& is_multiple(size(x), 806)
            &&& is_off_by(value(x) * one_in_units(), d, extent(d), 6)
        }),
{
    let one = one_in_units() as int;
    small_wholes_are_exact(1);
    let q = progressed(from, to);
    movements_measure(from, to);
    let (a, b) = if from.state == crate::power::PowerState::Charging {
        (to.charge(), from.charge())
    } else {
        (from.charge(), to.charge())
    };
    crate::positive::charges_are_multiples(a);
    crate::positive::charges_are_multiples(b);
    sums_are_multiples(a, crate::binary::negated(b), 922);
    magnitudes_are_multiples(w.magnitude() as nat, 958);
    products_are_multiples(w, q, 958, 922, 806);
    let x = product(w, q);
    let m = moved_forward(from, to);
    let (sw, sq) = (size(w) as int, size(q) as int);
    let d = sw * m;
    crate::measures::powers_rise(0, 270);
    if sq == 0 {
        // Nothing moved, and nothing is added.
        only_zeros_have_no_size(q);
        crate::binary::zero_takes_all(q, w);
        crate::binary::products_commute(q, w);
        only_zeros_have_no_size(x);
        let v = extent(m);
        assert(v == 0) by (nonlinear_arith)
            requires
                v * PARTS <= v * 2,
                v >= 0,
                PARTS == 0x20_0000_0000_0000,
        ;
        assert(d == 0) by (nonlinear_arith)
            requires
                d == sw * m,
                m == 0,
        ;
        assert(0 * one == 0);
    } else {
        multiples_are_large(size(q), 922);
        let p = with_sign(false, q.magnitude() as nat);
        assert(size(p) == size(q));
        crate::measures::powers_rise(-202, -152);
        assert(power_units(-152) == pow2(922));
        assert(spans(p, 202));
        products_measure(w, p, 64, 202);
        crate::binary::nearest_exists(size(w) * size(q), one_in_units());
        let mag = crate::binary::nearest(size(w) * size(q), one_in_units());
        assert(x == with_sign(is_negative(q), mag));
        assert(product(w, p) == with_sign(false, mag));
        assert(x.magnitude() == mag && is_negative(x) == is_negative(q));
        assert(size(product(w, p)) == size(x));
        crate::measures::powers_rise(266, 270);
        let sx = size(x) as int;
        // What was added, and what stands for it.
        assert(sw * sq >= 0 && sx * one >= 0) by (nonlinear_arith)
            requires
                sw >= 0,
                sq >= 0,
                sx >= 0,
                one >= 0,
        ;
        abouts_are_off_by_little(sx * one, sw * sq, 2);
        signed_products(value(q), sw, sq, sx, one, m, is_negative(q), value(x));
    }
}

proof fn signed_products(
    v: int,
    sw: int,
    sq: int,
    sx: int,
    one: int,
    m: int,
    negative: bool,
    x: int,
)
    requires
        v == if negative {
            -sq
        } else {
            sq
        },
        x == if negative {
            -sx
        } else {
            sx
        },
        sw >= 0,
        sq >= 0,
        sx >= 0,
        one > 0,
        extent(sx * one - sw * sq) * PARTS <= (sw * sq) * 3,
        extent(v - m) * PARTS <= extent(m) * 2,
    ensures
        is_off_by(x * one, sw * m, extent(sw * m), 6),
{
    let e = PARTS as int;
    let w = sw * v;
    assert(x * one - w == if negative {
        -(sx * one - sw * sq)
    } else {
        sx * one - sw * sq
    }) by (nonlinear_arith)
        requires
            w == sw * v,
            v == if negative {
                -sq
            } else {
                sq
            },
            x == if negative {
                -sx
            } else {
                sx
            },
    ;
    let i = extent(x * one - w);
    assert(i * e <= (sw * sq) * 3);
    let d = sw * m;
    let k = extent(v - m);
    assert(extent(w - d) == sw * k) by (nonlinear_arith)
        requires
            w == sw * v,
            d == sw * m,
            k == extent(v - m),
            sw >= 0,
    {
        assert(w - d == sw * (v - m));
        assert(d - w == sw * (m - v));
        assert(v - m >= 0 ==> sw * (v - m) >= 0);
        assert(m - v >= 0 ==> sw * (m - v) >= 0);
    }
    let g = extent(m);
    assert(extent(d) == sw * g) by (nonlinear_arith)
        requires
            d == sw * m,
            g == extent(m),
            sw >= 0,
    {
        assert(-d == sw * (-m));
        assert(m >= 0 ==> sw * m >= 0);
        assert(m < 0 ==> sw * (-m) >= 0);
    }
    assert((sw * k) * e <= (sw * g) * 2) by (nonlinear_arith)
        requires
            k * e <= g * 2,
            sw >= 0,
    {
        assert((sw * k) * e == sw * (k * e));
        assert(sw * (k * e) <= sw * (g * 2));
    }
    assert(3 * sq <= 4 * g) by (nonlinear_arith)
        requires
            k * e <= g * 2,
            sq <= g + k,
            g >= 0,
            e == 0x20_0000_0000_0000,
    ;
    assert((sw * sq) * 3 <= (sw * g) * 4) by (nonlinear_arith)
        requires
            3 * sq <= 4 * g,
            sw >= 0,
    ;
    let z = extent(x * one - d);
    assert(z * e <= i * e + (sw * k) * e) by (nonlinear_arith)
        requires
            z <= i + sw * k,
            e > 0,
    ;
    assert((sw * g) * 4 + (sw * g) * 2 == (sw * g) * 6) by (nonlinear_arith);
}

/// One weighted time.
proof fn weighted_times_measure(w: Quantity, from: Sample, to: Sample)
    requires
        is_moderate(w),
        seconds_to(from.t, to.t) < 0x20_0000_0000_0000,
    ensures
        ({
            let y = product(w, hours(from, to));
            let d = (size(w) * seconds_to(from.t, to.t)) * one_in_units();
            &&& is_finite(y)
            &&& !is_negative(y)
            &&& size(y) <= power_units(180)
            &&& is_multiple(size(y), 894)
            &&& is_off_by(value(y) * (3600 * one_in_units()), d, extent(d), 6)
        }),
{
    let one = one_in_units() as int;
    let n = seconds_to(from.t, to.t) as nat;
    assert(n == elapsed(from.t, to.t));
    let h = hours(from, to);
    let y = product(w, h);
    wholes_measure(3600);
    small_wholes_are_exact(3600);
    let sw = size(w) as int;
    crate::measures::powers_rise(0, 180);
    if n == 0 {
        crate::binary::nothing_is_zero();
        crate::binary::parts_of_nothing_are_nothing(whole(3600));
        let zero = Quantity { bits: 0 };
        assert(h == zero);
        crate::binary::zero_takes_all(zero, w);
        crate::binary::products_commute(zero, w);
        only_zeros_have_no_size(y);
        crate::measures::powers_rise(-64, -64);
        assert(0nat * pow2(894) == 0) by (nonlinear_arith);
        assert((sw * 0) * one == 0) by (nonlinear_arith);
        assert(0 * (3600 * one) == 0) by (nonlinear_arith);
        crate::binary::nearest_exists(size(w) * size(h), one_in_units());
        assert(sw * 0 == 0);
        crate::binary::zero_stays_zero(one_in_units());
    } else {
        wholes_measure(n);
        quotients_measure(whole(n), whole(3600), 53, 53);
        products_measure(w, h, 64, 106);
        crate::measures::powers_rise(170, 180);
        crate::pace::hours_are_seconds(from, to);
        crate::measures::powers_rise(-106, -106);
        magnitudes_are_multiples(w.magnitude() as nat, 958);
        magnitudes_are_multiples(h.magnitude() as nat, 1010);
        products_are_multiples(w, h, 958, 1010, 894);
        let (sh, sy) = (size(h) as int, size(y) as int);
        assert(sh * (3600 * one) == (sh * 3600) * one) by (nonlinear_arith);
        let no = n * one;
        abouts_cancel(sh * 3600, no, one, 2);
        // Three thousand six hundred times the weighted hours.
        let d = (sw * n) * one;
        abouts_scale(sy * one, sw * sh, 3600, 2);
        abouts_scale(sh * 3600, no, sw, 2);
        assert((sw * sh) * 3600 == (sh * 3600) * sw) by (nonlinear_arith);
        assert(no * sw == d) by (nonlinear_arith)
            requires
                no == n * one,
                d == (sw * n) * one,
        ;
        let left = sy * (3600 * one);
        assert((sy * one) * 3600 == left) by (nonlinear_arith)
            requires
                left == sy * (3600 * one),
        ;
        assert(left >= 0 && d >= 0) by (nonlinear_arith)
            requires
                left == sy * (3600 * one),
                d == (sw * n) * one,
                sy >= 0,
                sw >= 0,
                one >= 0,
        ;
        abouts_add_up(left, (sh * 3600) * sw, d, 2, 2);
        abouts_are_off_by_little(left, d, 5);
    }
}

proof fn terms_measure(session: Seq<Sample>, now: u64, decay: Decay)
    requires
        session.len() <= usize::MAX,
        forall|k: int|
            0 < k < session.len() && #[trigger] counts(session, now, k) ==> is_ordinary(
                session,
                now,
                decay,
                k,
            ),
    ensures
        forall|i: int|
            0 <= i < terms_moved(session, now, decay).len() ==> {
                let (x, d) = (
                    #[trigger] terms_moved(session, now, decay)[i],
                    weighed_moves(session, now, decay)[i],
                );
                &&& is_finite(x)
                &&& size(x) <= power_units(270)
                &&& is_multiple(size(x), 806)
                &&& is_off_by(value(x) * one_in_units(), d, extent(d), 6)
            },
        forall|i: int|
            0 <= i < terms_taken(session, now, decay).len() ==> {
                let (y, d) = (
                    #[trigger] terms_taken(session, now, decay)[i],
                    exact_taken(session, now, decay)[i],
                );
                &&& is_finite(y)
                &&& !is_negative(y)
                &&& size(y) <= power_units(180)
                &&& is_multiple(size(y), 894)
                &&& is_off_by(value(y) * (3600 * one_in_units()), d, extent(d), 6)
            },
    decreases session.len(),
{
    if session.len() >= 2 {
        let rest = session.drop_last();
        let k = session.len() - 1;
        assert forall|j: int|
            0 < j < rest.len() && #[trigger] counts(rest, now, j) implies is_ordinary(
            rest,
            now,
            decay,
            j,
        ) by {
            assert(rest[j] == session[j] && rest[j - 1] == session[j - 1]);
            assert(counts(session, now, j));
        }
        terms_measure(rest, now, decay);
        windows_add_up_their_steps(rest, now, decay);
        if counts(session, now, k) {
            let w = step_weight(session, now, decay, k - 1);
            assert(w == decay.weights@[seconds_to(session[k].t, now)]);
            weighted_moves_measure(w, session[k - 1], session[k]);
            weighted_times_measure(w, session[k - 1], session[k]);
        }
    }
}

proof fn folds_are_multiples(q: Seq<Quantity>, k: nat)
    requires
        k <= 1800,
        is_finite(added_up(q)),
        forall|i: int|
            0 <= i < q.len() ==> is_finite(#[trigger] q[i]) && is_multiple(size(q[i]), k),
    ensures
        is_multiple(size(added_up(q)), k),
    decreases q.len(),
{
    if q.len() == 0 {
        assert(0nat * pow2(k) == 0) by (nonlinear_arith);
    } else {
        let rest = q.drop_last();
        assert forall|i: int| 0 <= i < rest.len() implies is_finite(#[trigger] rest[i])
            && is_multiple(size(rest[i]), k) by {
            assert(rest[i] == q[i]);
        }
        assert(q[q.len() - 1] == q.last());
        folds_are_multiples(rest, k);
        sums_are_multiples(added_up(rest), q.last(), k);
    }
}

proof fn folds_are_not_negative(q: Seq<Quantity>)
    requires
        is_finite(added_up(q)),
        forall|i: int| 0 <= i < q.len() ==> is_finite(#[trigger] q[i]) && !is_negative(q[i]),
    ensures
        !is_negative(added_up(q)),
    decreases q.len(),
{
    if q.len() > 0 {
        let rest = q.drop_last();
        assert forall|i: int| 0 <= i < rest.len() implies is_finite(#[trigger] rest[i])
            && !is_negative(rest[i]) by {
            assert(rest[i] == q[i]);
        }
        assert(q[q.len() - 1] == q.last());
        folds_are_not_negative(rest);
        crate::between::sums_are_close(added_up(rest), q.last());
    }
}

/// An observed rate times the time of the steps that count is what the charge
/// moved by in them, each by its weight. Every step that ends within the half
/// hour counts, with its time and with its movement, whether the charge moved
/// or not.
pub proof fn observed_rates_are_movement_over_time(session: Seq<Sample>, now: u64, decay: Decay)
    requires
        session.len() <= MOST_TERMS,
        forall|k: int|
            0 < k < session.len() && #[trigger] counts(session, now, k) ==> is_ordinary(
                session,
                now,
                decay,
                k,
            ),
    ensures
        session_rate(session, now, decay) matches Some((rate, _)) ==> {
            let moves = weighed_moves(session, now, decay);
            &&& !is_negative(rate)
            &&& is_off_by(
                size(rate) * weighed_seconds(session, now, decay),
                3600 * total_of(moves),
                3600 * extent_of(moves),
                200 * session.len(),
            )
        },
{
    let one = one_in_units() as int;
    small_wholes_are_exact(1);
    windows_add_up_their_steps(session, now, decay);
    terms_measure(session, now, decay);
    let (q, h) = (terms_moved(session, now, decay), terms_taken(session, now, decay));
    let (d, t) = (weighed_moves(session, now, decay), exact_taken(session, now, decay));
    folds_measure(q, d, one_in_units(), 6, 270);
    folds_measure(h, t, 3600 * one_in_units(), 6, 180);
    if let Some((rate, _)) = session_rate(session, now, decay) {
        let (moved, time) = (added_up(q), added_up(h));
        assert(rate == quotient(moved, time));
        folds_are_multiples(q, 806);
        folds_are_multiples(h, 894);
        folds_are_not_negative(h);
        only_zeros_have_no_size(moved);
        only_zeros_have_no_size(time);
        multiples_are_large(size(moved), 806);
        multiples_are_large(size(time), 894);
        let k = q.len() as int;
        let n = session.len() as int;
        assert(k >= 1);
        // Neither tiny nor vast.
        let (a, b) = (power_units(270) as int, power_units(180) as int);
        crate::precision::scaled_powers(270, 26);
        crate::precision::scaled_powers(180, 26);
        vstd::arithmetic::power2::lemma2_to64();
        assert(2 * k * a <= 0x400_0000 * a && 2 * k * b <= 0x400_0000 * b) by (nonlinear_arith)
            requires
                k <= 0x100_0000,
                a >= 0,
                b >= 0,
        ;
        crate::measures::powers_rise(-300, -268);
        crate::measures::powers_rise(296, 300);
        crate::measures::powers_rise(-210, -180);
        crate::measures::powers_rise(206, 210);
        assert(power_units(-268) == pow2(806));
        assert(power_units(-180) == pow2(894));
        assert(spans(moved, 300));
        assert(spans(time, 210));
        quotients_measure(moved, time, 300, 210);
        let (r, m, y) = (size(rate) as int, size(moved) as int, size(time) as int);
        assert(r * y >= 0 && m * one >= 0) by (nonlinear_arith)
            requires
                r >= 0,
                y >= 0,
                m >= 0,
                one >= 0,
        ;
        abouts_are_off_by_little(r * y, m * one, 2);
        let w = weighed_seconds(session, now, decay);
        let wo = w * one;
        let churn = extent_of(d);
        crate::folds::extents_hold_totals(d);
        crate::folds::extents_hold_totals(t);
        assert(churn * ((6 + 6) * k) <= churn * (14 * n)) by (nonlinear_arith)
            requires
                0 <= k <= n,
                churn >= 0,
        ;
        assert(wo * ((6 + 6) * k) <= wo * (12 * n)) by (nonlinear_arith)
            requires
                0 <= k <= n,
                wo >= 0,
        ;
        rates_measure(r, y, m, w, total_of(d), churn, one, one, n);
    }
}

/// The minutes that a rate was observed over reach from where the first step
/// that counts begins to where the last one ends, and are at least one.
pub proof fn observed_minutes_span_the_window(
    session: Seq<Sample>,
    now: u64,
    decay: Decay,
    first: int,
    last: int,
)
    requires
        session.len() <= usize::MAX,
        0 < first <= last < session.len(),
        counts(session, now, first),
        counts(session, now, last),
        forall|k: int| 0 < k < first ==> !#[trigger] counts(session, now, k),
        forall|k: int| last < k < session.len() ==> !#[trigger] counts(session, now, k),
        0 < seconds_to(session[first - 1].t, session[last].t) < 0x20_0000_0000_0000,
    ensures
        session_rate(session, now, decay) matches Some((_, minutes)) ==> {
            let seconds = seconds_to(session[first - 1].t, session[last].t);
            &&& rounds_about(minutes as nat, 0xffff_ffff, seconds as nat, 60, 5)
            &&& minutes >= 1
        },
{
    let steps = window_steps(session, now);
    windows_reach(session, now, first, last);
    crate::window::observations_run_forward(session, now, decay);
    let (a, b) = (session[first - 1], session[last]);
    let n = seconds_to(a.t, b.t) as nat;
    assert(n == elapsed(a.t, b.t));
    assert(window_span(session, steps) == product(hours(a, b), whole(60)));
    let one = one_in_units() as int;
    wholes_measure(n);
    wholes_measure(3600);
    small_wholes_are_exact(3600);
    crate::readings::scaled_parts_measure(whole(n), whole(3600), 60, 53, 53);
    let z = product(hours(a, b), whole(60));
    let s = size(z) as int;
    assert(s * (3600 * one) == (s * 60) * (60 * one)) by (nonlinear_arith);
    let no = n * one;
    assert((60 * no) * one == no * (60 * one)) by (nonlinear_arith);
    abouts_cancel(s * 60, no, 60 * one, 5);
    roundings_measure(z, u32::MAX as nat, n, 60, 5);
}

proof fn windows_reach(session: Seq<Sample>, now: u64, first: int, last: int)
    requires
        session.len() <= usize::MAX,
        0 < first <= last < session.len(),
        counts(session, now, first),
        counts(session, now, last),
        forall|k: int| 0 < k < first ==> !#[trigger] counts(session, now, k),
        forall|k: int| last < k < session.len() ==> !#[trigger] counts(session, now, k),
    ensures
        window_steps(session, now).len() > 0,
        window_steps(session, now).first() == first - 1,
        window_steps(session, now).last() == last - 1,
    decreases session.len(),
{
    let rest = session.drop_last();
    let k = session.len() - 1;
    let before = window_steps(rest, now);
    assert(crate::window::in_window(session.last(), now) == counts(session, now, k));
    if last < k {
        assert(!counts(session, now, k));
        assert forall|j: int| 0 < j < first implies !#[trigger] counts(rest, now, j) by {
            assert(!counts(session, now, j));
        }
        assert forall|j: int| last < j < rest.len() implies !#[trigger] counts(rest, now, j) by {
            assert(!counts(session, now, j));
        }
        windows_reach(rest, now, first, last);
    } else if first < last {
        let m = last_before(session, now, first, last - 1);
        assert forall|j: int| 0 < j < first implies !#[trigger] counts(rest, now, j) by {
            assert(!counts(session, now, j));
        }
        assert forall|j: int| m < j < rest.len() implies !#[trigger] counts(rest, now, j) by {
            assert(!counts(session, now, j));
        }
        windows_reach(rest, now, first, m);
        assert(window_steps(session, now).first() == before.first());
    } else {
        nothing_counts(rest, now, session);
    }
}

proof fn last_before(session: Seq<Sample>, now: u64, first: int, from: int) -> (m: int)
    requires
        0 < first <= from < session.len(),
        counts(session, now, first),
    ensures
        first <= m <= from,
        counts(session, now, m),
        forall|j: int| m < j <= from ==> !#[trigger] counts(session, now, j),
    decreases from,
{
    if counts(session, now, from) {
        from
    } else {
        last_before(session, now, first, from - 1)
    }
}

proof fn nothing_counts(rest: Seq<Sample>, now: u64, session: Seq<Sample>)
    requires
        rest.len() <= session.len(),
        forall|j: int| 0 <= j < rest.len() ==> rest[j] == session[j],
        forall|j: int| 0 < j < rest.len() ==> !#[trigger] counts(session, now, j),
    ensures
        window_steps(rest, now).len() == 0,
    decreases rest.len(),
{
    if rest.len() >= 2 {
        assert(!counts(session, now, rest.len() - 1));
        nothing_counts(rest.drop_last(), now, session);
    }
}

/// A rate is observed wherever the steps that count reach over more than a
/// minute and the charge moved forward in them.
pub proof fn observations_are_owed(
    session: Seq<Sample>,
    now: u64,
    decay: Decay,
    first: int,
    last: int,
)
    requires
        session.len() <= MOST_TERMS,
        forall|k: int|
            0 < k < session.len() && #[trigger] counts(session, now, k) ==> is_ordinary(
                session,
                now,
                decay,
                k,
            ),
        0 < first <= last < session.len(),
        counts(session, now, first),
        counts(session, now, last),
        forall|k: int| 0 < k < first ==> !#[trigger] counts(session, now, k),
        forall|k: int| last < k < session.len() ==> !#[trigger] counts(session, now, k),
        60 < seconds_to(session[first - 1].t, session[last].t) < 0x20_0000_0000_0000,
        weighed_seconds(session, now, decay) > 0,
        total_of(weighed_moves(session, now, decay)) * PARTS > extent_of(
            weighed_moves(session, now, decay),
        ) * (14 * session.len()),
    ensures
        session_rate(session, now, decay) is Some,
{
    let one = one_in_units() as int;
    small_wholes_are_exact(1);
    let steps = window_steps(session, now);
    windows_reach(session, now, first, last);
    windows_add_up_their_steps(session, now, decay);
    terms_measure(session, now, decay);
    let (q, h) = (terms_moved(session, now, decay), terms_taken(session, now, decay));
    let (d, t) = (weighed_moves(session, now, decay), exact_taken(session, now, decay));
    folds_measure(q, d, one_in_units(), 6, 270);
    folds_measure(h, t, 3600 * one_in_units(), 6, 180);
    let (moved, time) = (added_up(q), added_up(h));
    let zero = Quantity { bits: 0 };
    let k = q.len() as int;
    let n = session.len() as int;
    // Forward.
    crate::folds::extents_hold_totals(d);
    let churn = extent_of(d);
    let m = value(moved);
    assert(churn * ((6 + 6) * k) <= churn * (14 * n)) by (nonlinear_arith)
        requires
            0 <= k <= n,
            churn >= 0,
    ;
    order_is_that_of_values(moved, zero);
    if m <= 0 {
        let x = total_of(d);
        assert(m * one <= 0) by (nonlinear_arith)
            requires
                m <= 0,
                one > 0,
        ;
        assert(x * PARTS <= extent(m * one - x) * PARTS) by (nonlinear_arith)
            requires
                x <= extent(m * one - x),
        ;
    }
    // In some time.
    let w = weighed_seconds(session, now, decay);
    let wo = w * one;
    assert(wo > 0) by (nonlinear_arith)
        requires
            wo == w * one,
            w > 0,
            one > 0,
    ;
    order_is_that_of_values(time, zero);
    let y = value(time);
    if y <= 0 {
        let z = y * (3600 * one);
        assert(z <= 0) by (nonlinear_arith)
            requires
                z == y * (3600 * one),
                y <= 0,
                one > 0,
        ;
        assert(wo * PARTS <= extent(z - wo) * PARTS) by (nonlinear_arith)
            requires
                wo <= extent(z - wo),
        ;
        assert(wo * ((6 + 6) * k) < wo * PARTS) by (nonlinear_arith)
            requires
                0 <= k <= 0x100_0000,
                wo > 0,
                PARTS == 0x20_0000_0000_0000,
        ;
    }
    // Over a minute.
    let (a, b) = (session[first - 1], session[last]);
    let c = seconds_to(a.t, b.t) as nat;
    assert(c == elapsed(a.t, b.t));
    wholes_measure(c);
    wholes_measure(3600);
    small_wholes_are_exact(3600);
    crate::readings::scaled_parts_measure(whole(c), whole(3600), 60, 53, 53);
    let z = product(hours(a, b), whole(60));
    assert(window_span(session, steps) == z);
    let s = size(z) as int;
    assert(s * (3600 * one) == (s * 60) * (60 * one)) by (nonlinear_arith);
    let co = c * one;
    assert((60 * co) * one == co * (60 * one)) by (nonlinear_arith);
    abouts_cancel(s * 60, co, 60 * one, 5);
    assert(co >= 61 * one) by (nonlinear_arith)
        requires
            co == c * one,
            c >= 61,
            one > 0,
    ;
    assert(s >= one) by (nonlinear_arith)
        requires
            co * PARTS <= (s * 60) * (PARTS + 5),
            co >= 61 * one,
            one > 0,
            s >= 0,
            PARTS == 0x20_0000_0000_0000,
    ;
    one_is_one();
    order_is_that_of_values(z, Quantity { bits: ONE_BITS });
}

/// The weight of a step halves once every eight minutes of its age.
pub proof fn eight_minutes_are_one_halving(age: nat)
    requires
        0 < age < 0x20_0000_0000_0000,
    ensures
        about(480 * size(crate::window::halvings(age)) as int, age * one_in_units() as int, 5),
        age % 480 == 0 ==> crate::exact::is_at(crate::window::halvings(age), (age / 480) as int),
{
    let one = one_in_units() as int;
    small_wholes_are_exact(1);
    wholes_measure(age);
    wholes_measure(60);
    wholes_measure(8);
    small_wholes_are_exact(age);
    small_wholes_are_exact(60);
    small_wholes_are_exact(8);
    let minutes = quotient(whole(age), whole(60));
    quotients_measure(whole(age), whole(60), 53, 53);
    quotients_measure(minutes, whole(8), 106, 53);
    let (x, y) = (size(minutes) as int, size(crate::window::halvings(age)) as int);
    assert(x * (60 * one) == (60 * x) * one) by (nonlinear_arith);
    crate::measures::abouts_cancel(60 * x, age * one, one, 2);
    assert(y * (8 * one) == (8 * y) * one) by (nonlinear_arith);
    crate::measures::abouts_cancel(8 * y, x, one, 2);
    crate::measures::abouts_scale(8 * y, x, 60, 2);
    assert(age * one >= 0) by (nonlinear_arith)
        requires
            one >= 0,
    ;
    crate::measures::abouts_add_up(480 * y, 60 * x, age * one, 2, 2);
    if age % 480 == 0 {
        let k = (age / 480) as int;
        crate::exact::wholes_are_at(age);
        crate::exact::wholes_are_at(60);
        crate::exact::wholes_are_at(8);
        crate::exact::quotients_at(whole(age), whole(60), 8 * k, 60);
        crate::exact::quotients_at(minutes, whole(8), k, 8);
    }
}

} // verus!
