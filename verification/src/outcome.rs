//! What became of past predictions, as fractions of what the battery did.

use crate::learning::movements_measure;
use crate::measures::{abouts_add_up, abouts_cancel, abouts_scale, abouts_widen};
use crate::measures::{quotients_measure, roundings_measure, wholes_measure};
use crate::power::PowerState;
use crate::precision::PARTS;
use crate::quantity::{Quantity, THREE_BITS};
use crate::sample::Sample;
use crate::scoring::Checkpoint;
use vstd::prelude::*;

verus! {

use crate::binary::{
    is_negative, one_in_units, only_zeros_have_no_size, order_is_that_of_values, product, quotient,
    size, small_wholes_are_exact, value, whole,
};
use crate::figures::way_left;
use crate::folds::{extent, extent_of, total_of};
use crate::learning::{has_charge, moved_forward, seconds_to};
use crate::measures::{about, rounds_about, spans};
use crate::precision::power_units;
use crate::sample::{elapsed, hours, progressed};
use crate::scoring::{
    accuracy_of, checkpoint_of, close_calls, error_sum, instant_readings, is_scorable,
    moved_too_little, scored, session_end, since_moment, total_error, total_instant_miss,
    total_miss,
};

/// Whether a session breaks off before sample `k`: the state is another, or
/// more than ten minutes passed.
pub open spec fn breaks(s: Seq<Sample>, k: int) -> bool {
    s[k].state != s[k - 1].state || s[k].t > s[k - 1].t + 600
}

/// Whether the session of sample `at` ends with sample `end`.
pub open spec fn runs_to(s: Seq<Sample>, at: int, end: int) -> bool {
    &&& 0 <= at <= end < s.len()
    &&& forall|k: int| at < k <= end ==> !#[trigger] breaks(s, k)
    &&& end + 1 < s.len() ==> breaks(s, end + 1)
}

/// Whether `c` is the checkpoint of the prediction made at `from`, in a
/// session that ended with `last`. What it realized is the percent still to
/// travel in its own direction, times the time until `last`, over the percent
/// travelled until then.
pub open spec fn is_checkpoint(c: Checkpoint, from: Sample, last: Sample) -> bool {
    &&& c.t == from.t
    &&& c.percent == from.percent
    &&& c.state == from.state
    &&& Some(c.predicted_min) == from.predicted_min
    &&& c.instant_min == from.instant_min
    &&& way_left(from.percent, from.state) > 0 ==> rounds_about(
        c.realized_min as nat,
        0xffff_ffff,
        (way_left(from.percent, from.state) * seconds_to(from.t, last.t) * one_in_units()) as nat,
        (60 * moved_forward(from, last)) as nat,
        40,
    )
    &&& way_left(from.percent, from.state) == 0 ==> c.realized_min == 0
}

proof fn three_is_whole()
    ensures
        value(Quantity { bits: THREE_BITS }) == 3 * one_in_units(),
        size(Quantity { bits: THREE_BITS }) == 3 * one_in_units(),
{
    vstd::arithmetic::power2::lemma2_to64();
    crate::exact::patterns_are_at(THREE_BITS, 0x18_0000_0000_0000, 1, 3);
}

/// The percent travelled, as it was computed.
proof fn travels_measure(from: Sample, last: Sample)
    requires
        has_charge(from),
        has_charge(last),
        !moved_too_little(from, last),
    ensures
        spans(progressed(from, last), 210),
        moved_forward(from, last) > 0,
        about(size(progressed(from, last)) as int, moved_forward(from, last), 5),
        moved_forward(from, last) * 2 >= 5 * one_in_units(),
{
    let one = one_in_units() as int;
    small_wholes_are_exact(1);
    movements_measure(from, last);
    three_is_whole();
    let q = progressed(from, last);
    order_is_that_of_values(q, Quantity { bits: THREE_BITS });
    let (v, d) = (value(q), moved_forward(from, last));
    assert(v >= 3 * one);
    let e = PARTS as int;
    assert(d > 0 && d * 2 >= 5 * one) by (nonlinear_arith)
        requires
            (v - d) * e <= extent(d) * 2,
            (d - v) * e <= extent(d) * 2,
            v >= 3 * one,
            one > 0,
            e == 0x20_0000_0000_0000,
    ;
    assert((v - d) * e == v * e - d * e) by (nonlinear_arith);
    assert((d - v) * e == d * e - v * e) by (nonlinear_arith);
    assert(v * e <= d * (e + 5)) by (nonlinear_arith)
        requires
            v * e - d * e <= d * 2,
            d > 0,
    ;
    assert(d * e <= v * (e + 5)) by (nonlinear_arith)
        requires
            d * e - v * e <= d * 2,
            d > 0,
            v > 0,
            e == 0x20_0000_0000_0000,
    {
        assert(d * (e - 2) <= v * e);
        assert(d <= 2 * v);
    }
    crate::measures::powers_rise(-210, 0);
    crate::measures::powers_rise(202, 210);
    assert(power_units(0) == one);
}

/// What a checkpoint says was realized.
proof fn realized_minutes_measure(from: Sample, last: Sample)
    requires
        has_charge(from),
        has_charge(last),
        !moved_too_little(from, last),
        from.predicted_min is Some,
        from.state != PowerState::PluggedIn,
        900 <= seconds_to(from.t, last.t) < 0x20_0000_0000_0000,
    ensures
        is_checkpoint(checkpoint_of(from, last), from, last),
{
    let one = one_in_units() as int;
    small_wholes_are_exact(1);
    travels_measure(from, last);
    let n = seconds_to(from.t, last.t) as nat;
    assert(n == elapsed(from.t, last.t));
    let points = crate::estimate::points_left(from.percent, from.state);
    assert(points == way_left(from.percent, from.state));
    wholes_measure(n);
    wholes_measure(3600);
    small_wholes_are_exact(3600);
    quotients_measure(whole(n), whole(3600), 53, 53);
    let h = hours(from, last);
    let q = progressed(from, last);
    quotients_measure(q, h, 210, 106);
    let rate = quotient(q, h);
    let (sh, sq, r) = (size(h) as int, size(q) as int, size(rate) as int);
    let d = moved_forward(from, last);
    if points == 0 {
        crate::binary::nothing_is_zero();
        crate::measures::powers_rise(-316, -316);
        crate::binary::parts_of_nothing_are_nothing(rate);
        small_wholes_are_exact(60);
        crate::binary::zero_takes_all(Quantity { bits: 0 }, whole(60));
        let z = product(Quantity { bits: 0 }, whole(60));
        only_zeros_have_no_size(z);
        assert((2 * 0 + one) / (2 * one) == 0) by (nonlinear_arith)
            requires
                one > 0,
        ;
    } else {
        wholes_measure(points);
        crate::readings::scaled_parts_measure(whole(points), rate, 60, 53, 316);
        let z = product(quotient(whole(points), rate), whole(60));
        let s = size(z) as int;
        let k = points as int;
        // The rate is what was travelled over the hours it took.
        let no = n * one;
        assert(sh * (3600 * one) == (sh * 3600) * one) by (nonlinear_arith);
        abouts_cancel(sh * 3600, no, one, 2);
        // r * no is about r * sh * 3600, about sq * one * 3600, about d * one * 3600.
        abouts_scale(sh * 3600, no, r, 2);
        abouts_scale(r * sh, sq * one, 3600, 2);
        abouts_scale(sq, d, one * 3600, 5);
        assert((sh * 3600) * r == (r * sh) * 3600) by (nonlinear_arith);
        assert((sq * one) * 3600 == sq * (one * 3600)) by (nonlinear_arith);
        let rn = r * n;
        assert(no * r == rn * one) by (nonlinear_arith)
            requires
                no == n * one,
                rn == r * n,
        ;
        let dd = 3600 * d;
        assert(d * (one * 3600) == dd * one) by (nonlinear_arith)
            requires
                dd == 3600 * d,
        ;
        assert(rn * one >= 0 && dd * one >= 0 && (r * sh) * 3600 >= 0) by (nonlinear_arith)
            requires
                rn == r * n,
                r >= 0,
                sh >= 0,
                one >= 0,
                dd == 3600 * d,
                d >= 0,
        ;
        abouts_add_up((r * sh) * 3600, sq * (one * 3600), dd * one, 2, 5);
        abouts_add_up(rn * one, (r * sh) * 3600, dd * one, 2, 8);
        abouts_cancel(rn, dd, one, 11);
        // s * r is about sixty times the points.
        let p = k * n * one;
        abouts_scale(s * r, (60 * (k * one)) * one, n as int, 5);
        abouts_scale(rn, dd, s, 11);
        assert((s * r) * n == rn * s) by (nonlinear_arith)
            requires
                rn == r * n,
        ;
        assert(((60 * (k * one)) * one) * n == (p * one) * 60) by (nonlinear_arith)
            requires
                p == k * n * one,
        ;
        let q2 = 60 * d;
        assert(dd * s == (s * q2) * 60) by (nonlinear_arith)
            requires
                dd == 3600 * d,
                q2 == 60 * d,
        ;
        assert((s * q2) * 60 >= 0 && (p * one) * 60 >= 0) by (nonlinear_arith)
            requires
                s >= 0,
                q2 == 60 * d,
                d >= 0,
                p == k * n * one,
                k >= 0,
                one >= 0,
        ;
        abouts_add_up((s * q2) * 60, rn * s, (p * one) * 60, 11, 5);
        abouts_cancel(s * q2, p * one, 60, 17);
        assert(s * q2 >= 0 && p * one >= 0);
        abouts_widen(s * q2, p * one, 17, 40);
        assert(p >= 0) by (nonlinear_arith)
            requires
                p == k * n * one,
                k >= 0,
                one >= 0,
        ;
        roundings_measure(z, u32::MAX as nat, p as nat, q2 as nat, 40);
    }
}

proof fn sessions_run_to_their_end(s: Seq<Sample>, at: int)
    requires
        0 <= at < s.len(),
    ensures
        runs_to(s, at, session_end(s, at)),
    decreases s.len() - at,
{
    if at + 1 < s.len() {
        assert(breaks(s, at + 1) == crate::session::opens(s, at + 1));
        if !crate::session::opens(s, at + 1) {
            sessions_run_to_their_end(s, at + 1);
        }
    }
}

/// Every checkpoint is the outcome of a prediction that was made off the
/// adapter, in a session that then ran on for fifteen minutes and three
/// percent.
pub proof fn checkpoints_say_what_happened(s: Seq<Sample>, k: int) -> (r: (int, int))
    requires
        s.len() <= usize::MAX,
        forall|i: int| 0 <= i < s.len() ==> has_charge(#[trigger] s[i]),
        forall|i: int, j: int|
            #![trigger s[i], s[j]]
            0 <= i < j < s.len() ==> s[j].t < s[i].t + 0x20_0000_0000_0000,
        0 <= k < scored(s).len(),
    ensures
        runs_to(s, r.0, r.1),
        s[r.0].state != PowerState::PluggedIn,
        s[r.1].t >= s[r.0].t + 900,
        moved_forward(s[r.0], s[r.1]) * 2 >= 5 * one_in_units(),
        is_checkpoint(scored(s)[k], s[r.0], s[r.1]),
{
    crate::scoring::checkpoints_are_earned(s, k);
    let at = choose|at: int|
        {
            &&& 0 <= at < s.len()
            &&& #[trigger] is_scorable(s, at)
            &&& !moved_too_little(s[at], s[session_end(s, at)])
            &&& scored(s)[k] == checkpoint_of(s[at], s[session_end(s, at)])
        };
    let end = session_end(s, at);
    sessions_run_to_their_end(s, at);
    assert(at < end) by {
        if at == end {
            assert(elapsed(s[at].t, s[at].t) == 0);
        }
    }
    assert(has_charge(s[at]) && has_charge(s[end]));
    travels_measure(s[at], s[end]);
    realized_minutes_measure(s[at], s[end]);
    (at, end)
}

/// Every prediction made off the adapter, in a session that ran on for fifteen
/// minutes and three percent, has its checkpoint.
pub proof fn checkpoints_are_owed(s: Seq<Sample>, at: int, end: int) -> (k: int)
    requires
        s.len() <= usize::MAX,
        runs_to(s, at, end),
        has_charge(s[at]),
        has_charge(s[end]),
        s[at].state != PowerState::PluggedIn,
        s[at].predicted_min is Some,
        900 <= seconds_to(s[at].t, s[end].t) < 0x20_0000_0000_0000,
        moved_forward(s[at], s[end]) >= 3 * one_in_units(),
    ensures
        0 <= k < scored(s).len(),
        is_checkpoint(scored(s)[k], s[at], s[end]),
{
    let one = one_in_units() as int;
    sessions_run_to_their_end(s, at);
    ends_are_one(s, at, end, session_end(s, at));
    let (from, last) = (s[at], s[end]);
    // Three percent, once rounded, are still three.
    three_is_whole();
    small_wholes_are_exact(1);
    movements_measure(from, last);
    let q = progressed(from, last);
    let d = moved_forward(from, last);
    let three = Quantity { bits: THREE_BITS };
    order_is_that_of_values(q, three);
    crate::binary::values_stay(THREE_BITS as nat);
    crate::binary::nearest_exists(d as nat, 1);
    crate::binary::nearest_keeps_order(
        (3 * one) as nat,
        d as nat,
        1,
        THREE_BITS as nat,
        crate::binary::nearest(d as nat, 1),
    );
    if (THREE_BITS as nat) < crate::binary::nearest(d as nat, 1) {
        crate::binary::magnitudes_grow(
            THREE_BITS as nat,
            crate::binary::nearest(d as nat, 1),
        );
    }
    let (a, b) = if from.state == PowerState::Charging {
        (last.charge(), from.charge())
    } else {
        (from.charge(), last.charge())
    };
    assert(value(crate::binary::negated(b)) == -value(b));
    assert(value(q) >= 3 * one);
    assert(!moved_too_little(from, last));
    crate::scoring::earned_checkpoints_are_made(s, at);
    realized_minutes_measure(from, last);
    let c = checkpoint_of(from, last);
    choose|k: int| 0 <= k < scored(s).len() && scored(s)[k] == c
}

proof fn ends_are_one(s: Seq<Sample>, at: int, a: int, b: int)
    requires
        runs_to(s, at, a),
        runs_to(s, at, b),
    ensures
        a == b,
{
    if a < b {
        assert(breaks(s, a + 1));
    } else if b < a {
        assert(breaks(s, b + 1));
    }
}

/// A prediction whose session went on evenly to the very end of its way has
/// realized the minutes until it got there.
pub proof fn arrivals_are_realized(c: Checkpoint, from: Sample, last: Sample)
    requires
        is_checkpoint(c, from, last),
        way_left(from.percent, from.state) > 0,
        moved_forward(from, last) == way_left(from.percent, from.state) * one_in_units(),
    ensures
        rounds_about(
            c.realized_min as nat,
            0xffff_ffff,
            seconds_to(from.t, last.t) as nat,
            60,
            40,
        ),
{
    let one = one_in_units() as int;
    small_wholes_are_exact(1);
    let w = way_left(from.percent, from.state);
    let t = seconds_to(from.t, last.t);
    let wo = w * one;
    assert(w * t * one == t * wo && 60 * (w * one) == 60 * wo) by (nonlinear_arith)
        requires
            wo == w * one,
    ;
    assert(wo > 0) by (nonlinear_arith)
        requires
            wo == w * one,
            w > 0,
            one > 0,
    ;
    assert(t * wo >= 0) by (nonlinear_arith)
        requires
            t >= 0,
            wo > 0,
    ;
    let m = c.realized_min as int;
    if m > 0 {
        assert((2 * m - 1) * (60 * wo) == ((2 * m - 1) * 60) * wo) by (nonlinear_arith);
        assert(2 * (t * wo) == (2 * t) * wo) by (nonlinear_arith);
        crate::margin::margins_cancel((2 * m - 1) * 60, 2 * t, wo, 40);
    }
    if m < 0xffff_ffff {
        assert((2 * m + 1) * (60 * wo) == ((2 * m + 1) * 60) * wo) by (nonlinear_arith);
        assert(2 * (t * wo) == (2 * t) * wo) by (nonlinear_arith);
        crate::margin::margins_cancel(2 * t, (2 * m + 1) * 60, wo, 40);
    }
}

// How the predictions have fared.

/// By how many minutes each prediction missed: positive when it promised too
/// much.
pub open spec fn errors_of(p: Seq<Checkpoint>) -> Seq<int> {
    p.map_values(|c: Checkpoint| c.predicted_min - c.realized_min)
}

/// Whether a prediction is within a tenth of what happened, a tenth of a
/// minute at the least.
pub open spec fn is_near(c: Checkpoint) -> bool {
    10 * extent(c.predicted_min - c.realized_min) <= if c.realized_min == 0 {
        1
    } else {
        c.realized_min as int
    }
}

/// The checkpoints that have an instant reading.
pub open spec fn with_instant(p: Seq<Checkpoint>) -> Seq<Checkpoint> {
    p.filter(|c: Checkpoint| c.instant_min is Some)
}

/// By how many minutes each instant reading missed.
pub open spec fn instant_errors_of(p: Seq<Checkpoint>) -> Seq<int> {
    with_instant(p).map_values(|c: Checkpoint| c.instant_min->0 - c.realized_min)
}

/// The predictions that came near.
pub open spec fn near_ones(p: Seq<Checkpoint>) -> Seq<Checkpoint> {
    p.filter(|c: Checkpoint| is_near(c))
}

proof fn totals_are_of_the_errors(p: Seq<Checkpoint>)
    ensures
        total_miss(p) == extent_of(errors_of(p)),
        total_error(p) == total_of(errors_of(p)),
        total_instant_miss(p) == extent_of(instant_errors_of(p)),
        instant_readings(p) == with_instant(p).len(),
        close_calls(p) == near_ones(p).len(),
        with_instant(p).len() <= p.len(),
        near_ones(p).len() <= p.len(),
    decreases p.len(),
{
    reveal(Seq::filter);
    if p.len() == 0 {
        assert(errors_of(p) =~= Seq::<int>::empty());
        assert(instant_errors_of(p) =~= Seq::<int>::empty());
    } else {
        let rest = p.drop_last();
        totals_are_of_the_errors(rest);
        assert(errors_of(p).drop_last() =~= errors_of(rest));
        if p.last().instant_min is Some {
            assert(with_instant(p) =~= with_instant(rest).push(p.last()));
            assert(instant_errors_of(p).drop_last() =~= instant_errors_of(rest));
        }
    }
}

/// A mean is the total over the number, up to rounding.
proof fn means_measure(total: nat, n: nat)
    requires
        0 < n < 0x20_0000_0000_0000,
        total < 0x20_0000_0000_0000,
    ensures
        total == 0 ==> size(quotient(whole(total), whole(n))) == 0,
        about(
            (size(quotient(whole(total), whole(n))) * n) as int,
            (total * one_in_units()) as int,
            2,
        ),
        !is_negative(quotient(whole(total), whole(n))),
{
    let one = one_in_units() as int;
    wholes_measure(n);
    small_wholes_are_exact(n);
    if total == 0 {
        crate::binary::nothing_is_zero();
        crate::binary::parts_of_nothing_are_nothing(whole(n));
        assert(0 * n == 0 && 0 * one == 0);
        crate::measures::equals_are_about(0, 2);
    } else {
        wholes_measure(total);
        quotients_measure(whole(total), whole(n), 53, 53);
        let q = size(quotient(whole(total), whole(n))) as int;
        assert(q * (n * one) == (q * n) * one) by (nonlinear_arith);
        abouts_cancel(q * n, total * one, one, 2);
    }
}

/// The figures of an accuracy are means: of the minutes that the model missed
/// by, of those that the instant readings missed by, of the signed minutes,
/// and of the predictions that came near.
pub proof fn accuracy_is_the_mean(p: Seq<Checkpoint>)
    requires
        0 < p.len() <= 0x10_0000,
    ensures
        ({
            let a = accuracy_of(p)->0;
            let one = one_in_units();
            &&& accuracy_of(p) is Some
            &&& a.checkpoints == p.len()
            &&& about(
                (size(a.model_error_min) * p.len()) as int,
                extent_of(errors_of(p)) * one,
                2,
            )
            &&& about(
                (size(a.model_bias_min) * p.len()) as int,
                extent(total_of(errors_of(p))) * one,
                2,
            )
            &&& total_of(errors_of(p)) > 0 ==> !is_negative(a.model_bias_min)
            &&& total_of(errors_of(p)) < 0 ==> is_negative(a.model_bias_min)
            &&& a.instant_error_min is Some <==> with_instant(p).len() > 0
            &&& with_instant(p).len() > 0 ==> about(
                (size(a.instant_error_min->0) * with_instant(p).len()) as int,
                extent_of(instant_errors_of(p)) * one,
                2,
            )
            &&& about(
                (size(a.within_ten_percent) * p.len()) as int,
                (near_ones(p).len() * one) as int,
                2,
            )
        }),
{
    let n = p.len();
    totals_are_of_the_errors(p);
    crate::scoring::errors_add_up_exactly(p);
    crate::scoring::signed_errors_add_up_exactly(p);
    crate::scoring::accuracy_hangs_together(p);
    means_measure(total_miss(p), n);
    means_measure(close_calls(p), n);
    if with_instant(p).len() > 0 {
        means_measure(total_instant_miss(p), instant_readings(p));
    }
    // The signed mean has the size of the mean of its size.
    let one = one_in_units() as int;
    let t = total_error(p);
    let k = extent(t) as nat;
    let e = error_sum(p);
    small_wholes_are_exact(k);
    small_wholes_are_exact(n);
    means_measure(k, n);
    assert(size(e) == k * one) by {
        assert((-t) * one == -(t * one)) by (nonlinear_arith);
        if t > 0 {
            assert(t * one >= 0) by (nonlinear_arith)
                requires
                    t > 0,
                    one >= 0,
            ;
        } else {
            assert((-t) * one >= 0) by (nonlinear_arith)
                requires
                    t <= 0,
                    one >= 0,
            ;
        }
    }
    only_zeros_have_no_size(e);
    only_zeros_have_no_size(whole(n));
    crate::binary::nearest_exists(size(e) * one_in_units(), size(whole(n)));
    let (x, y) = (quotient(e, whole(n)), quotient(whole(k), whole(n)));
    assert(x.magnitude() == y.magnitude());
    if t > 0 {
        assert(t * one > 0) by (nonlinear_arith)
            requires
                t > 0,
                one > 0,
        ;
    } else if t < 0 {
        assert(t * one < 0) by (nonlinear_arith)
            requires
                t < 0,
                one > 0,
        ;
    }
}

/// The checkpoints since a moment are those that were made then or later, in
/// the order they had.
pub proof fn recent_checkpoints_are_the_later(p: Seq<Checkpoint>, since: u64)
    ensures
        since_moment(p, since) == p.filter(|c: Checkpoint| c.t >= since),
    decreases p.len(),
{
    reveal(Seq::filter);
    if p.len() > 0 {
        recent_checkpoints_are_the_later(p.drop_last(), since);
    }
}

} // verus!
