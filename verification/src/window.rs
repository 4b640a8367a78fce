//! The window at the end of a session that its present rate is read from.

use crate::quantity::{Quantity, ONE_BITS};
use crate::sample::{hours_between, progress, Sample};
use vstd::prelude::*;

verus! {

use crate::binary::{product, quotient, rounded_to, sum, whole};

/// How far back the session-rate window looks.
pub const RECENT_WINDOW_SECS: u64 = 1800;

/// Inside the rate window, a minute this old counts half as much as the
/// latest one.
pub const RATE_HALF_LIFE_MINUTES: u64 = 8;

/// How often the weight of a step has halved `age` seconds after it ended.
pub open spec fn halvings(age: nat) -> Quantity {
    quotient(quotient(whole(age), whole(60)), whole(RATE_HALF_LIFE_MINUTES as nat))
}

/// How often the weight of a step has halved `age` seconds after it ended:
/// one half, raised to this, is its weight.
pub fn half_lives(age: u64) -> (r: Quantity)
    ensures
        r == halvings(age as nat),
{
    Quantity::of(age).over(Quantity::of(60)).over(Quantity::of(RATE_HALF_LIFE_MINUTES))
}

/// How much a step counts in the rate of its session, by the seconds that
/// have passed since it ended.
///
/// The weight of a step halves with every eight minutes of its age, so that a
/// change in draw that lasts is adopted within about ten minutes, while a
/// brief burst barely registers. A power of a fraction is nothing that can be
/// had exactly; the weights are whatever the caller's powers of one half, to
/// the [`half_lives`] of each age, come to.
pub struct Decay {
    /// The weight at each age of up to [`RECENT_WINDOW_SECS`].
    pub weights: [Quantity; 1801],
}

impl Decay {
    /// The weight of a step that ended `age` seconds ago.
    pub open spec fn at(self, age: nat) -> Quantity {
        self.weights@[age as int]
    }

    /// The weight of a step that ended `age` seconds ago.
    pub fn weight(&self, age: u64) -> (r: Quantity)
        requires
            age <= RECENT_WINDOW_SECS,
        ensures
            r == self.at(age as nat),
    {
        self.weights[age as usize]
    }
}

/// Whether a step that ends in `b` ends inside the window before `now`.
pub open spec fn in_window(b: Sample, now: u64) -> bool {
    b.t >= crate::sample::elapsed(RECENT_WINDOW_SECS, now)
}

/// The positions in a session at which a step begins that ends inside the
/// window before `now`.
pub open spec fn window_steps(session: Seq<Sample>, now: u64) -> Seq<usize>
    decreases session.len(),
{
    if session.len() < 2 {
        Seq::empty()
    } else {
        let before = window_steps(session.drop_last(), now);
        if in_window(session.last(), now) {
            before.push((session.len() - 2) as usize)
        } else {
            before
        }
    }
}

/// The positions in a session at which a step begins that ends inside the
/// window before `now`.
pub fn recent_steps(session: &[Sample], now: u64) -> (r: Vec<usize>)
    ensures
        r@ == window_steps(session@, now),
{
    let n = session.len();
    let from = now.saturating_sub(RECENT_WINDOW_SECS);
    let mut out: Vec<usize> = Vec::new();
    if n == 0 {
        return out;
    }
    let mut i: usize = 1;
    while i < n
        invariant
            n == session.len(),
            1 <= i <= n,
            from == crate::sample::elapsed(RECENT_WINDOW_SECS, now),
            out@ == window_steps(session@.take(i as int), now),
        decreases n - i,
    {
        let ghost next = session@.take(i + 1);
        assert(next.drop_last() =~= session@.take(i as int));
        assert(next.last() == session@[i as int]);
        if session[i].t >= from {
            out.push(i - 1);
        }
        i += 1;
    }
    assert(session@.take(n as int) =~= session@);
    out
}

/// Every step in the window is one of the session's, ended no longer ago than
/// the window reaches, and the steps come in order.
pub proof fn window_steps_are_recent(session: Seq<Sample>, now: u64)
    requires
        session.len() <= usize::MAX,
    ensures
        forall|i: int|
            0 <= i < window_steps(session, now).len() ==> {
                let at = #[trigger] window_steps(session, now)[i];
                &&& at + 1 < session.len()
                &&& in_window(session[at + 1], now)
                &&& crate::sample::elapsed(session[at + 1].t, now) <= RECENT_WINDOW_SECS
            },
        forall|i: int, j: int|
            0 <= i < j < window_steps(session, now).len() ==> window_steps(session, now)[i]
                < window_steps(session, now)[j],
    decreases session.len(),
{
    if session.len() >= 2 {
        let rest = session.drop_last();
        window_steps_are_recent(rest, now);
        let before = window_steps(rest, now);
        let all = window_steps(session, now);
        assert forall|i: int| 0 <= i < all.len() implies {
            let at = #[trigger] all[i];
            &&& at + 1 < session.len()
            &&& in_window(session[at + 1], now)
            &&& crate::sample::elapsed(session[at + 1].t, now) <= RECENT_WINDOW_SECS
        } by {
            if i < before.len() {
                assert(all[i] == before[i]);
                assert(rest[before[i] + 1] == session[before[i] + 1]);
            }
        }
        assert forall|i: int, j: int| 0 <= i < j < all.len() implies all[i] < all[j] by {
            assert(all[i] == before[i]);
            if j < before.len() {
                assert(all[j] == before[j]);
            } else {
                assert(before[i] + 1 < rest.len());
            }
        }
    }
}

/// The weight of the step that begins at `at`.
pub open spec fn step_weight(session: Seq<Sample>, now: u64, decay: Decay, at: int) -> Quantity {
    decay.at(crate::sample::elapsed(session[at + 1].t, now))
}

/// Where weights never rise with age, a newer step never weighs less than an
/// older one.
pub proof fn newer_steps_weigh_no_less(
    session: Seq<Sample>,
    now: u64,
    decay: Decay,
    i: int,
    j: int,
)
    requires
        session.len() <= usize::MAX,
        0 <= i < window_steps(session, now).len(),
        0 <= j < window_steps(session, now).len(),
        session[window_steps(session, now)[i] + 1].t <= session[window_steps(session, now)[j]
            + 1].t,
        forall|young: nat, aged: nat|
            young <= aged <= RECENT_WINDOW_SECS ==> #[trigger] decay.at(aged).at_most(
                #[trigger] decay.at(young),
            ),
    ensures
        step_weight(session, now, decay, window_steps(session, now)[i] as int).at_most(
            step_weight(session, now, decay, window_steps(session, now)[j] as int),
        ),
{
    window_steps_are_recent(session, now);
}

/// The weight has halved once after eight minutes, twice after sixteen, and
/// the older a step is, the more often.
pub proof fn halvings_grow(young: nat, aged: nat)
    requires
        young <= aged <= RECENT_WINDOW_SECS,
    ensures
        halvings(young).at_most(halvings(aged)),
        young % 480 == 0 ==> halvings(young) == whole(young / 480),
{
    crate::binary::small_wholes_are_exact(60);
    crate::binary::small_wholes_are_exact(8);
    crate::binary::small_wholes_are_exact(young);
    crate::binary::small_wholes_are_exact(aged);
    crate::binary::wholes_keep_order(young, aged);
    let a = quotient(whole(young), whole(60));
    let b = quotient(whole(aged), whole(60));
    crate::binary::parts_keep_order(whole(young), whole(aged), whole(60));
    crate::binary::parts_keep_order(whole(aged), whole(aged), whole(60));
    minutes_are_finite(young);
    minutes_are_finite(aged);
    crate::binary::order_is_that_of_values(a, b);
    crate::binary::parts_keep_order(a, b, whole(8));
    if young % 480 == 0 {
        let times = young / 480;
        let minutes = times * 8;
        assert(minutes * 60 == young);
        crate::binary::wholes_divide_exactly(minutes, 60);
        crate::binary::wholes_divide_exactly(times, 8);
    }
}

proof fn minutes_are_finite(age: nat)
    requires
        age <= RECENT_WINDOW_SECS,
    ensures
        crate::binary::is_finite(quotient(whole(age), whole(60))),
{
    let one = crate::binary::one_in_units();
    crate::binary::small_wholes_are_exact(60);
    crate::binary::small_wholes_are_exact(age);
    let n = crate::binary::size(whole(age));
    let q = crate::binary::size(whole(60));
    crate::binary::nearest_exists(n * one, q);
    let limit = whole(age).magnitude() as nat;
    crate::binary::exact_values_stay(limit, q);
    assert(n * one <= n * q) by (nonlinear_arith)
        requires
            q == 60 * one,
    ;
    let mag = crate::binary::nearest(n * one, q);
    crate::binary::nearest_keeps_order(n * one, n * q, q, mag, limit);
}

/// The rate of the step that begins at `at`, percent per hour.
pub open spec fn step_rate(session: Seq<Sample>, at: int) -> Quantity {
    quotient(
        crate::sample::progressed(session[at], session[at + 1]),
        crate::sample::hours(session[at], session[at + 1]),
    )
}

/// The percent moved in these steps, each weighted by its age.
pub open spec fn weighted_moves(
    session: Seq<Sample>,
    now: u64,
    decay: Decay,
    steps: Seq<usize>,
) -> Quantity
    decreases steps.len(),
{
    if steps.len() == 0 {
        Quantity { bits: 0 }
    } else {
        let at = steps.last() as int;
        sum(
            weighted_moves(session, now, decay, steps.drop_last()),
            product(
                step_weight(session, now, decay, at),
                crate::sample::progressed(session[at], session[at + 1]),
            ),
        )
    }
}

/// The hours that these steps took, each weighted by its age.
pub open spec fn weighted_hours(
    session: Seq<Sample>,
    now: u64,
    decay: Decay,
    steps: Seq<usize>,
) -> Quantity
    decreases steps.len(),
{
    if steps.len() == 0 {
        Quantity { bits: 0 }
    } else {
        let at = steps.last() as int;
        sum(
            weighted_hours(session, now, decay, steps.drop_last()),
            product(
                step_weight(session, now, decay, at),
                crate::sample::hours(session[at], session[at + 1]),
            ),
        )
    }
}

/// The minutes from the start of the first step to the end of the last.
pub open spec fn window_span(session: Seq<Sample>, steps: Seq<usize>) -> Quantity {
    product(
        crate::sample::hours(session[steps.first() as int], session[steps.last() + 1]),
        whole(60),
    )
}

/// The rate of a session at `now`, percent per hour, and the minutes it was
/// observed over: none unless at least a minute was observed and both the
/// charge and the time moved forward.
pub open spec fn session_rate(session: Seq<Sample>, now: u64, decay: Decay) -> Option<
    (Quantity, u32),
> {
    let steps = window_steps(session, now);
    let span = window_span(session, steps);
    let moved = weighted_moves(session, now, decay, steps);
    let hours = weighted_hours(session, now, decay, steps);
    if steps.len() == 0 || span.less(Quantity { bits: ONE_BITS }) || moved.at_most(
        Quantity { bits: 0 },
    ) || hours.at_most(Quantity { bits: 0 }) {
        None
    } else {
        Some((quotient(moved, hours), rounded_to(span, u32::MAX as nat) as u32))
    }
}

/// The rate over the last half hour of a session, percent per hour, weighted
/// towards the latest minutes, and the minutes it was observed over. Movement
/// and time are summed separately before dividing, so a gauge that updates in
/// steps averages out rather than spiking. A step counts whole by where it
/// ends, on the window's edge too, so one that began before the window can
/// stretch what was observed beyond the half hour.
pub fn recent_rate(session: &[Sample], now: u64, decay: &Decay) -> (r: Option<(Quantity, u32)>)
    ensures
        r == session_rate(session@, now, *decay),
{
    let steps = recent_steps(session, now);
    if steps.len() == 0 {
        return None;
    }
    let n = session.len();
    proof {
        assert(session@.len() == n);
        window_steps_are_recent(session@, now);
    }
    let mut moved = Quantity::zero();
    let mut hours = Quantity::zero();
    let mut i: usize = 0;
    assert(steps@.take(0) =~= Seq::<usize>::empty());
    while i < steps.len()
        invariant
            i <= steps.len(),
            steps@ == window_steps(session@, now),
            forall|k: int|
                0 <= k < window_steps(session@, now).len() ==> {
                    let at = #[trigger] window_steps(session@, now)[k];
                    &&& at + 1 < session@.len()
                    &&& crate::sample::elapsed(session@[at + 1].t, now) <= RECENT_WINDOW_SECS
                },
            moved == weighted_moves(session@, now, *decay, steps@.take(i as int)),
            hours == weighted_hours(session@, now, *decay, steps@.take(i as int)),
        decreases steps.len() - i,
    {
        let at: usize = steps[i];
        assert(window_steps(session@, now)[i as int] == at);
        assert(steps@.take(i + 1).drop_last() =~= steps@.take(i as int));
        assert(steps@.take(i + 1).last() == at);
        let a = session[at];
        let b = session[at + 1];
        let weight = decay.weight(now.saturating_sub(b.t));
        moved = moved.plus(weight.times(progress(&a, &b)));
        hours = hours.plus(weight.times(hours_between(&a, &b)));
        i += 1;
    }
    assert(steps@.take(steps.len() as int) =~= steps@);
    assert(window_steps(session@, now)[0] + 1 < session@.len());
    assert(window_steps(session@, now)[steps.len() - 1] + 1 < session@.len());
    let first = session[steps[0]];
    let last = session[steps[steps.len() - 1] + 1];
    let span = hours_between(&first, &last).times(Quantity::of(60));
    if span.is_below(ONE_BITS) || moved.is_at_most(Quantity::zero()) || hours.is_at_most(
        Quantity::zero(),
    ) {
        return None;
    }
    Some((moved.over(hours), span.round(u32::MAX)))
}

/// An observed rate never runs backwards, and is never read from less than a
/// minute.
pub proof fn observations_run_forward(session: Seq<Sample>, now: u64, decay: Decay)
    ensures
        session_rate(session, now, decay) matches Some((rate, minutes)) ==> {
            &&& !rate.less(Quantity { bits: 0 })
            &&& minutes >= 1
        },
{
    let steps = window_steps(session, now);
    let span = window_span(session, steps);
    let hours = crate::sample::hours(session[steps.first() as int], session[steps.last() + 1]);
    let seconds = crate::sample::elapsed(
        session[steps.first() as int].t,
        session[steps.last() + 1].t,
    );
    crate::binary::small_wholes_are_exact(60);
    crate::binary::small_wholes_are_exact(3600);
    crate::binary::wholes_are_numbers(seconds);
    crate::binary::quotients_are_numbers(whole(seconds), whole(3600));
    crate::binary::products_are_numbers(whole(60), hours);
    crate::binary::products_commute(whole(60), hours);
    let moved = weighted_moves(session, now, decay, steps);
    let time = weighted_hours(session, now, decay, steps);
    if !moved.at_most(Quantity { bits: 0 }) && !time.at_most(Quantity { bits: 0 }) {
        crate::binary::positive_parts_are_not_negative(moved, time);
    }
    if !span.less(Quantity { bits: ONE_BITS }) {
        crate::binary::one_or_more_rounds_to_one_or_more(span, u32::MAX as nat);
    }
}

/// Whether two sessions have the same steps in the window, wherever in each
/// of them those stand and whatever was predicted on the way.
pub open spec fn share_the_window(a: Seq<Sample>, b: Seq<Sample>, now: u64) -> bool {
    &&& window_steps(a, now).len() == window_steps(b, now).len()
    &&& forall|i: int|
        #![trigger window_steps(a, now)[i]]
        #![trigger window_steps(b, now)[i]]
        0 <= i < window_steps(a, now).len() ==> {
            let (x, y) = (window_steps(a, now)[i], window_steps(b, now)[i]);
            &&& crate::sample::same_reading(a[x as int], b[y as int])
            &&& crate::sample::same_reading(a[x + 1], b[y + 1])
        }
}

/// The rate rests on the steps in the window alone: two sessions that share
/// those have the same rate, whatever else they hold.
pub proof fn rates_rest_on_the_window(a: Seq<Sample>, b: Seq<Sample>, now: u64, decay: Decay)
    requires
        share_the_window(a, b, now),
    ensures
        session_rate(a, now, decay) == session_rate(b, now, decay),
{
    let x = window_steps(a, now);
    let y = window_steps(b, now);
    let n = x.len() as int;
    totals_rest_on_the_window(a, b, now, decay, n);
    assert(x.take(n) =~= x);
    assert(y.take(n) =~= y);
    if n > 0 {
        assert(x.first() == x[0] && y.first() == y[0]);
        assert(x.last() == x[n - 1] && y.last() == y[n - 1]);
    }
}

proof fn totals_rest_on_the_window(
    a: Seq<Sample>,
    b: Seq<Sample>,
    now: u64,
    decay: Decay,
    n: int,
)
    requires
        share_the_window(a, b, now),
        0 <= n <= window_steps(a, now).len(),
    ensures
        weighted_moves(a, now, decay, window_steps(a, now).take(n)) == weighted_moves(
            b,
            now,
            decay,
            window_steps(b, now).take(n),
        ),
        weighted_hours(a, now, decay, window_steps(a, now).take(n)) == weighted_hours(
            b,
            now,
            decay,
            window_steps(b, now).take(n),
        ),
    decreases n,
{
    if n > 0 {
        totals_rest_on_the_window(a, b, now, decay, n - 1);
        let x = window_steps(a, now);
        let y = window_steps(b, now);
        assert(x.take(n).drop_last() =~= x.take(n - 1));
        assert(y.take(n).drop_last() =~= y.take(n - 1));
        assert(x.take(n).last() == x[n - 1]);
        assert(y.take(n).last() == y[n - 1]);
    }
}

/// Steps that ended before the window have no influence: a session has the
/// same rate without them.
pub proof fn older_steps_have_no_influence(
    session: Seq<Sample>,
    now: u64,
    decay: Decay,
    older: int,
)
    requires
        session.len() <= usize::MAX,
        0 <= older < session.len(),
        forall|j: int| 1 <= j <= older ==> !in_window(#[trigger] session[j], now),
    ensures
        session_rate(session, now, decay) == session_rate(session.skip(older), now, decay),
{
    let rest = session.skip(older);
    steps_move_along(session, now, older);
    window_steps_are_recent(session, now);
    window_steps_are_recent(rest, now);
    let x = window_steps(session, now);
    let y = window_steps(rest, now);
    assert forall|i: int|
        #![trigger x[i]]
        #![trigger y[i]]
        0 <= i < x.len() implies session[x[i] as int] == rest[y[i] as int] && session[x[i] + 1]
        == rest[y[i] + 1] by {
        assert(x[i] == y[i] + older);
    }
    rates_rest_on_the_window(session, rest, now, decay);
}

/// Without its first samples, the steps of a session stand so much earlier.
proof fn steps_move_along(session: Seq<Sample>, now: u64, older: int)
    requires
        session.len() <= usize::MAX,
        0 <= older < session.len(),
        forall|j: int| 1 <= j <= older ==> !in_window(#[trigger] session[j], now),
    ensures
        window_steps(session, now).len() == window_steps(session.skip(older), now).len(),
        forall|i: int|
            0 <= i < window_steps(session, now).len() ==> #[trigger] window_steps(session, now)[i]
                == window_steps(session.skip(older), now)[i] + older,
    decreases session.len(),
{
    let rest = session.skip(older);
    if session.len() >= 2 {
        let before = session.drop_last();
        if older < before.len() {
            assert(before.skip(older) =~= rest.drop_last());
            assert(rest.last() == session.last());
            steps_move_along(before, now, older);
        } else {
            // All that is left is the last sample, which ends no step.
            assert(session.last() == session[older]);
            nothing_is_in_the_window(before, now);
        }
    }
}

proof fn nothing_is_in_the_window(session: Seq<Sample>, now: u64)
    requires
        forall|j: int| 1 <= j < session.len() ==> !in_window(#[trigger] session[j], now),
    ensures
        window_steps(session, now).len() == 0,
    decreases session.len(),
{
    if session.len() >= 2 {
        assert(session.last() == session[session.len() - 1]);
        nothing_is_in_the_window(session.drop_last(), now);
    }
}

} // verus!
