//! What an estimate is made from: the run it is in, and what its own state
//! has taught.

use crate::estimate::{Basis, Estimate};
use crate::power::{BatteryInfo, PowerState};
use crate::quantity::Quantity;
use crate::sample::Sample;
use crate::window::Decay;
use vstd::prelude::*;

verus! {

use crate::bands::{learned_rates, steps_by_band};
use crate::curve::tenth;
use crate::estimate::{estimate_of, walk_minutes};
use crate::history::estimate_in;
use crate::monitor::{after_reading, estimate_for, is_taken};
use crate::outcome::breaks;
use crate::session::{running_session, sessions_of};

/// Whether a band other than the one that `percent` lies in has been learnt.
pub open spec fn another_is_known(percent: u8, bands: Seq<Option<Quantity>>) -> bool {
    exists|b: int| 0 <= b < 10 && b != tenth(percent as int) && (#[trigger] bands[b]) is Some
}

/// Off the adapter, an estimate carries the instant reading and what was
/// observed. It names the curve as its basis where another band is known and
/// then walks it at the rate it shows; else the observation, where there is
/// one; else the instant reading.
pub proof fn estimates_carry_what_they_rest_on(
    percent: u8,
    state: PowerState,
    instant_minutes: Option<u32>,
    observed: Option<(Quantity, u32)>,
    bands: Seq<Option<Quantity>>,
)
    requires
        state != PowerState::PluggedIn,
    ensures
        ({
            let e = estimate_of(percent, state, instant_minutes, observed, bands);
            let has_rate = observed is Some || (instant_minutes matches Some(m) && m > 0);
            let known = another_is_known(percent, bands);
            &&& e.state == state
            &&& e.instant_minutes == instant_minutes
            &&& e.rate_pct_hr is Some <==> has_rate
            &&& !has_rate ==> e.minutes is None
            &&& observed matches Some((rate, minutes)) ==> e.observed_pct_hr == Some(rate)
                && e.observed_minutes == minutes
            &&& observed is None ==> e.observed_pct_hr is None && e.observed_minutes == 0
            &&& e.basis == Basis::Learned <==> has_rate && known
            &&& e.basis == Basis::Observed <==> observed is Some && !known
            &&& has_rate && known ==> e.minutes == walk_minutes(
                percent,
                state,
                e.rate_pct_hr->0,
                bands,
            )
            &&& has_rate && !known ==> e.minutes is Some
        }),
{
    assert(tenth(percent as int) == crate::sample::band_of(percent));
    if crate::estimate::is_shaped(percent, bands) {
        let b = choose|b: int|
            0 <= b < 10 && b != tenth(percent as int) && (#[trigger] bands[b]) is Some;
        assert(bands[b] is Some);
    }
}

/// On the adapter an estimate carries nothing.
pub proof fn adapters_leave_nothing_to_estimate(
    percent: u8,
    instant_minutes: Option<u32>,
    observed: Option<(Quantity, u32)>,
    bands: Seq<Option<Quantity>>,
)
    ensures
        ({
            let e = estimate_of(percent, PowerState::PluggedIn, instant_minutes, observed, bands);
            &&& e.state == PowerState::PluggedIn
            &&& e.minutes is None
            &&& e.instant_minutes is None
            &&& e.rate_pct_hr is None
            &&& e.observed_pct_hr is None
            &&& e.observed_minutes == 0
            &&& e.basis == Basis::Instant
        }),
{
}

proof fn sessions_end_in_the_latest_run(s: Seq<Sample>) -> (k: int)
    requires
        s.len() > 0,
    ensures
        0 <= k < s.len(),
        sessions_of(s).len() > 0,
        sessions_of(s).last() == s.skip(k),
        k > 0 ==> breaks(s, k),
        forall|j: int| k < j < s.len() ==> !#[trigger] breaks(s, j),
    decreases s.len(),
{
    let n = s.len() - 1;
    if n == 0 {
        assert(sessions_of(s).last() =~= s.skip(0));
        0
    } else {
        assert(breaks(s, n) == crate::session::opens(s, n));
        if breaks(s, n) {
            assert(sessions_of(s).last() =~= s.skip(n));
            n
        } else {
            let rest = s.drop_last();
            let k = sessions_end_in_the_latest_run(rest);
            assert(sessions_of(s).last() =~= s.skip(k));
            assert forall|j: int| k < j < s.len() implies !#[trigger] breaks(s, j) by {
                if j < n {
                    assert(!breaks(rest, j));
                }
            }
            if k > 0 {
                assert(breaks(rest, k));
            }
            k
        }
    }
}

/// The session that is running is the latest run of samples without a break,
/// when it is in the state that was asked for and no more than ten minutes
/// old; else there is none.
pub proof fn the_running_session_is_the_latest_run(
    s: Seq<Sample>,
    state: PowerState,
    now: u64,
) -> (k: int)
    requires
        s.len() > 0,
    ensures
        0 <= k < s.len(),
        k > 0 ==> breaks(s, k),
        forall|j: int| k < j < s.len() ==> !#[trigger] breaks(s, j),
        s.last().state == state && now <= s.last().t + 600 ==> running_session(s, state, now)
            == Some(s.skip(k)),
        s.last().state != state || now > s.last().t + 600 ==> running_session(s, state, now)
            is None,
{
    sessions_end_in_the_latest_run(s)
}

proof fn states_unseen_have_no_steps(s: Seq<Sample>, state: PowerState)
    requires
        forall|i: int| 0 <= i < s.len() ==> (#[trigger] s[i]).state != state,
    ensures
        steps_by_band(s, state).len() == 0,
    decreases s.len(),
{
    if s.len() >= 2 {
        assert(s[s.len() - 2].state != state);
        states_unseen_have_no_steps(s.drop_last(), state);
    }
}

/// A history that never was in a state says nothing about it: the estimate is
/// that of no history at all.
pub proof fn other_states_teach_nothing(
    s: Seq<Sample>,
    percent: u8,
    state: PowerState,
    instant_minutes: Option<u32>,
    now: u64,
    decay: Decay,
)
    requires
        forall|i: int| 0 <= i < s.len() ==> (#[trigger] s[i]).state != state,
    ensures
        estimate_in(s, percent, state, instant_minutes, now, decay) == estimate_in(
            Seq::empty(),
            percent,
            state,
            instant_minutes,
            now,
            decay,
        ),
        crate::history::observed_in(s, state, now, decay) is None,
        forall|b: int| 0 <= b < 10 ==> (#[trigger] learned_rates(s, state)[b]) is None,
{
    let none = Seq::<Sample>::empty();
    states_unseen_have_no_steps(s, state);
    states_unseen_have_no_steps(none, state);
    let (x, y) = (learned_rates(s, state), learned_rates(none, state));
    assert forall|b: int| 0 <= b < 10 implies (#[trigger] x[b]) is None && y[b] is None by {
        crate::bands::nothing_is_learnt_unseen(s, state, b);
        crate::bands::nothing_is_learnt_unseen(none, state, b);
    }
    assert(x =~= y);
    if s.len() > 0 {
        assert(s[s.len() - 1].state != state);
    }
}

/// An estimate from a history rests on the rate observed in the latest run
/// and on the bands that its own state has taught.
pub proof fn estimates_rest_on_their_own_state(
    s: Seq<Sample>,
    percent: u8,
    state: PowerState,
    instant_minutes: Option<u32>,
    now: u64,
    decay: Decay,
) -> (k: int)
    requires
        s.len() > 0,
        s.last().state == state,
        now <= s.last().t + 600,
    ensures
        0 <= k < s.len(),
        k > 0 ==> breaks(s, k),
        forall|j: int| k < j < s.len() ==> !#[trigger] breaks(s, j),
        estimate_in(s, percent, state, instant_minutes, now, decay) == estimate_of(
            percent,
            state,
            instant_minutes,
            crate::window::session_rate(s.skip(k), now, decay),
            learned_rates(s, state),
        ),
{
    the_running_session_is_the_latest_run(s, state, now)
}

/// The estimate for a reading is for its percentage, its state and its
/// instant minutes.
pub proof fn estimates_are_for_the_reading(
    s: Seq<Sample>,
    battery: BatteryInfo,
    now: u64,
    decay: Decay,
)
    ensures
        estimate_for(s, battery, now, decay).state == battery.power_state(),
        battery.power_state() != PowerState::PluggedIn ==> estimate_for(
            s,
            battery,
            now,
            decay,
        ).instant_minutes == battery.instant(),
        estimate_for(s, battery, now, decay) == estimate_in(
            s,
            battery.percent,
            battery.power_state(),
            battery.instant(),
            now,
            decay,
        ),
{
}

/// A refresh adds the reading and the estimate that it shows to the history,
/// where the battery is real and a minute has passed or something changed,
/// and leaves the samples before it alone.
pub proof fn refreshes_record_what_they_show(
    s: Seq<Sample>,
    battery: BatteryInfo,
    estimate: Estimate,
    now: u64,
)
    ensures
        ({
            let after = after_reading(s, battery, estimate, now);
            let x = after.last();
            let due = s.len() == 0 || now > s.last().t && (now >= s.last().t + 60
                || s.last().percent != battery.percent || s.last().state
                != battery.power_state());
            &&& is_taken(s, battery, now) <==> battery.is_real && due
            &&& !(battery.is_real && due) ==> after == s
            &&& battery.is_real && due ==> {
                &&& after.len() == s.len() + 1
                &&& after.take(s.len() as int) == s
                &&& x.t == now
                &&& x.percent == battery.percent
                &&& x.energy_wh == battery.energy_now_wh
                &&& x.energy_full_wh == battery.energy_full_wh
                &&& x.power_w == battery.power_watts
                &&& x.state == battery.power_state()
                &&& x.predicted_min == estimate.minutes
                &&& x.instant_min == estimate.instant_minutes
            }
        }),
{
    let after = after_reading(s, battery, estimate, now);
    assert(after.take(s.len() as int) =~= s);
}

/// A real battery takes up its stored history, any other a made-up one.
pub proof fn stored_histories_are_for_real_batteries(
    battery: BatteryInfo,
    a: Seq<Sample>,
    b: Seq<Sample>,
    now: u64,
    decay: Decay,
)
    ensures
        battery.is_real ==> crate::monitor::taken_up(battery, a, now, decay)
            == crate::storage::kept(a, now),
        !battery.is_real ==> crate::monitor::taken_up(battery, a, now, decay)
            == crate::monitor::taken_up(battery, b, now, decay),
{
}

} // verus!
