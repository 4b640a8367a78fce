//! Battery history: the samples that are kept, how they fall into sessions,
//! and what the drain model reads from them.
//!
//! The kernel's `power_now` is a snapshot of this instant's draw, so an
//! estimate built on it alone swings with every burst of CPU work. The model
//! instead watches how fast the charge has actually been moving during the
//! current session, and shapes the rest of the curve with the drain observed
//! at each 10% band on earlier sessions.

use crate::bands::BandStep;
use crate::estimate::{estimate_from, Basis, Estimate};
use crate::power::{BatteryInfo, PowerState};
use crate::quantity::{Quantity, FIVE_BITS, ONE_BITS};
use crate::sample::{hours_between, progress, seconds_between, Sample, BANDS};
use crate::scoring::{accuracy, score, Accuracy, Checkpoint};
use crate::session::SESSION_GAP_SECS;
use crate::storage::{sort_by_time, MAX_AGE_SECS, SAMPLE_INTERVAL_SECS};
use crate::window::{recent_rate, Decay};
use vstd::prelude::*;
use vstd::slice::slice_subrange;

verus! {

use crate::bands::{
    band_steps_are_the_steps, hours_in, learned_rates, moved_in, nothing_is_learnt_unseen,
    steps_by_band,
};
use crate::session::{
    contents, opens, running_session, sessions_end_with_the_history, sessions_of,
};

/// A history of battery samples, oldest first.
#[derive(Debug)]
pub struct History {
    samples: Vec<Sample>,
}

impl View for History {
    type V = Seq<Sample>;

    closed spec fn view(&self) -> Seq<Sample> {
        self.samples@
    }
}

impl Default for History {
    /// An empty history.
    fn default() -> (r: History)
        ensures
            r@ == Seq::<Sample>::empty(),
    {
        History { samples: Vec::new() }
    }
}

impl History {
    /// A history of these samples.
    pub fn in_memory(samples: Vec<Sample>) -> (r: History)
        ensures
            r@ == samples@,
    {
        History { samples }
    }

    /// The samples, oldest first.
    pub fn samples(&self) -> (r: &[Sample])
        ensures
            r@ == self@,
    {
        self.samples.as_slice()
    }

    /// Contiguous runs of one state with no long silence inside them.
    pub fn sessions(&self) -> (r: Vec<&[Sample]>)
        ensures
            contents(r@) == sessions_of(self@),
    {
        let all: &[Sample] = self.samples.as_slice();
        let n = all.len();
        let mut out: Vec<&[Sample]> = Vec::new();
        if n == 0 {
            assert(contents(out@) =~= sessions_of(self@));
            return out;
        }
        let ghost s = all@;
        let mut start: usize = 0;
        let mut i: usize = 1;
        assert(s.take(1).drop_last() =~= Seq::<Sample>::empty());
        assert(s.subrange(0, 1) =~= seq![s.take(1).last()]);
        assert(contents(out@).push(s.subrange(0, 1)) =~= sessions_of(s.take(1))) by {
            assert(sessions_of(s.take(1).drop_last()) =~= Seq::<Seq<Sample>>::empty());
        }
        while i < n
            invariant
                n == all.len(),
                s == all@,
                start < i <= n,
                contents(out@).push(s.subrange(start as int, i as int)) == sessions_of(
                    s.take(i as int),
                ),
                forall|k: int| start <= k < i ==> (#[trigger] s[k]).state == s[start as int].state,
            decreases n - i,
        {
            let ghost next = s.take(i + 1);
            let ghost run = s.subrange(start as int, i as int);
            assert(next.drop_last() =~= s.take(i as int));
            assert(next.last() == s[i as int]);
            assert(next[next.len() - 2] == s[i - 1]);
            assert(s[i - 1].state == s[start as int].state);
            if all[i].state != all[start].state || all[i].t.saturating_sub(all[i - 1].t)
                > SESSION_GAP_SECS {
                let ghost before = out@;
                assert(opens(next, next.len() - 1));
                out.push(slice_subrange(all, start, i));
                assert(contents(out@) =~= contents(before).push(run));
                start = i;
                assert(s.subrange(start as int, i + 1) =~= seq![s[i as int]]);
            } else {
                assert(!opens(next, next.len() - 1));
                assert(s.subrange(start as int, i + 1) =~= run.push(s[i as int]));
                assert(contents(out@).push(run).drop_last() =~= contents(out@));
            }
            i += 1;
        }
        let ghost before = out@;
        out.push(slice_subrange(all, start, n));
        assert(s.take(n as int) =~= s);
        assert(contents(out@) =~= contents(before).push(s.subrange(start as int, n as int)));
        out
    }

    /// The session still running at `now`, if it is in `state`.
    pub fn current_session(&self, state: PowerState, now: u64) -> (r: Option<&[Sample]>)
        ensures
            match r {
                Some(x) => running_session(self@, state, now) == Some(x@),
                None => running_session(self@, state, now) is None,
            },
    {
        let mut sessions = self.sessions();
        let ghost views = contents(sessions@);
        match sessions.pop() {
            None => {
                proof {
                    if self@.len() > 0 {
                        sessions_end_with_the_history(self@);
                    }
                }
                None
            },
            Some(session) => {
                assert(views.last() == session@);
                assert(self@.len() > 0);
                proof {
                    sessions_end_with_the_history(self@);
                }
                let last = session[session.len() - 1];
                if last.state == state && now.saturating_sub(last.t) <= SESSION_GAP_SECS {
                    Some(session)
                } else {
                    None
                }
            },
        }
    }

    /// The steps of every session of `state`, with the band each one starts
    /// in.
    pub fn band_steps(&self, state: PowerState) -> (r: Vec<BandStep>)
        ensures
            r@ == steps_by_band(self@, state),
    {
        let n = self.samples.len();
        let ghost s = self@;
        let mut out: Vec<BandStep> = Vec::new();
        if n == 0 {
            return out;
        }
        let mut i: usize = 1;
        while i < n
            invariant
                n == self.samples.len(),
                s == self.samples@,
                1 <= i <= n,
                out@ == steps_by_band(s.take(i as int), state),
            decreases n - i,
        {
            let a = self.samples[i - 1];
            let b = self.samples[i];
            let ghost next = s.take(i + 1);
            assert(next.drop_last() =~= s.take(i as int));
            assert(next[next.len() - 2] == a);
            assert(next.last() == b);
            if a.state == state && b.state == a.state && seconds_between(&a, &b)
                <= SESSION_GAP_SECS {
                out.push(BandStep { at: i - 1, band: a.band() });
            }
            i += 1;
        }
        assert(s.take(n as int) =~= s);
        out
    }

    /// Percent per hour observed in each band across every session of
    /// `state`, weighted by time spent there.
    pub fn band_rates(&self, state: PowerState) -> (r: [Option<Quantity>; 10])
        ensures
            r@ == learned_rates(self@, state),
    {
        let steps = self.band_steps(state);
        let n = self.samples.len();
        let ghost s = self@;
        proof {
            assert(self@.len() == n);
            band_steps_are_the_steps(self@, state);
        }
        let mut moved: [Quantity; 10] = [Quantity { bits: 0 };10];
        let mut hours: [Quantity; 10] = [Quantity { bits: 0 };10];
        let mut i: usize = 0;
        assert(steps@.take(0) =~= Seq::<BandStep>::empty());
        while i < steps.len()
            invariant
                i <= steps.len(),
                s == self.samples@,
                s.len() == n,
                steps@ == steps_by_band(s, state),
                forall|k: int|
                    0 <= k < steps_by_band(s, state).len() ==> {
                        let step = #[trigger] steps_by_band(s, state)[k];
                        &&& step.at + 1 < s.len()
                        &&& step.band < BANDS
                    },
                forall|b: int|
                    0 <= b < BANDS ==> #[trigger] moved@[b] == moved_in(
                        s,
                        steps@.take(i as int),
                        b,
                    ),
                forall|b: int|
                    0 <= b < BANDS ==> #[trigger] hours@[b] == hours_in(
                        s,
                        steps@.take(i as int),
                        b,
                    ),
            decreases steps.len() - i,
        {
            let step = steps[i];
            assert(steps_by_band(s, state)[i as int] == step);
            assert(steps@.take(i + 1).drop_last() =~= steps@.take(i as int));
            assert(steps@.take(i + 1).last() == step);
            let a = self.samples[step.at];
            let b = self.samples[step.at + 1];
            moved[step.band] = moved[step.band].plus(progress(&a, &b));
            hours[step.band] = hours[step.band].plus(hours_between(&a, &b));
            i += 1;
        }
        assert(steps@.take(steps.len() as int) =~= steps@);
        let mut rates: [Option<Quantity>; 10] = [None;10];
        let mut band: usize = 0;
        while band < BANDS
            invariant
                band <= BANDS,
                s == self@,
                steps@ == steps_by_band(s, state),
                forall|b: int|
                    0 <= b < BANDS ==> #[trigger] moved@[b] == moved_in(s, steps@, b),
                forall|b: int|
                    0 <= b < BANDS ==> #[trigger] hours@[b] == hours_in(s, steps@, b),
                forall|b: int|
                    0 <= b < band ==> #[trigger] rates@[b] == learned_rates(
                        s,
                        state,
                    )[b],
                forall|b: int| band <= b < BANDS ==> #[trigger] rates@[b] is None,
            decreases BANDS - band,
        {
            // Five minutes and a full percent of movement before a band is
            // trusted.
            if hours[band].times(Quantity::of(60)).reaches(FIVE_BITS) && moved[band].reaches(
                ONE_BITS,
            ) {
                rates[band] = Some(moved[band].over(hours[band]));
            }
            band += 1;
        }
        assert(rates@ =~= learned_rates(self@, state));
        rates
    }

    /// Take a sample now, unless the last one is recent and nothing has
    /// changed. Returns whether a sample was added.
    pub fn record(
        &mut self,
        battery: &BatteryInfo,
        estimate: &Estimate,
        now: u64,
    ) -> (r: bool)
        ensures
            r == crate::storage::is_due(old(self)@, battery.percent, battery.power_state(), now),
            final(self)@ == if r {
                old(self)@.push(crate::storage::sample_of(*battery, *estimate, now))
            } else {
                old(self)@
            },
            r ==> {
                let x = final(self)@.last();
                &&& x.t == now
                &&& x.percent == battery.percent
                &&& x.energy_wh == battery.energy_now_wh
                &&& x.energy_full_wh == battery.energy_full_wh
                &&& x.power_w == battery.power_watts
                &&& x.state == battery.power_state()
                &&& x.predicted_min == estimate.minutes
                &&& x.instant_min == estimate.instant_minutes
            },
    {
        let state = battery.state();
        let n = self.samples.len();
        if n > 0 {
            let last = self.samples[n - 1];
            if now <= last.t {
                return false;
            }
            let unchanged = last.percent == battery.percent && last.state == state;
            if unchanged && now - last.t < SAMPLE_INTERVAL_SECS {
                return false;
            }
        }
        self.samples.push(
            Sample {
                t: now,
                percent: battery.percent,
                energy_wh: battery.energy_now_wh,
                energy_full_wh: battery.energy_full_wh,
                power_w: battery.power_watts,
                state,
                predicted_min: estimate.minutes,
                instant_min: estimate.instant_minutes,
            },
        );
        true
    }

    /// Adds `sample` with the prediction that was made for its moment.
    pub fn replay(&mut self, sample: Sample, estimate: &Estimate)
        ensures
            final(self)@ == old(self)@.push(
                (Sample {
                    predicted_min: estimate.minutes,
                    instant_min: estimate.instant_minutes,
                    ..sample
                }),
            ),
    {
        self.samples.push(
            Sample {
                predicted_min: estimate.minutes,
                instant_min: estimate.instant_minutes,
                ..sample
            },
        );
    }

    /// The rate observed at `now` in the session that is running, if it is
    /// in `state`.
    fn observed_rate(&self, state: PowerState, now: u64, decay: &Decay) -> (r: Option<
        (Quantity, u32),
    >)
        ensures
            r == observed_in(self@, state, now, *decay),
    {
        match self.current_session(state, now) {
            Some(session) => recent_rate(session, now, decay),
            None => None,
        }
    }

    /// The estimate for `battery` at `now`.
    pub fn estimate(&self, battery: &BatteryInfo, now: u64, decay: &Decay) -> (r: Estimate)
        ensures
            r == estimate_in(
                self@,
                battery.percent,
                battery.power_state(),
                battery.instant(),
                now,
                *decay,
            ),
    {
        let state = battery.state();
        if state == PowerState::PluggedIn {
            return Estimate::idle(state);
        }
        let observed = self.observed_rate(state, now, decay);
        let bands = self.band_rates(state);
        estimate_from(battery.percent, state, battery.instant_minutes(), observed, &bands)
    }

    /// Every past prediction that can now be scored, oldest first.
    pub fn checkpoints(&self) -> (r: Vec<Checkpoint>)
        ensures
            r@ == crate::scoring::scored(self@),
    {
        score(self.samples.as_slice())
    }

    /// How the predictions since `since` have fared, or `None` with nothing
    /// scored yet.
    pub fn accuracy(&self, since: u64) -> (r: Option<Accuracy>)
        ensures
            r == crate::scoring::accuracy_of(
                crate::scoring::since_moment(crate::scoring::scored(self@), since),
            ),
    {
        accuracy(&self.checkpoints(), since)
    }

    /// A stored history as it is taken up at `now`: oldest first, without
    /// the samples that have grown too old, and whether there were any.
    pub fn load(stored: Vec<Sample>, now: u64) -> (r: (History, bool))
        ensures
            r.0@ == crate::storage::kept(stored@, now),
            r.1 == (crate::storage::kept(stored@, now).len() != stored.len()),
    {
        let cutoff = now.saturating_sub(MAX_AGE_SECS);
        let sorted = sort_by_time(&stored);
        let ghost young = |x: Sample| crate::storage::is_young(x, now);
        let mut samples: Vec<Sample> = Vec::new();
        let mut i: usize = 0;
        assert(sorted@.take(0).filter(young) =~= Seq::<Sample>::empty()) by {
            reveal(Seq::filter);
        }
        while i < sorted.len()
            invariant
                i <= sorted.len(),
                cutoff == crate::sample::elapsed(MAX_AGE_SECS, now),
                young == (|x: Sample| crate::storage::is_young(x, now)),
                samples@ == sorted@.take(i as int).filter(young),
            decreases sorted.len() - i,
        {
            assert(sorted@.take(i + 1).drop_last() =~= sorted@.take(i as int));
            assert(sorted@.take(i + 1).last() == sorted@[i as int]);
            reveal(Seq::filter);
            if sorted[i].t >= cutoff {
                samples.push(sorted[i]);
            }
            i += 1;
        }
        assert(sorted@.take(sorted.len() as int) =~= sorted@);
        let pruned = samples.len() != stored.len();
        (History { samples }, pruned)
    }
}

/// The rate observed at `now` in the session that is running, if it is in
/// `state`.
pub open spec fn observed_in(s: Seq<Sample>, state: PowerState, now: u64, decay: Decay) -> Option<
    (Quantity, u32),
> {
    match running_session(s, state, now) {
        Some(x) => crate::window::session_rate(x, now, decay),
        None => None,
    }
}

/// The estimate that a history makes for a battery at `now`.
pub open spec fn estimate_in(
    s: Seq<Sample>,
    percent: u8,
    state: PowerState,
    instant_minutes: Option<u32>,
    now: u64,
    decay: Decay,
) -> Estimate {
    crate::estimate::estimate_of(
        percent,
        state,
        instant_minutes,
        observed_in(s, state, now, decay),
        learned_rates(s, state),
    )
}

/// With no samples to go by, the estimate is the instant reading, to the
/// minute.
pub proof fn no_history_leaves_the_instant_reading(
    percent: u8,
    state: PowerState,
    minutes: u32,
    now: u64,
    decay: Decay,
)
    requires
        state != PowerState::PluggedIn,
        minutes > 0,
        crate::estimate::points_left(percent, state) > 0,
    ensures
        ({
            let e = estimate_in(Seq::empty(), percent, state, Some(minutes), now, decay);
            &&& e.minutes == Some(minutes)
            &&& e.instant_minutes == Some(minutes)
            &&& e.observed_pct_hr is None
            &&& e.basis == Basis::Instant
        }),
{
    let none = Seq::<Sample>::empty();
    let bands = learned_rates(none, state);
    assert forall|b: int| 0 <= b < BANDS implies (#[trigger] bands[b]) is None by {
        nothing_is_learnt_unseen(none, state, b);
    }
    crate::estimate::the_instant_reading_stands_alone(percent, state, minutes, bands);
}

/// When the last sample is older than a session's silence may be, nothing
/// counts as observed.
pub proof fn a_long_silence_ends_the_observation(
    s: Seq<Sample>,
    state: PowerState,
    now: u64,
    decay: Decay,
)
    requires
        s.len() > 0,
        now > s.last().t + SESSION_GAP_SECS,
    ensures
        observed_in(s, state, now, decay) is None,
{
}

/// Whether two histories hold the same readings, whatever was predicted from
/// them.
pub open spec fn same_readings(s: Seq<Sample>, t: Seq<Sample>) -> bool {
    &&& s.len() == t.len()
    &&& forall|i: int|
        #![trigger s[i]]
        #![trigger t[i]]
        0 <= i < s.len() ==> crate::sample::same_reading(s[i], t[i])
}

/// Past predictions never feed back into an estimate: histories of the same
/// readings make the same one.
pub proof fn predictions_do_not_feed_back(
    s: Seq<Sample>,
    t: Seq<Sample>,
    percent: u8,
    state: PowerState,
    instant_minutes: Option<u32>,
    now: u64,
    decay: Decay,
)
    requires
        same_readings(s, t),
        s.len() <= usize::MAX,
    ensures
        estimate_in(s, percent, state, instant_minutes, now, decay) == estimate_in(
            t,
            percent,
            state,
            instant_minutes,
            now,
            decay,
        ),
{
    // What was observed.
    if s.len() > 0 {
        assert(s.last() == s[s.len() - 1] && t.last() == t[t.len() - 1]);
        last_sessions_are_alike(s, t);
        let a = sessions_of(s).last();
        let b = sessions_of(t).last();
        steps_are_alike(a, b, now);
        crate::window::window_steps_are_recent(a, now);
        assert(crate::window::share_the_window(a, b, now));
        crate::window::rates_rest_on_the_window(a, b, now, decay);
    }
    // What was learnt.
    let steps = steps_by_band(s, state);
    band_steps_are_alike(s, t, state);
    band_steps_are_the_steps(s, state);
    assert forall|b: int| 0 <= b < BANDS implies learned_rates(s, state)[b] == learned_rates(
        t,
        state,
    )[b] by {
        totals_are_alike(s, t, steps, b);
    }
    assert(learned_rates(s, state) =~= learned_rates(t, state));
}

proof fn last_sessions_are_alike(s: Seq<Sample>, t: Seq<Sample>)
    requires
        same_readings(s, t),
        s.len() > 0,
    ensures
        same_readings(sessions_of(s).last(), sessions_of(t).last()),
        sessions_of(s).last().len() <= s.len(),
    decreases s.len(),
{
    let n = s.len() - 1;
    assert(s.last() == s[n] && t.last() == t[n]);
    assert(opens(s, n) == opens(t, n)) by {
        if n > 0 {
            assert(crate::sample::same_reading(s[n - 1], t[n - 1]));
        }
    }
    if !opens(s, n) {
        last_sessions_are_alike(s.drop_last(), t.drop_last());
    }
}

proof fn steps_are_alike(a: Seq<Sample>, b: Seq<Sample>, now: u64)
    requires
        same_readings(a, b),
    ensures
        crate::window::window_steps(a, now) == crate::window::window_steps(b, now),
    decreases a.len(),
{
    if a.len() >= 2 {
        steps_are_alike(a.drop_last(), b.drop_last(), now);
        assert(a.last() == a[a.len() - 1] && b.last() == b[b.len() - 1]);
    }
}

proof fn band_steps_are_alike(s: Seq<Sample>, t: Seq<Sample>, state: PowerState)
    requires
        same_readings(s, t),
    ensures
        steps_by_band(s, state) == steps_by_band(t, state),
    decreases s.len(),
{
    if s.len() >= 2 {
        band_steps_are_alike(s.drop_last(), t.drop_last(), state);
        let n = s.len() - 1;
        assert(crate::sample::same_reading(s[n], t[n]));
        assert(crate::sample::same_reading(s[n - 1], t[n - 1]));
    }
}

proof fn totals_are_alike(s: Seq<Sample>, t: Seq<Sample>, steps: Seq<BandStep>, b: int)
    requires
        same_readings(s, t),
        forall|i: int| 0 <= i < steps.len() ==> (#[trigger] steps[i]).at + 1 < s.len(),
    ensures
        moved_in(s, steps, b) == moved_in(t, steps, b),
        hours_in(s, steps, b) == hours_in(t, steps, b),
    decreases steps.len(),
{
    if steps.len() > 0 {
        let rest = steps.drop_last();
        assert forall|i: int| 0 <= i < rest.len() implies (#[trigger] rest[i]).at + 1 < s.len() by {
            assert(rest[i] == steps[i]);
        }
        totals_are_alike(s, t, rest, b);
        let at = steps[steps.len() - 1].at as int;
        assert(crate::sample::same_reading(s[at], t[at]));
        assert(crate::sample::same_reading(s[at + 1], t[at + 1]));
    }
}

} // verus!
