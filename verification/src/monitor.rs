//! The one live picture of the battery: the latest reading, the estimate
//! built on it, and the history it came from.

use crate::estimate::Estimate;
use crate::history::History;
use crate::power::BatteryInfo;
use crate::sample::Sample;
use crate::window::Decay;
use vstd::prelude::*;

verus! {

/// The latest reading, the estimate built on it, and the history it came
/// from.
#[derive(Debug)]
pub struct Monitor {
    pub battery: BatteryInfo,
    pub estimate: Estimate,
    pub history: History,
    /// Unix seconds of the latest refresh.
    pub now: u64,
}

/// Whether a reading is added to the history: it is that of a real battery,
/// and a sample is due.
pub open spec fn is_taken(
    s: Seq<crate::sample::Sample>,
    battery: BatteryInfo,
    now: u64,
) -> bool {
    battery.is_real && crate::storage::is_due(s, battery.percent, battery.power_state(), now)
}

/// A history after a reading was offered to it.
pub open spec fn after_reading(
    s: Seq<crate::sample::Sample>,
    battery: BatteryInfo,
    estimate: Estimate,
    now: u64,
) -> Seq<crate::sample::Sample> {
    if is_taken(s, battery, now) {
        s.push(crate::storage::sample_of(battery, estimate, now))
    } else {
        s
    }
}

/// The estimate for a battery at `now`, from a history.
pub open spec fn estimate_for(
    s: Seq<crate::sample::Sample>,
    battery: BatteryInfo,
    now: u64,
    decay: Decay,
) -> Estimate {
    crate::history::estimate_in(
        s,
        battery.percent,
        battery.power_state(),
        battery.instant(),
        now,
        decay,
    )
}

/// The history that is taken up at the start: the stored one, or a made-up
/// one for a computer with no battery.
pub open spec fn taken_up(
    battery: BatteryInfo,
    stored: Seq<crate::sample::Sample>,
    now: u64,
    decay: Decay,
) -> Seq<crate::sample::Sample> {
    if battery.is_real {
        crate::storage::kept(stored, now)
    } else {
        crate::demo::replayed(now, decay, crate::demo::demo_moments(now))
    }
}

/// The picture at the start, and what became of the stored history.
pub struct Started {
    pub monitor: Monitor,
    /// Whether samples had grown too old and were dropped.
    pub pruned: bool,
    /// Whether a sample was added.
    pub added: bool,
}

impl Monitor {
    /// The picture at the start, from a reading of the battery and the
    /// samples that were stored.
    pub fn start(battery: BatteryInfo, stored: Vec<Sample>, now: u64, decay: &Decay) -> (r: Started)
        ensures
            ({
                let s = taken_up(battery, stored@, now, *decay);
                let estimate = estimate_for(s, battery, now, *decay);
                &&& r.monitor.battery == battery
                &&& r.monitor.estimate == estimate
                &&& r.monitor.now == now
                &&& r.monitor.history@ == after_reading(s, battery, estimate, now)
                &&& r.added == is_taken(s, battery, now)
                &&& r.pruned == (battery.is_real && s.len() != stored.len())
            }),
    {
        let (history, pruned) = if battery.is_real {
            History::load(stored, now)
        } else {
            (History::demo(now, decay), false)
        };
        let estimate = history.estimate(&battery, now, decay);
        let mut monitor = Monitor { battery, estimate, history, now };
        let added = monitor.record();
        Started { monitor, pruned, added }
    }

    /// The picture after the battery was read again: re-estimated, and with
    /// a sample taken if it is due. Returns whether one was.
    pub fn refresh(&mut self, battery: BatteryInfo, now: u64, decay: &Decay) -> (r: bool)
        ensures
            final(self).battery == battery,
            final(self).estimate == estimate_for(old(self).history@, battery, now, *decay),
            final(self).now == now,
            final(self).history@ == after_reading(
                old(self).history@,
                battery,
                final(self).estimate,
                now,
            ),
            r == is_taken(old(self).history@, battery, now),
    {
        self.battery = battery;
        self.now = now;
        self.estimate = self.history.estimate(&self.battery, self.now, decay);
        self.record()
    }

    fn record(&mut self) -> (r: bool)
        ensures
            final(self).battery == old(self).battery,
            final(self).estimate == old(self).estimate,
            final(self).now == old(self).now,
            final(self).history@ == after_reading(
                old(self).history@,
                old(self).battery,
                old(self).estimate,
                old(self).now,
            ),
            r == is_taken(old(self).history@, old(self).battery, old(self).now),
    {
        if self.battery.is_real {
            self.history.record(&self.battery, &self.estimate, self.now)
        } else {
            false
        }
    }
}

/// Demo data is never recorded.
pub proof fn made_up_readings_leave_no_trace(
    s: Seq<crate::sample::Sample>,
    battery: BatteryInfo,
    estimate: Estimate,
    now: u64,
)
    requires
        !battery.is_real,
    ensures
        after_reading(s, battery, estimate, now) == s,
{
}

/// However often the battery is read, the history keeps one sample a minute
/// unless something changes.
pub proof fn readings_keep_the_history_spaced(
    s: Seq<crate::sample::Sample>,
    battery: BatteryInfo,
    estimate: Estimate,
    now: u64,
)
    requires
        crate::storage::is_spaced(s),
    ensures
        crate::storage::is_spaced(after_reading(s, battery, estimate, now)),
{
    if is_taken(s, battery, now) {
        crate::storage::recording_keeps_samples_spaced(s, battery, estimate, now);
    }
}

} // verus!
