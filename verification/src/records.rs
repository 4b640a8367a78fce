//! What the history holds: each reading as it was, for thirty days.

use crate::estimate::Estimate;
use crate::power::BatteryInfo;
use crate::quantity::Quantity;
use crate::sample::Sample;
use vstd::prelude::*;

verus! {

use crate::binary::{one_in_units, size, whole};
use crate::measures::about;
use crate::readings::is_measured;
use crate::storage::{is_due, kept, sample_of};

/// A sample holds what was read, figure by figure, and what was estimated.
pub proof fn samples_hold_the_reading(battery: BatteryInfo, estimate: Estimate, now: u64)
    ensures
        ({
            let x = sample_of(battery, estimate, now);
            &&& x.t == now
            &&& x.percent == battery.percent
            &&& x.energy_wh == battery.energy_now_wh
            &&& x.energy_full_wh == battery.energy_full_wh
            &&& x.power_w == battery.power_watts
            &&& x.state == battery.power_state()
            &&& x.predicted_min == estimate.minutes
            &&& x.instant_min == estimate.instant_minutes
        }),
{
}

/// The charge of a sample is what the battery held of what it then could
/// hold, in percent; where one of the two is not known it is the percentage
/// that the kernel gave.
pub proof fn recorded_charge_is_energy_over_full(
    battery: BatteryInfo,
    estimate: Estimate,
    now: u64,
)
    ensures
        ({
            let q = sample_of(battery, estimate, now).charge();
            let (held, full) = (battery.energy_now_wh, battery.energy_full_wh);
            &&& is_measured(held) && is_measured(full) ==> about(
                (size(q) * size(full)) as int,
                ((100 * size(held)) * one_in_units()) as int,
                5,
            )
            &&& !(Quantity { bits: 0 }).less(held) || !(Quantity { bits: 0 }).less(full) ==> q
                == whole(battery.percent as nat)
        }),
{
    crate::readings::charge_is_energy_over_full(sample_of(battery, estimate, now));
}

/// Two readings that agree but for the capacity the battery was built with,
/// its cycles, its temperature and its name make the same sample.
pub proof fn design_capacity_is_not_recorded(
    a: BatteryInfo,
    b: BatteryInfo,
    estimate: Estimate,
    now: u64,
)
    requires
        a.percent == b.percent,
        a.energy_now_wh == b.energy_now_wh,
        a.energy_full_wh == b.energy_full_wh,
        a.power_watts == b.power_watts,
        a.power_state() == b.power_state(),
    ensures
        sample_of(a, estimate, now) == sample_of(b, estimate, now),
{
}

/// A sample follows the last one after a minute; sooner only when the percent
/// or the state changed, and never when the clock has not moved on.
pub proof fn samples_are_due_each_minute(s: Seq<Sample>, battery: BatteryInfo, now: u64)
    requires
        s.len() > 0,
    ensures
        ({
            let due = is_due(s, battery.percent, battery.power_state(), now);
            let changed = s.last().percent != battery.percent || s.last().state
                != battery.power_state();
            &&& now >= s.last().t + 60 ==> due
            &&& s.last().t < now < s.last().t + 60 ==> due == changed
            &&& now <= s.last().t ==> !due
        }),
{
}

/// The first sample is due at once.
pub proof fn first_samples_are_due(battery: BatteryInfo, now: u64)
    ensures
        is_due(Seq::empty(), battery.percent, battery.power_state(), now),
{
}

proof fn filters_keep_counts(s: Seq<Sample>, now: u64, x: Sample)
    ensures
        crate::storage::young(s, now).to_multiset().count(x) == if x.t + 2_592_000 >= now {
            s.to_multiset().count(x)
        } else {
            0
        },
    decreases s.len(),
{
    broadcast use vstd::seq_lib::group_to_multiset_ensures;

    reveal(Seq::filter);
    if s.len() > 0 {
        let rest = s.drop_last();
        filters_keep_counts(rest, now, x);
        assert(s =~= rest.push(s.last()));
    }
}

/// Every stored sample of the last thirty days is kept, as often as it was
/// stored, and no other is.
pub proof fn thirty_days_are_kept(stored: Seq<Sample>, now: u64, x: Sample)
    ensures
        x.t + 2_592_000 >= now ==> kept(stored, now).to_multiset().count(x)
            == stored.to_multiset().count(x),
        x.t + 2_592_000 < now ==> kept(stored, now).to_multiset().count(x) == 0,
{
    crate::storage::ordering_keeps_every_sample(stored);
    filters_keep_counts(crate::storage::by_time(stored), now, x);
}

/// What is kept runs from the oldest sample to the latest.
pub proof fn kept_samples_run_forward(stored: Seq<Sample>, now: u64, i: int, j: int)
    requires
        0 <= i <= j < kept(stored, now).len(),
    ensures
        kept(stored, now)[i].t <= kept(stored, now)[j].t,
        kept(stored, now)[i].t + 2_592_000 >= now,
{
    crate::storage::loading_settles(stored, now);
    assert(crate::storage::is_young(kept(stored, now)[i], now));
}

} // verus!
