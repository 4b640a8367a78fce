//! A made-up day of use for a computer with no battery: a morning on the
//! adapter, a discharge through the afternoon, a top-up.

use crate::history::History;
use crate::power::{BatteryInfo, PowerState, DEMO_FULL_BITS};
use crate::quantity::{Quantity, NINETY_SIX_BITS, ONE_BITS};
use crate::sample::Sample;
use crate::storage::SAMPLE_INTERVAL_SECS;
use crate::window::Decay;
use vstd::prelude::*;

verus! {

use crate::binary::{
    clamped, difference, negated, product, quotient, rounded_to, sum, whole,
};

/// How far back the made-up day begins.
pub const DEMO_SECS: u64 = 28_800;

/// 1.8: by how much the burst speeds the drain up.
pub const BURST_BITS: u64 = 0x3FFC_CCCC_CCCC_CCCD;

/// What goes on at one moment of the made-up day.
#[derive(Clone, Copy, Debug, PartialEq, Eq, Structural)]
pub enum DemoPhase {
    OnAdapter,
    /// A drain that speeds up as the cell empties, with a lumpy burst of
    /// work in the middle.
    Draining { burst: bool },
    ToppingUp,
}

impl DemoPhase {
    /// The power state of this phase.
    pub open spec fn runs_on(self) -> PowerState {
        match self {
            DemoPhase::OnAdapter => PowerState::PluggedIn,
            DemoPhase::Draining { .. } => PowerState::OnBattery,
            DemoPhase::ToppingUp => PowerState::Charging,
        }
    }

    /// The power state of this phase.
    pub fn state(self) -> (r: PowerState)
        ensures
            r == self.runs_on(),
    {
        match self {
            DemoPhase::OnAdapter => PowerState::PluggedIn,
            DemoPhase::Draining { .. } => PowerState::OnBattery,
            DemoPhase::ToppingUp => PowerState::Charging,
        }
    }
}

/// The moment at which the made-up day begins.
pub open spec fn demo_start(now: u64) -> nat {
    crate::sample::elapsed(DEMO_SECS, now)
}

/// How many moments the made-up day has, one a minute.
pub open spec fn demo_moments(now: u64) -> nat {
    ((now - demo_start(now)) / SAMPLE_INTERVAL_SECS as int + 1) as nat
}

/// What goes on `minute` minutes into the made-up day, with the charge at
/// `level` percent.
pub open spec fn phase_at(minute: nat, level: Quantity) -> DemoPhase {
    if minute < 60 {
        DemoPhase::OnAdapter
    } else if minute < 360 {
        DemoPhase::Draining { burst: 170 <= minute < 200 }
    } else if level.less(Quantity { bits: NINETY_SIX_BITS }) {
        DemoPhase::ToppingUp
    } else {
        DemoPhase::OnAdapter
    }
}

/// What goes on `minute` minutes into the made-up day.
pub fn demo_phase(minute: u64, level: Quantity) -> (r: DemoPhase)
    ensures
        r == phase_at(minute as nat, level),
{
    if minute < 60 {
        DemoPhase::OnAdapter
    } else if minute < 360 {
        DemoPhase::Draining { burst: 170 <= minute && minute < 200 }
    } else if level.is_below(NINETY_SIX_BITS) {
        DemoPhase::ToppingUp
    } else {
        DemoPhase::OnAdapter
    }
}

/// How fast the made-up battery drains, percent per hour: faster as the cell
/// empties, and almost twice as fast in the burst.
pub open spec fn drain_rate(level: Quantity, burst: bool) -> Quantity {
    product(
        product(
            whole(14),
            sum(
                Quantity { bits: ONE_BITS },
                quotient(difference(whole(100), level), whole(200)),
            ),
        ),
        Quantity {
            bits: if burst {
                BURST_BITS
            } else {
                ONE_BITS
            },
        },
    )
}

/// By how much the charge moves in the minute that a phase lasts.
pub open spec fn phase_delta(phase: DemoPhase, level: Quantity) -> Quantity {
    match phase {
        DemoPhase::OnAdapter => Quantity { bits: 0 },
        DemoPhase::Draining { burst } => quotient(negated(drain_rate(level, burst)), whole(60)),
        DemoPhase::ToppingUp => quotient(whole(40), whole(60)),
    }
}

/// The power that flows in a phase, in watts.
pub open spec fn phase_power(phase: DemoPhase, level: Quantity) -> Quantity {
    match phase {
        DemoPhase::OnAdapter => Quantity { bits: 0 },
        DemoPhase::Draining { burst } => product(
            quotient(drain_rate(level, burst), whole(100)),
            Quantity { bits: DEMO_FULL_BITS },
        ),
        DemoPhase::ToppingUp => whole(28),
    }
}

/// The charge after the first `n` minutes of the made-up day, in percent.
pub open spec fn demo_level(n: nat) -> Quantity
    decreases n,
{
    if n == 0 {
        whole(100)
    } else {
        let level = demo_level((n - 1) as nat);
        clamped(
            sum(level, phase_delta(phase_at((n - 1) as nat, level), level)),
            Quantity { bits: 0 },
            whole(100),
        )
    }
}

/// The sample of minute `i` of the made-up day, before anything is predicted.
pub open spec fn demo_sample(now: u64, i: nat) -> Sample {
    let level = demo_level(i);
    let phase = phase_at(i, level);
    let next = demo_level(i + 1);
    Sample {
        t: (demo_start(now) + i * SAMPLE_INTERVAL_SECS) as u64,
        percent: rounded_to(next, 255) as u8,
        energy_wh: product(quotient(next, whole(100)), Quantity { bits: DEMO_FULL_BITS }),
        energy_full_wh: Quantity { bits: DEMO_FULL_BITS },
        power_w: phase_power(phase, level),
        state: phase.runs_on(),
        predicted_min: None,
        instant_min: None,
    }
}

/// The first `n` samples of the made-up day, each with the prediction that
/// the model would have made at its moment.
pub open spec fn replayed(now: u64, decay: Decay, n: nat) -> Seq<Sample>
    decreases n,
{
    if n == 0 {
        Seq::empty()
    } else {
        let before = replayed(now, decay, (n - 1) as nat);
        let x = demo_sample(now, (n - 1) as nat);
        let e = crate::history::estimate_in(
            before,
            x.percent,
            x.state,
            crate::power::instant_of(x.state, x.power_w, x.energy_wh, x.energy_full_wh),
            x.t,
            decay,
        );
        before.push(Sample { predicted_min: e.minutes, instant_min: e.instant_minutes, ..x })
    }
}

/// The kernel's word for a power state.
pub open spec fn demo_status(state: PowerState) -> Seq<char> {
    match state {
        PowerState::OnBattery => "Discharging"@,
        PowerState::Charging => "Charging"@,
        PowerState::PluggedIn => "Full"@,
    }
}

/// The battery that a made-up sample was read from.
fn demo_battery(sample: &Sample) -> (r: BatteryInfo)
    ensures
        r.percent == sample.percent,
        r.power_state() == sample.state,
        r.power_watts == sample.power_w,
        r.energy_now_wh == sample.energy_wh,
        r.energy_full_wh == sample.energy_full_wh,
{
    let status: &str = match sample.state {
        PowerState::OnBattery => "Discharging",
        PowerState::Charging => "Charging",
        PowerState::PluggedIn => "Full",
    };
    let made_up = BatteryInfo::default();
    let battery = BatteryInfo {
        percent: sample.percent,
        status: status.to_owned(),
        ac_online: made_up.ac_online,
        power_watts: sample.power_w,
        energy_now_wh: sample.energy_wh,
        energy_full_wh: sample.energy_full_wh,
        energy_design_wh: made_up.energy_design_wh,
        temperature_c: made_up.temperature_c,
        cycle_count: made_up.cycle_count,
        battery_name: made_up.battery_name,
        is_real: made_up.is_real,
    };
    proof {
        statuses_name_their_state(battery, sample.state);
    }
    battery
}

proof fn statuses_name_their_state(b: BatteryInfo, state: PowerState)
    requires
        b.status@ == demo_status(state),
    ensures
        b.power_state() == state,
{
    reveal_strlit("Discharging");
    reveal_strlit("discharging");
    reveal_strlit("Charging");
    reveal_strlit("charging");
    reveal_strlit("Full");
    reveal_strlit("full");
    assert(crate::text::lowered("Discharging"@) =~= crate::text::lowered("discharging"@));
    assert(crate::text::lowered("Charging"@) =~= crate::text::lowered("charging"@));
    assert(crate::text::lowered("Full"@) =~= crate::text::lowered("full"@));
    assert(crate::text::lowered("discharging"@).len() == 11);
    assert(crate::text::lowered("charging"@).len() == 8);
    assert(crate::text::lowered("full"@).len() == 4);
}

fn drain(level: Quantity, burst: bool) -> (r: Quantity)
    ensures
        r == drain_rate(level, burst),
{
    let shape = Quantity { bits: ONE_BITS }.plus(
        Quantity::of(100).minus(level).over(Quantity::of(200)),
    );
    let factor = if burst {
        Quantity { bits: BURST_BITS }
    } else {
        Quantity { bits: ONE_BITS }
    };
    Quantity::of(14).times(shape).times(factor)
}

/// The charge after a minute of `phase`, and the power that flowed in it.
fn minute_of(phase: DemoPhase, level: Quantity) -> (r: (Quantity, Quantity))
    ensures
        r.0 == clamped(
            sum(level, phase_delta(phase, level)),
            Quantity { bits: 0 },
            whole(100),
        ),
        r.1 == phase_power(phase, level),
{
    let (delta, power) = match phase {
        DemoPhase::OnAdapter => (Quantity::zero(), Quantity::zero()),
        DemoPhase::Draining { burst } => {
            let rate = drain(level, burst);
            (
                rate.opposite().over(Quantity::of(60)),
                rate.over(Quantity::of(100)).times(Quantity { bits: DEMO_FULL_BITS }),
            )
        },
        DemoPhase::ToppingUp => (Quantity::of(40).over(Quantity::of(60)), Quantity::of(28)),
    };
    (level.plus(delta).clamp(Quantity::zero(), Quantity::of(100)), power)
}

impl History {
    /// Eight hours of plausible use for a computer with no battery: a
    /// morning on the adapter, a discharge through the afternoon, a top-up.
    /// Each sample carries the prediction the model would have made at that
    /// moment, which is what the accuracy view scores.
    pub fn demo(now: u64, decay: &Decay) -> (r: History)
        ensures
            r@ == replayed(now, *decay, demo_moments(now)),
    {
        let start = now.saturating_sub(DEMO_SECS);
        let n: u64 = (now - start) / SAMPLE_INTERVAL_SECS + 1;
        let mut history = History::in_memory(Vec::new());
        let mut level = Quantity::of(100);
        let mut i: u64 = 0;
        while i < n
            invariant
                i <= n,
                start == demo_start(now),
                start <= now,
                now - start <= DEMO_SECS,
                n == demo_moments(now),
                level == demo_level(i as nat),
                history@ == replayed(now, *decay, i as nat),
            decreases n - i,
        {
            let phase = demo_phase(i, level);
            let (next, power_w) = minute_of(phase, level);
            let sample = Sample {
                t: start + i * SAMPLE_INTERVAL_SECS,
                percent: next.round(255) as u8,
                energy_wh: next.over(Quantity::of(100)).times(Quantity { bits: DEMO_FULL_BITS }),
                energy_full_wh: Quantity { bits: DEMO_FULL_BITS },
                power_w,
                state: phase.state(),
                predicted_min: None,
                instant_min: None,
            };
            assert(next == demo_level(i as nat + 1));
            assert(sample == demo_sample(now, i as nat));
            let battery = demo_battery(&sample);
            let estimate = history.estimate(&battery, sample.t, decay);
            history.replay(sample, &estimate);
            level = next;
            i += 1;
        }
        history
    }
}

/// The made-up charge never leaves the range from empty to full.
pub proof fn demo_levels_stay_in_range(n: nat)
    ensures
        (Quantity { bits: 0 }).at_most(demo_level(n)),
        demo_level(n).at_most(whole(100)),
    decreases n,
{
    let full = whole(100);
    crate::binary::small_wholes_are_exact(100);
    crate::binary::order_is_that_of_values(Quantity { bits: 0 }, full);
    if n > 0 {
        let m = (n - 1) as nat;
        let level = demo_level(m);
        demo_levels_stay_in_range(m);
        let phase = phase_at(m, level);
        deltas_are_numbers(phase, level);
        crate::binary::sums_are_numbers(level, phase_delta(phase, level));
    }
}

proof fn deltas_are_numbers(phase: DemoPhase, level: Quantity)
    requires
        crate::binary::is_finite(level),
    ensures
        phase_delta(phase, level).is_number(),
{
    let one = Quantity { bits: ONE_BITS };
    crate::binary::small_wholes_are_exact(14);
    crate::binary::small_wholes_are_exact(40);
    crate::binary::small_wholes_are_exact(60);
    crate::binary::small_wholes_are_exact(100);
    crate::binary::small_wholes_are_exact(200);
    crate::binary::one_is_one();
    if let DemoPhase::Draining { burst } = phase {
        let factor = Quantity {
            bits: if burst {
                BURST_BITS
            } else {
                ONE_BITS
            },
        };
        let missing = difference(whole(100), level);
        crate::binary::sums_are_numbers(whole(100), negated(level));
        crate::binary::quotients_are_numbers(missing, whole(200));
        let part = quotient(missing, whole(200));
        crate::binary::sums_are_numbers(one, part);
        let shape = sum(one, part);
        crate::binary::products_are_numbers(whole(14), shape);
        let steady = product(whole(14), shape);
        crate::binary::only_zeros_have_no_size(factor);
        crate::binary::products_are_numbers(factor, steady);
        crate::binary::products_commute(factor, steady);
        crate::binary::quotients_are_numbers(negated(drain_rate(level, burst)), whole(60));
    } else {
        crate::binary::quotients_are_numbers(whole(40), whole(60));
    }
}

/// Every moment of the made-up day has its sample, one a minute, each in the
/// state of its phase.
pub proof fn every_moment_is_replayed(now: u64, decay: Decay, n: nat, i: int)
    requires
        0 <= i < n,
    ensures
        replayed(now, decay, n).len() == n,
        replayed(now, decay, n)[i].t == demo_sample(now, i as nat).t,
        replayed(now, decay, n)[i].percent == demo_sample(now, i as nat).percent,
        replayed(now, decay, n)[i].state == phase_at(i as nat, demo_level(i as nat)).runs_on(),
    decreases n,
{
    assert(replayed(now, decay, 0).len() == 0);
    if n > 1 {
        every_moment_is_replayed(now, decay, (n - 1) as nat, if i < n - 1 {
            i
        } else {
            0
        });
    }
}

} // verus!
