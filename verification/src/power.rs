//! What the machine is running on, and the battery it was read from.

use crate::quantity::{Quantity, TENTH_BITS};
use crate::text::same_ignoring_case;
use vstd::prelude::*;

verus! {

use crate::binary::{difference, product, quotient, rounded_to, whole};
use crate::text::agrees;

/// Whether the machine is drawing from the battery, filling it, or sitting
/// on the adapter with the battery full (or held at a charge limit).
#[derive(Clone, Copy, Debug, PartialEq, Eq, Structural)]
pub enum PowerState {
    OnBattery,
    Charging,
    PluggedIn,
}

impl PowerState {
    /// The state in words.
    pub open spec fn name(self) -> Seq<char> {
        match self {
            PowerState::OnBattery => "On battery"@,
            PowerState::Charging => "Charging"@,
            PowerState::PluggedIn => "Plugged in"@,
        }
    }

    /// The state in words.
    pub fn label(self) -> (r: &'static str)
        ensures
            r@ == self.name(),
    {
        match self {
            PowerState::OnBattery => "On battery",
            PowerState::Charging => "Charging",
            PowerState::PluggedIn => "Plugged in",
        }
    }
}

/// One reading of the battery and of the adapter beside it.
#[derive(Clone, Debug)]
pub struct BatteryInfo {
    pub percent: u8,
    pub status: String,
    /// `Some(true)` when a mains or USB supply reports itself online.
    pub ac_online: Option<bool>,
    pub power_watts: Quantity,
    pub energy_now_wh: Quantity,
    pub energy_full_wh: Quantity,
    pub energy_design_wh: Quantity,
    pub temperature_c: Option<Quantity>,
    pub cycle_count: Option<u32>,
    pub battery_name: String,
    pub is_real: bool,
}

/// 8.4 watts.
pub const DEMO_POWER_BITS: u64 = 0x4020_CCCC_CCCC_CCCD;

/// 60.5 watt-hours.
pub const DEMO_NOW_BITS: u64 = 0x404E_4000_0000_0000;

/// 67.2 watt-hours.
pub const DEMO_FULL_BITS: u64 = 0x4050_CCCC_CCCC_CCCD;

/// 70 watt-hours.
pub const DEMO_DESIGN_BITS: u64 = 0x4051_8000_0000_0000;

/// 34 degrees.
pub const DEMO_TEMPERATURE_BITS: u64 = 0x4041_0000_0000_0000;

impl Default for BatteryInfo {
    /// The made-up reading of a computer without a battery.
    fn default() -> (r: BatteryInfo)
        ensures
            r.is_made_up(),
    {
        BatteryInfo {
            percent: 90,
            status: "Discharging".to_owned(),
            ac_online: Some(false),
            power_watts: Quantity { bits: DEMO_POWER_BITS },
            energy_now_wh: Quantity { bits: DEMO_NOW_BITS },
            energy_full_wh: Quantity { bits: DEMO_FULL_BITS },
            energy_design_wh: Quantity { bits: DEMO_DESIGN_BITS },
            temperature_c: Some(Quantity { bits: DEMO_TEMPERATURE_BITS }),
            cycle_count: Some(84),
            battery_name: "Battery".to_owned(),
            is_real: false,
        }
    }
}

/// The state that a kernel status, the adapter and the power reading name.
/// The status decides when it is one of the four words the kernel documents;
/// the adapter decides otherwise, and a power reading above a tenth of a
/// watt when there is no adapter to ask.
pub open spec fn state_of(
    status: Seq<char>,
    ac_online: Option<bool>,
    power_watts: Quantity,
) -> PowerState {
    if agrees(status, "charging"@) {
        PowerState::Charging
    } else if agrees(status, "discharging"@) {
        PowerState::OnBattery
    } else if agrees(status, "full"@) || agrees(status, "not charging"@) {
        PowerState::PluggedIn
    } else {
        match ac_online {
            Some(true) => PowerState::PluggedIn,
            Some(false) => PowerState::OnBattery,
            None => if (Quantity { bits: TENTH_BITS }).less(power_watts) {
                PowerState::OnBattery
            } else {
                PowerState::PluggedIn
            },
        }
    }
}

impl BatteryInfo {
    /// Whether this is the made-up reading of a computer without a battery.
    pub open spec fn is_made_up(self) -> bool {
        &&& self.percent == 90
        &&& self.status@ == "Discharging"@
        &&& self.ac_online == Some(false)
        &&& self.power_watts.bits == DEMO_POWER_BITS
        &&& self.energy_now_wh.bits == DEMO_NOW_BITS
        &&& self.energy_full_wh.bits == DEMO_FULL_BITS
        &&& self.energy_design_wh.bits == DEMO_DESIGN_BITS
        &&& self.temperature_c == Some(Quantity { bits: DEMO_TEMPERATURE_BITS })
        &&& self.cycle_count == Some(84u32)
        &&& self.battery_name@ == "Battery"@
        &&& !self.is_real
    }

    /// The state this reading names.
    pub open spec fn power_state(self) -> PowerState {
        state_of(self.status@, self.ac_online, self.power_watts)
    }

    /// The kernel's `status` first; the adapter decides the ambiguous cases.
    /// "Not charging" and "Full" both mean the adapter is carrying the
    /// load, whether the battery is at 100% or held at a charge limit.
    pub fn state(&self) -> (r: PowerState)
        ensures
            r == self.power_state(),
    {
        let status = self.status.as_str();
        if same_ignoring_case(status, "charging") {
            PowerState::Charging
        } else if same_ignoring_case(status, "discharging") {
            PowerState::OnBattery
        } else if same_ignoring_case(status, "full") || same_ignoring_case(status, "not charging") {
            PowerState::PluggedIn
        } else {
            match self.ac_online {
                Some(true) => PowerState::PluggedIn,
                Some(false) => PowerState::OnBattery,
                None => if self.power_watts.is_above(TENTH_BITS) {
                    PowerState::OnBattery
                } else {
                    PowerState::PluggedIn
                },
            }
        }
    }

    /// How much of the design capacity is left, in percent.
    pub open spec fn health(self) -> nat {
        if self.energy_design_wh.at_most(Quantity { bits: 0 }) {
            100
        } else {
            rounded_to(
                product(quotient(self.energy_full_wh, self.energy_design_wh), whole(100)),
                100,
            )
        }
    }

    /// How much of the design capacity is left, in percent, at most 100. A
    /// battery that states no design capacity counts as new.
    pub fn health_percent(&self) -> (r: u8)
        ensures
            r == self.health(),
            r <= 100,
    {
        if self.energy_design_wh.is_at_most(Quantity::zero()) {
            return 100;
        }
        self.energy_full_wh.over(self.energy_design_wh).times(Quantity::of(100)).round(100) as u8
    }

    /// Minutes to empty or to full from this instant's power reading.
    pub open spec fn instant(self) -> Option<u32> {
        instant_of(
            self.power_state(),
            self.power_watts,
            self.energy_now_wh,
            self.energy_full_wh,
        )
    }

    /// Minutes to empty (on battery) or to full (charging) from nothing but
    /// this instant's power reading, the way a naive meter would show it.
    pub fn instant_minutes(&self) -> (r: Option<u32>)
        ensures
            r == self.instant(),
    {
        if self.power_watts.is_at_most(Quantity { bits: TENTH_BITS }) {
            return None;
        }
        let energy = match self.state() {
            PowerState::OnBattery => if Quantity::zero().is_less(self.energy_now_wh) {
                self.energy_now_wh
            } else {
                return None;
            },
            PowerState::Charging => if self.energy_now_wh.is_less(self.energy_full_wh) {
                self.energy_full_wh.minus(self.energy_now_wh)
            } else {
                return None;
            },
            PowerState::PluggedIn => {
                return None;
            },
        };
        Some(energy.over(self.power_watts).times(Quantity::of(60)).round(u32::MAX))
    }
}

/// The whole minutes that an energy lasts at a power.
pub open spec fn minutes_at(energy: Quantity, power_watts: Quantity) -> u32 {
    rounded_to(product(quotient(energy, power_watts), whole(60)), u32::MAX as nat) as u32
}

/// Minutes to empty (on battery) or to full (charging) at a power reading:
/// none at a tenth of a watt or less, none plugged in, and none when there is
/// nothing left to drain or to fill.
pub open spec fn instant_of(
    state: PowerState,
    power_watts: Quantity,
    energy_now_wh: Quantity,
    energy_full_wh: Quantity,
) -> Option<u32> {
    if power_watts.at_most(Quantity { bits: TENTH_BITS }) {
        None
    } else if state == PowerState::OnBattery && (Quantity { bits: 0 }).less(energy_now_wh) {
        Some(minutes_at(energy_now_wh, power_watts))
    } else if state == PowerState::Charging && energy_now_wh.less(energy_full_wh) {
        Some(minutes_at(difference(energy_full_wh, energy_now_wh), power_watts))
    } else {
        None
    }
}

/// The kernel's "Full" and "Not charging" mean the adapter carries the load,
/// whatever the adapter or the power reading say, in any mix of cases.
pub proof fn full_and_held_are_plugged_in(b: BatteryInfo)
    requires
        agrees(b.status@, "Full"@) || agrees(b.status@, "Not charging"@),
    ensures
        b.power_state() == PowerState::PluggedIn,
        b.instant() is None,
{
    reveal_strlit("Full");
    reveal_strlit("full");
    reveal_strlit("Not charging");
    reveal_strlit("not charging");
    reveal_strlit("charging");
    reveal_strlit("discharging");
    assert(crate::text::lowered("Full"@) =~= crate::text::lowered("full"@));
    assert(crate::text::lowered("Not charging"@) =~= crate::text::lowered("not charging"@));
    assert(crate::text::lowered("full"@).len() == 4);
    assert(crate::text::lowered("charging"@).len() == 8);
    assert(crate::text::lowered("discharging"@).len() == 11);
    assert(crate::text::lowered("not charging"@).len() == 12);
}

/// A battery whose full capacity is its design capacity is as good as new.
pub proof fn new_batteries_are_healthy(b: BatteryInfo)
    requires
        crate::binary::is_finite(b.energy_design_wh),
        (Quantity { bits: 0 }).less(b.energy_design_wh),
        b.energy_full_wh == b.energy_design_wh,
    ensures
        b.health() == 100,
{
    crate::binary::parts_of_itself_are_one(b.energy_design_wh);
    crate::binary::small_wholes_are_exact(100);
    crate::binary::one_keeps(whole(100));
    crate::binary::wholes_round_to_themselves(100, 100);
}

/// With a status the kernel does not document and an adapter to ask, the
/// adapter alone decides.
pub proof fn adapter_decides_the_rest(b: BatteryInfo, online: bool)
    requires
        !agrees(b.status@, "charging"@),
        !agrees(b.status@, "discharging"@),
        !agrees(b.status@, "full"@),
        !agrees(b.status@, "not charging"@),
        b.ac_online == Some(online),
    ensures
        b.power_state() == if online {
            PowerState::PluggedIn
        } else {
            PowerState::OnBattery
        },
{
}

} // verus!
