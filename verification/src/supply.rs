//! Reading a battery out of what the kernel says of the power supplies.
//!
//! The kernel counts in millionths: micro-watts, micro-watt-hours, or
//! micro-ampere-hours to be multiplied by micro-volts.

use crate::files::{read_num, read_text_or};
use crate::power::BatteryInfo;
use crate::quantity::Quantity;
use crate::text::{same_ignoring_case, trim};
use vstd::prelude::*;

verus! {

use crate::binary::{product, quotient, whole};

/// The contents of the files of one battery.
pub struct SupplyFiles {
    pub capacity: Option<String>,
    pub status: Option<String>,
    pub voltage_now: Option<String>,
    pub energy_now: Option<String>,
    pub charge_now: Option<String>,
    pub energy_full: Option<String>,
    pub charge_full: Option<String>,
    pub energy_full_design: Option<String>,
    pub charge_full_design: Option<String>,
    pub power_now: Option<String>,
    pub current_now: Option<String>,
    pub temp: Option<String>,
    pub cycle_count: Option<String>,
    pub model_name: Option<String>,
}

/// So many millionths, as a quantity.
pub open spec fn millionths(n: nat) -> Quantity {
    quotient(whole(n), whole(1_000_000))
}

fn micro(n: u64) -> (r: Quantity)
    ensures
        r == millionths(n as nat),
{
    Quantity::of(n).over(Quantity::of(1_000_000))
}

/// The quantity that a file states in millionths.
pub open spec fn micro_value(file: Option<String>) -> Option<Quantity> {
    match crate::files::file_number(file) {
        Some(n) => Some(millionths(n)),
        None => None,
    }
}

fn read_micro(file: &Option<String>) -> (r: Option<Quantity>)
    ensures
        r == micro_value(*file),
{
    match read_num(file) {
        Some(n) => Some(micro(n)),
        None => None,
    }
}

/// A quantity, or zero where there is none.
pub open spec fn or_nothing(q: Option<Quantity>) -> Quantity {
    match q {
        Some(x) => x,
        None => Quantity { bits: 0 },
    }
}

/// An energy: the one that is stated, else the charge times the voltage.
pub open spec fn energy_value(
    energy: Option<String>,
    charge: Option<String>,
    voltage: Quantity,
) -> Option<Quantity> {
    match micro_value(energy) {
        Some(e) => Some(e),
        None => match micro_value(charge) {
            Some(c) => Some(product(c, voltage)),
            None => None,
        },
    }
}

fn read_energy(energy: &Option<String>, charge: &Option<String>, voltage: Quantity) -> (r: Option<
    Quantity,
>)
    ensures
        r == energy_value(*energy, *charge, voltage),
{
    match read_micro(energy) {
        Some(e) => Some(e),
        None => match read_micro(charge) {
            Some(c) => Some(c.times(voltage)),
            None => None,
        },
    }
}

/// The power: the one that is stated, else the current times the voltage
/// where both are, else nothing.
pub open spec fn power_value(
    power: Option<String>,
    current: Option<String>,
    voltage: Option<String>,
) -> Quantity {
    match micro_value(power) {
        Some(p) => p,
        None => match (micro_value(current), micro_value(voltage)) {
            (Some(c), Some(v)) => product(c, v),
            _ => Quantity { bits: 0 },
        },
    }
}

/// Whether `b` is what the files say of the battery. A voltage that is not
/// stated counts as zero, and a design capacity that is not stated is the
/// full capacity.
pub open spec fn says(f: SupplyFiles, ac_online: Option<bool>, b: BatteryInfo) -> bool {
    let voltage = or_nothing(micro_value(f.voltage_now));
    let full = or_nothing(energy_value(f.energy_full, f.charge_full, voltage));
    &&& crate::files::file_number(f.capacity) matches Some(n) && b.percent == n % 256
    &&& b.status@ == crate::files::file_text_or(f.status, "Unknown"@)
    &&& b.ac_online == ac_online
    &&& b.power_watts == power_value(f.power_now, f.current_now, f.voltage_now)
    &&& b.energy_now_wh == or_nothing(energy_value(f.energy_now, f.charge_now, voltage))
    &&& b.energy_full_wh == full
    &&& b.energy_design_wh == match energy_value(
        f.energy_full_design,
        f.charge_full_design,
        voltage,
    ) {
        Some(x) => x,
        None => full,
    }
    &&& b.temperature_c == match crate::files::file_number(f.temp) {
        Some(n) => Some(quotient(whole(n), whole(10))),
        None => None,
    }
    &&& match crate::files::file_number(f.cycle_count) {
        Some(n) => b.cycle_count matches Some(c) && c == n % 0x1_0000_0000,
        None => b.cycle_count is None,
    }
    &&& b.battery_name@ == crate::files::file_text_or(f.model_name, "Internal battery"@)
    &&& b.is_real
}

/// What the files say of the battery. A battery that does not state its
/// capacity is none.
pub fn read_battery(files: &SupplyFiles, ac_online: Option<bool>) -> (r: Option<BatteryInfo>)
    ensures
        match r {
            Some(b) => says(*files, ac_online, b),
            None => crate::files::file_number(files.capacity) is None,
        },
{
    let percent: u8 = match read_num(&files.capacity) {
        Some(n) => (n % 256) as u8,
        None => {
            return None;
        },
    };
    let voltage_now = read_micro(&files.voltage_now);
    let voltage = match voltage_now {
        Some(v) => v,
        None => Quantity::zero(),
    };
    let energy_now_wh = match read_energy(&files.energy_now, &files.charge_now, voltage) {
        Some(x) => x,
        None => Quantity::zero(),
    };
    let energy_full_wh = match read_energy(&files.energy_full, &files.charge_full, voltage) {
        Some(x) => x,
        None => Quantity::zero(),
    };
    let energy_design_wh = match read_energy(
        &files.energy_full_design,
        &files.charge_full_design,
        voltage,
    ) {
        Some(x) => x,
        None => energy_full_wh,
    };
    let power_watts = match read_micro(&files.power_now) {
        Some(p) => p,
        None => match (read_micro(&files.current_now), voltage_now) {
            (Some(c), Some(v)) => c.times(v),
            _ => Quantity::zero(),
        },
    };
    let temperature_c = match read_num(&files.temp) {
        Some(n) => Some(Quantity::of(n).over(Quantity::of(10))),
        None => None,
    };
    let cycle_count = match read_num(&files.cycle_count) {
        Some(n) => Some((n % 0x1_0000_0000) as u32),
        None => None,
    };
    Some(
        BatteryInfo {
            percent,
            status: read_text_or(&files.status, "Unknown"),
            ac_online,
            power_watts,
            energy_now_wh,
            energy_full_wh,
            energy_design_wh,
            temperature_c,
            cycle_count,
            battery_name: read_text_or(&files.model_name, "Internal battery"),
            is_real: true,
        },
    )
}

impl BatteryInfo {
    /// A reading of the battery: what the files of the first battery say of
    /// it, and what the adapters say. Without a battery it is the made-up
    /// one.
    pub fn read(found: &Option<SupplyFiles>, ac_online: Option<bool>) -> (r: BatteryInfo)
        ensures
            match found {
                Some(f) => if crate::files::file_number(f.capacity) is Some {
                    says(*f, ac_online, r)
                } else {
                    r.is_made_up()
                },
                None => r.is_made_up(),
            },
    {
        match found {
            Some(files) => match read_battery(files, ac_online) {
                Some(battery) => battery,
                None => BatteryInfo::default(),
            },
            None => BatteryInfo::default(),
        }
    }
}

// Finding the battery and the adapter among the supplies.

/// One power supply: what it says it is, and whether it is online.
pub struct Supply {
    pub kind: Option<String>,
    pub online: Option<String>,
}

/// Whether a supply says that it is of this kind, in any mix of cases.
pub open spec fn is_of_kind(supply: Supply, kind: Seq<char>) -> bool {
    match supply.kind {
        Some(k) => crate::text::agrees(crate::text::trimmed(k@), kind),
        None => false,
    }
}

fn of_kind(supply: &Supply, kind: &str) -> (r: bool)
    ensures
        r == is_of_kind(*supply, kind@),
{
    match &supply.kind {
        Some(k) => same_ignoring_case(trim(k.as_str()), kind),
        None => false,
    }
}

/// The first supply that says it is a battery.
pub fn find_battery(supplies: &Vec<Supply>) -> (r: Option<usize>)
    ensures
        match r {
            Some(i) => {
                &&& i < supplies.len()
                &&& is_of_kind(supplies[i as int], "Battery"@)
                &&& forall|j: int|
                    0 <= j < i ==> !is_of_kind(#[trigger] supplies[j], "Battery"@)
            },
            None => forall|j: int|
                0 <= j < supplies.len() ==> !is_of_kind(#[trigger] supplies[j], "Battery"@),
        },
{
    let mut i: usize = 0;
    while i < supplies.len()
        invariant
            i <= supplies.len(),
            forall|j: int| 0 <= j < i ==> !is_of_kind(#[trigger] supplies[j], "Battery"@),
        decreases supplies.len() - i,
    {
        if of_kind(&supplies[i], "Battery") {
            return Some(i);
        }
        i += 1;
    }
    None
}

/// Whether a supply is an adapter that says whether it is online.
pub open spec fn is_adapter(supply: Supply) -> bool {
    &&& {
        ||| is_of_kind(supply, "Mains"@)
        ||| is_of_kind(supply, "USB"@)
        ||| is_of_kind(supply, "USB_PD"@)
        ||| is_of_kind(supply, "USB_C"@)
    }
    &&& crate::files::file_number(supply.online) is Some
}

/// Whether a supply is an adapter that says it is online.
pub open spec fn is_online(supply: Supply) -> bool {
    is_adapter(supply) && crate::files::file_number(supply.online) != Some(0nat)
}

/// `Some(true)` when any mains or USB supply says it is online, `Some(false)`
/// when they all say they are not, `None` when the kernel exposes none.
pub fn adapter_online(supplies: &Vec<Supply>) -> (r: Option<bool>)
    ensures
        match r {
            Some(online) => {
                &&& exists|i: int| 0 <= i < supplies.len() && is_adapter(#[trigger] supplies[i])
                &&& online == exists|i: int|
                    0 <= i < supplies.len() && is_online(#[trigger] supplies[i])
            },
            None => forall|i: int|
                0 <= i < supplies.len() ==> !is_adapter(#[trigger] supplies[i]),
        },
{
    let mut seen = false;
    let mut online = false;
    let mut i: usize = 0;
    while i < supplies.len()
        invariant
            i <= supplies.len(),
            seen == exists|j: int| 0 <= j < i && is_adapter(#[trigger] supplies[j]),
            online == exists|j: int| 0 <= j < i && is_online(#[trigger] supplies[j]),
        decreases supplies.len() - i,
    {
        let supply = &supplies[i];
        if of_kind(supply, "Mains") || of_kind(supply, "USB") || of_kind(supply, "USB_PD")
            || of_kind(supply, "USB_C") {
            if let Some(value) = read_num(&supply.online) {
                assert(is_adapter(supplies[i as int]));
                seen = true;
                if value != 0 {
                    assert(is_online(supplies[i as int]));
                    online = true;
                }
            }
        }
        i += 1;
    }
    if seen {
        Some(online)
    } else {
        None
    }
}

} // verus!
