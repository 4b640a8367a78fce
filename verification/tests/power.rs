use raven_power::policy::apply_profile_sysfs;
use raven_power::power::{BatteryInfo, PowerState};
use raven_power::quantity::Quantity;
use raven_power::supply::{adapter_online, find_battery, read_battery, Supply, SupplyFiles};

fn q(x: f64) -> Quantity {
    Quantity::from_bits(x.to_bits())
}

#[test]
fn calculates_battery_health() {
    let battery = BatteryInfo {
        energy_full_wh: q(63.0),
        energy_design_wh: q(70.0),
        ..Default::default()
    };
    assert_eq!(battery.health_percent(), 90);
}

#[test]
fn instant_estimate_uses_the_energy_left() {
    let battery = BatteryInfo {
        status: "Discharging".into(),
        energy_now_wh: q(36.0),
        power_watts: q(8.0),
        ..Default::default()
    };
    assert_eq!(battery.state(), PowerState::OnBattery);
    assert_eq!(battery.instant_minutes(), Some(270));
}

#[test]
fn instant_estimate_counts_to_full_while_charging() {
    let battery = BatteryInfo {
        status: "Charging".into(),
        energy_now_wh: q(40.0),
        energy_full_wh: q(70.0),
        power_watts: q(30.0),
        ..Default::default()
    };
    assert_eq!(battery.state(), PowerState::Charging);
    assert_eq!(battery.instant_minutes(), Some(60));
}

#[test]
fn adapter_decides_ambiguous_statuses() {
    let full = BatteryInfo {
        status: "Full".into(),
        ..Default::default()
    };
    assert_eq!(full.state(), PowerState::PluggedIn);
    let held = BatteryInfo {
        status: "Not charging".into(),
        percent: 80,
        ..Default::default()
    };
    assert_eq!(held.state(), PowerState::PluggedIn);
    assert_eq!(held.instant_minutes(), None);
    let unknown_on_ac = BatteryInfo {
        status: "Unknown".into(),
        ac_online: Some(true),
        ..Default::default()
    };
    assert_eq!(unknown_on_ac.state(), PowerState::PluggedIn);
    let unknown_no_ac = BatteryInfo {
        status: "Unknown".into(),
        ac_online: Some(false),
        ..Default::default()
    };
    assert_eq!(unknown_no_ac.state(), PowerState::OnBattery);
}

#[test]
fn privileged_helper_rejects_unknown_profiles() {
    let error = apply_profile_sysfs("arbitrary-value", &None).unwrap_err();
    assert!(error.contains("Invalid power profile"));
}

#[test]
fn the_power_reading_decides_without_an_adapter() {
    let busy = BatteryInfo {
        status: "Unknown".into(),
        ac_online: None,
        power_watts: q(0.2),
        ..Default::default()
    };
    assert_eq!(busy.state(), PowerState::OnBattery);
    let quiet = BatteryInfo {
        status: "Unknown".into(),
        ac_online: None,
        power_watts: q(0.1),
        ..Default::default()
    };
    assert_eq!(quiet.state(), PowerState::PluggedIn);
    let shouted = BatteryInfo {
        status: "DISCHARGING".into(),
        ac_online: Some(true),
        ..Default::default()
    };
    assert_eq!(shouted.state(), PowerState::OnBattery);
    assert_eq!(shouted.state().label(), "On battery");
    assert_eq!(PowerState::Charging.label(), "Charging");
    assert_eq!(PowerState::PluggedIn.label(), "Plugged in");
}

#[test]
fn instant_estimates_need_power_and_energy() {
    let idle = BatteryInfo {
        power_watts: q(0.1),
        ..Default::default()
    };
    assert_eq!(idle.instant_minutes(), None);
    let empty = BatteryInfo {
        energy_now_wh: q(0.0),
        ..Default::default()
    };
    assert_eq!(empty.instant_minutes(), None);
    let brimming = BatteryInfo {
        status: "Charging".into(),
        energy_now_wh: q(70.0),
        energy_full_wh: q(70.0),
        ..Default::default()
    };
    assert_eq!(brimming.instant_minutes(), None);
    // The made-up reading: 60.5 Wh at 8.4 W.
    assert_eq!(BatteryInfo::default().instant_minutes(), Some(432));
}

#[test]
fn health_is_held_within_bounds() {
    let health = |full: f64, design: f64| {
        BatteryInfo {
            energy_full_wh: q(full),
            energy_design_wh: q(design),
            ..Default::default()
        }
        .health_percent()
    };
    assert_eq!(health(70.0, 70.0), 100);
    assert_eq!(health(75.0, 70.0), 100);
    assert_eq!(health(50.0, 0.0), 100);
    assert_eq!(health(50.0, -1.0), 100);
    assert_eq!(health(0.0, 70.0), 0);
    assert_eq!(health(-5.0, 70.0), 0);
    assert_eq!(health(59.85, 70.0), 86);
    assert_eq!(health(f64::NAN, 70.0), 0);
}

fn files() -> SupplyFiles {
    SupplyFiles {
        capacity: Some("80\n".into()),
        status: Some("Discharging\n".into()),
        voltage_now: Some("12000000\n".into()),
        energy_now: Some("48000000\n".into()),
        charge_now: None,
        energy_full: Some("60000000\n".into()),
        charge_full: None,
        energy_full_design: Some("70000000\n".into()),
        charge_full_design: None,
        power_now: Some("9600000\n".into()),
        current_now: None,
        temp: Some("312\n".into()),
        cycle_count: Some("84\n".into()),
        model_name: Some("DELL 4M1JN\n".into()),
    }
}

#[test]
fn batteries_are_read_from_their_files() {
    let b = BatteryInfo::read(&Some(files()), Some(false));
    assert!(b.is_real);
    assert_eq!(b.percent, 80);
    assert_eq!(b.status, "Discharging");
    assert_eq!(b.ac_online, Some(false));
    assert_eq!(b.power_watts, q(9.6));
    assert_eq!(b.energy_now_wh, q(48.0));
    assert_eq!(b.energy_full_wh, q(60.0));
    assert_eq!(b.energy_design_wh, q(70.0));
    assert_eq!(b.temperature_c, Some(q(31.2)));
    assert_eq!(b.cycle_count, Some(84));
    assert_eq!(b.battery_name, "DELL 4M1JN");
    assert_eq!(b.instant_minutes(), Some(300));
}

#[test]
fn charge_counts_stand_in_for_energy() {
    let b = read_battery(
        &SupplyFiles {
            energy_now: None,
            charge_now: Some("4000000".into()),
            energy_full: Some("soon".into()),
            charge_full: Some("5000000".into()),
            energy_full_design: None,
            power_now: None,
            current_now: Some("800000".into()),
            temp: None,
            cycle_count: None,
            model_name: None,
            status: None,
            ..files()
        },
        None,
    )
    .unwrap();
    assert_eq!(b.energy_now_wh, q(48.0));
    assert_eq!(b.energy_full_wh, q(60.0));
    assert_eq!(b.energy_design_wh, q(60.0));
    assert_eq!(b.power_watts, q(0.8 * 12.0));
    assert_eq!(b.temperature_c, None);
    assert_eq!(b.cycle_count, None);
    assert_eq!(b.status, "Unknown");
    assert_eq!(b.battery_name, "Internal battery");
}

#[test]
fn silent_files_leave_zeros() {
    let b = read_battery(
        &SupplyFiles {
            capacity: Some("300".into()),
            voltage_now: None,
            energy_now: None,
            charge_now: Some("4000000".into()),
            energy_full: None,
            energy_full_design: None,
            power_now: None,
            current_now: Some("800000".into()),
            ..files()
        },
        None,
    )
    .unwrap();
    // The capacity is taken as a byte.
    assert_eq!(b.percent, 44);
    assert_eq!(b.energy_now_wh, q(0.0));
    assert_eq!(b.energy_full_wh, q(0.0));
    assert_eq!(b.power_watts, q(0.0));
}

#[test]
fn no_battery_is_the_made_up_one() {
    let none = BatteryInfo::read(&None, Some(true));
    assert!(!none.is_real);
    assert_eq!(none.percent, 90);
    assert_eq!(none.status, "Discharging");
    assert_eq!(none.power_watts, q(8.4));
    assert_eq!(none.energy_now_wh, q(60.5));
    assert_eq!(none.energy_full_wh, q(67.2));
    assert_eq!(none.energy_design_wh, q(70.0));
    assert_eq!(none.temperature_c, Some(q(34.0)));
    assert_eq!(none.cycle_count, Some(84));
    assert_eq!(none.battery_name, "Battery");
    let mute = BatteryInfo::read(&Some(SupplyFiles { capacity: None, ..files() }), None);
    assert!(!mute.is_real);
    assert!(read_battery(&SupplyFiles { capacity: Some("-1".into()), ..files() }, None).is_none());
}

fn supply(kind: &str, online: Option<&str>) -> Supply {
    Supply {
        kind: Some(kind.into()),
        online: online.map(Into::into),
    }
}

#[test]
fn supplies_are_told_apart() {
    let supplies = vec![
        Supply { kind: None, online: Some("1".into()) },
        supply("mains\n", Some("0\n")),
        supply("battery\n", None),
        supply("Battery\n", None),
    ];
    assert_eq!(find_battery(&supplies), Some(2));
    assert_eq!(adapter_online(&supplies), Some(false));
    let on = vec![supply("Mains", Some("0")), supply("USB_PD", Some("1"))];
    assert_eq!(adapter_online(&on), Some(true));
    assert_eq!(find_battery(&on), None);
    assert_eq!(adapter_online(&vec![supply("Battery", Some("1")), supply("USB_C", None)]), None);
    assert_eq!(adapter_online(&vec![supply("USB", Some("yes"))]), None);
}
