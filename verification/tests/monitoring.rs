use raven_power::clock::{now, unix_seconds};
use raven_power::monitor::Monitor;
use raven_power::power::{BatteryInfo, PowerState};
use raven_power::quantity::Quantity;
use raven_power::sample::{band, hours_between, progress, seconds_between, Sample};
use raven_power::settings::{base_directory, BaseDirectory, Settings};
use raven_power::text::{
    contains, decimal_text, has_word, parse_number, same_ignoring_case, starts_with, trim, word_at,
};
use raven_power::window::Decay;

fn q(x: f64) -> Quantity {
    Quantity::from_bits(x.to_bits())
}

fn decay() -> Decay {
    let mut weights = [Quantity::zero(); 1801];
    for (age, weight) in weights.iter_mut().enumerate() {
        *weight = q(0.5_f64.powf(age as f64 / 60.0 / 8.0));
    }
    Decay { weights }
}

fn battery(percent: u8, is_real: bool) -> BatteryInfo {
    BatteryInfo {
        percent,
        is_real,
        ..Default::default()
    }
}

fn sample(t: u64, percent: u8) -> Sample {
    Sample {
        t,
        percent,
        energy_wh: q(0.0),
        energy_full_wh: q(0.0),
        power_w: q(8.4),
        state: PowerState::OnBattery,
        predicted_min: None,
        instant_min: None,
    }
}

#[test]
fn a_real_battery_takes_up_its_history() {
    let decay = decay();
    let time = 3_000_000;
    let started = Monitor::start(battery(80, true), vec![sample(time - 60, 81), sample(1, 9)], time, &decay);
    assert!(started.pruned);
    assert!(started.added);
    let mut monitor = started.monitor;
    assert_eq!(monitor.history.samples().len(), 2);
    assert_eq!(monitor.history.samples()[1].predicted_min, monitor.estimate.minutes);
    assert_eq!(monitor.estimate.instant_minutes, Some(432));
    // The same reading is not due again for a minute.
    assert!(!monitor.refresh(battery(80, true), time + 20, &decay));
    assert_eq!(monitor.now, time + 20);
    assert!(monitor.refresh(battery(80, true), time + 60, &decay));
    assert!(monitor.refresh(battery(79, true), time + 61, &decay));
    assert_eq!(monitor.battery.percent, 79);
    assert_eq!(monitor.history.samples().len(), 4);
    // A clock that was set back adds nothing.
    assert!(!monitor.refresh(battery(70, true), time, &decay));
}

#[test]
fn demo_data_is_never_recorded() {
    let decay = decay();
    let started = Monitor::start(battery(90, false), Vec::new(), 1_800_000_000, &decay);
    assert!(!started.pruned);
    assert!(!started.added);
    let mut monitor = started.monitor;
    assert_eq!(monitor.history.samples().len(), 481);
    assert!(!monitor.refresh(battery(10, false), 1_800_000_600, &decay));
    assert_eq!(monitor.history.samples().len(), 481);
}

#[test]
fn the_clock_counts_seconds() {
    let before = std::time::SystemTime::now()
        .duration_since(std::time::UNIX_EPOCH)
        .unwrap()
        .as_secs();
    let read = now();
    assert!(read >= before && read <= before + 20);
    assert_eq!(unix_seconds(Some(7)), 7);
    assert_eq!(unix_seconds(None), 0);
}

#[test]
fn levels_come_from_the_energy_where_it_is_known() {
    let counted = Sample { energy_wh: q(33.0), energy_full_wh: q(60.0), ..sample(0, 54) };
    assert_eq!(counted.level(), q(33.0 / 60.0 * 100.0));
    assert_eq!(sample(0, 54).level(), q(54.0));
    assert_eq!(Sample { energy_wh: q(33.0), ..sample(0, 54) }.level(), q(54.0));
    assert_eq!(Sample { energy_wh: q(-1.0), ..counted }.level(), q(54.0));
}

#[test]
fn progress_has_the_direction_of_the_state() {
    let (high, low) = (sample(0, 60), sample(90, 58));
    assert_eq!(progress(&high, &low), q(2.0));
    assert_eq!(progress(&low, &high), q(-2.0));
    let filling = Sample { state: PowerState::Charging, ..high };
    assert_eq!(progress(&filling, &low), q(-2.0));
    assert_eq!(seconds_between(&high, &low), 90);
    assert_eq!(seconds_between(&low, &high), 0);
    assert_eq!(hours_between(&high, &low), q(0.025));
}

#[test]
fn bands_span_ten_percent() {
    let bands: Vec<usize> = [0, 9, 10, 89, 90, 99, 100, 255].iter().map(|p| band(*p)).collect();
    assert_eq!(bands, vec![0, 0, 1, 8, 9, 9, 9, 9]);
    assert_eq!(sample(0, 45).band(), 4);
}

#[test]
fn settings_start_balanced() {
    let s = Settings::default();
    assert_eq!(s.profile, "balanced");
    assert_eq!((s.charge_limit, s.cpu_limit, s.brightness_limit), (80, 75, 80));
    assert!(s.background_saving && s.wifi_saving);
    assert!(s.eco_apps.is_empty());
}

#[test]
fn settings_adopt_presets_only() {
    let mut s = Settings::default();
    s.adopt_profile("power-saver".into());
    assert_eq!(s.profile, "power-saver");
    s.adopt_profile("custom".into());
    assert_eq!(s.profile, "power-saver");
}

#[test]
fn eco_applications_stand_once() {
    let mut s = Settings::default();
    let (web, edit) = ("web".to_string(), "edit".to_string());
    s.set_eco(&web, true);
    s.set_eco(&edit, true);
    s.set_eco(&web, true);
    assert_eq!(s.eco_apps, vec!["web".to_string(), "edit".to_string()]);
    assert!(s.is_eco(&web));
    s.set_eco(&web, false);
    assert!(!s.is_eco(&web));
    assert_eq!(s.eco_apps, vec!["edit".to_string()]);
    s.set_eco(&web, false);
    assert_eq!(s.eco_apps.len(), 1);
}

#[test]
fn directories_fall_back_in_order() {
    assert_eq!(base_directory(true, true), BaseDirectory::Xdg);
    assert_eq!(base_directory(true, false), BaseDirectory::Xdg);
    assert_eq!(base_directory(false, true), BaseDirectory::Home);
    assert_eq!(base_directory(false, false), BaseDirectory::Here);
}

#[test]
fn numbers_are_parsed_as_the_kernel_writes_them() {
    assert_eq!(parse_number("0", u64::MAX), Some(0));
    assert_eq!(parse_number("+7", u64::MAX), Some(7));
    assert_eq!(parse_number("18446744073709551615", u64::MAX), Some(u64::MAX));
    assert_eq!(parse_number("18446744073709551616", u64::MAX), None);
    assert_eq!(parse_number("", u64::MAX), None);
    assert_eq!(parse_number("+", u64::MAX), None);
    assert_eq!(parse_number("-0", u64::MAX), None);
    assert_eq!(parse_number("1 ", u64::MAX), None);
    assert_eq!(parse_number("4294967296", u32::MAX as u64), None);
    assert_eq!(decimal_text(u64::MAX), "18446744073709551615");
    assert_eq!(decimal_text(0), "0");
}

#[test]
fn texts_are_cut_and_searched() {
    assert_eq!(trim(" \t a b\u{a0}\u{2003}\n"), "a b");
    assert_eq!(trim(" \n"), "");
    assert_eq!(word_at("  one\ttwo\u{3000}three", 2), Some("three"));
    assert_eq!(word_at("one", 1), None);
    assert!(has_word("a bc d", "bc"));
    assert!(!has_word("a bcd", "bc"));
    assert!(starts_with("policy0", "policy"));
    assert!(!starts_with("pol", "policy"));
    assert!(contains("xx unknown command", "unknown command"));
    assert!(!contains("unknown", "unknown command"));
    assert!(contains("", ""));
    assert!(same_ignoring_case("USB_pd", "usb_PD"));
    assert!(!same_ignoring_case("É", "é"));
}
