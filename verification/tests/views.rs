use raven_power::estimate::{duration_text, Basis, Estimate};
use raven_power::power::{BatteryInfo, PowerState};
use raven_power::quantity::Quantity;
use raven_power::scoring::{Accuracy, Checkpoint};
use raven_power::view::{
    accuracy_detail, accuracy_text, application_line, basis_text, charged_text, checkpoint_detail,
    checkpoint_title, drain_alert, eco_toast, eyebrow, gauge_caption, health_facts, health_heading,
    health_text, instant_detail, instant_text, observed_detail, observed_text, observed_watts,
    overview_line, page,
    percent_text, power_detail, power_text, range_seconds, shown_checkpoints, status_line,
    temperature_text, usage_line, verdict, week_before, within_percent,
};

fn q(x: f64) -> Quantity {
    Quantity::from_bits(x.to_bits())
}

fn estimate(state: PowerState, minutes: Option<u32>) -> Estimate {
    Estimate {
        minutes,
        ..Estimate::idle(state)
    }
}

fn at(percent: u8) -> BatteryInfo {
    BatteryInfo {
        percent,
        ..Default::default()
    }
}

#[test]
fn durations_are_put_into_words() {
    assert_eq!(duration_text(0), "0 min");
    assert_eq!(duration_text(59), "59 min");
    assert_eq!(duration_text(60), "1 hr 00 min");
    assert_eq!(duration_text(65), "1 hr 05 min");
    assert_eq!(duration_text(192), "3 hr 12 min");
    assert_eq!(duration_text(u32::MAX), "71582788 hr 15 min");
}

#[test]
fn estimates_have_a_long_and_a_short_form() {
    let left = estimate(PowerState::OnBattery, Some(192));
    assert_eq!(left.headline(&at(50)), "3 hr 12 min left");
    assert_eq!(left.short(&at(50)), "3 hr 12 min");
    let full = estimate(PowerState::Charging, Some(65));
    assert_eq!(full.headline(&at(50)), "1 hr 05 min to full");
    assert_eq!(full.short(&at(50)), "1 hr 05 min to full");
    let held = estimate(PowerState::PluggedIn, None);
    assert_eq!(held.headline(&at(98)), "Holding at 98%");
    assert_eq!(held.headline(&at(99)), "Fully charged");
    assert_eq!(held.short(&at(98)), "Not charging");
    assert_eq!(held.short(&at(99)), "Full");
    assert_eq!(status_line(&left, &at(50)), "On battery · 3 hr 12 min");
}

#[test]
fn bases_are_put_into_words() {
    let with = |basis| Estimate { basis, ..Estimate::idle(PowerState::OnBattery) };
    assert_eq!(with(Basis::Instant).basis_text(), "From this instant's power reading only");
    assert_eq!(with(Basis::Observed).basis_text(), "From the drain observed this session");
    assert_eq!(with(Basis::Learned).basis_text(), "Observed drain, shaped by earlier sessions");
    let observed = Estimate {
        observed_pct_hr: Some(q(10.0)),
        observed_minutes: 25,
        instant_minutes: Some(110),
        basis: Basis::Learned,
        ..Estimate::idle(PowerState::OnBattery)
    };
    assert_eq!(
        basis_text(&observed, "10.0"),
        "From 10.0%/h observed over the last 25 min, shaped by earlier sessions. \
         A naive meter would say 1 hr 50 min."
    );
    let brief = Estimate {
        basis: Basis::Observed,
        observed_minutes: 0,
        instant_minutes: None,
        ..observed
    };
    assert_eq!(basis_text(&brief, "10.0"), "From 10.0%/h observed over the last 1 min.");
    assert_eq!(
        basis_text(&estimate(PowerState::Charging, None), ""),
        "From this instant's power reading only. It steadies after a few minutes."
    );
    assert_eq!(
        basis_text(&estimate(PowerState::PluggedIn, None), ""),
        "The battery is not being drawn on."
    );
    assert_eq!(observed_text(&observed, "10.0"), "10.0%/h");
    assert_eq!(observed_detail(&observed, "6.7"), "6.7 W over the last 25 min");
    let filling = Estimate { state: PowerState::Charging, ..observed };
    assert_eq!(observed_detail(&filling, "6.7"), "Charging, over the last 25 min");
    let full = BatteryInfo { energy_full_wh: q(67.2), ..at(50) };
    assert_eq!(observed_watts(&observed, &full), Some(q(10.0 / 100.0 * 67.2)));
    let nothing = estimate(PowerState::OnBattery, None);
    assert_eq!(observed_watts(&nothing, &full), None);
    assert_eq!(observed_text(&nothing, ""), "—");
    assert_eq!(observed_detail(&nothing, ""), "Needs a minute of samples");
    assert_eq!(observed_detail(&estimate(PowerState::PluggedIn, None), ""), "Not on battery");
    assert_eq!(instant_text(&observed), "1 hr 50 min");
    assert_eq!(instant_text(&nothing), "—");
    assert_eq!(
        instant_detail(PowerState::Charging, "28.0"),
        "28.0 W in · what a naive meter shows"
    );
}

#[test]
fn the_overview_is_put_into_words() {
    assert_eq!(charged_text(80), "80% charged");
    assert_eq!(percent_text(7), "7%");
    assert_eq!(gauge_caption(PowerState::OnBattery), "remaining");
    assert_eq!(gauge_caption(PowerState::Charging), "charging");
    assert_eq!(gauge_caption(PowerState::PluggedIn), "plugged in");
    assert_eq!(eyebrow(true), "●  LIVE SYSTEM ESTIMATE");
    assert_eq!(eyebrow(false), "●  DEMO DATA — NO BATTERY FOUND");
    assert_eq!(power_text(PowerState::OnBattery, "10.6"), "10.6 W draw");
    assert_eq!(power_text(PowerState::Charging, "28.0"), "28.0 W in");
    assert_eq!(power_text(PowerState::PluggedIn, "3.0"), "0 W · on adapter");
    assert_eq!(power_detail(PowerState::OnBattery), "Drawn from the battery right now");
    assert_eq!(power_detail(PowerState::Charging), "Flowing into the battery right now");
    assert_eq!(power_detail(PowerState::PluggedIn), "The adapter is carrying the load");
    assert_eq!(
        overview_line(PowerState::OnBattery, "10.6", 96),
        "On battery · 10.6 W draw · 96% battery health"
    );
    assert_eq!(temperature_text(Some("34")), "34°C · Normal");
    assert_eq!(temperature_text(None), "Unavailable");
}

#[test]
fn health_is_put_into_words() {
    assert_eq!(health_text(86), "86% · Excellent");
    assert_eq!(health_text(85), "85% · Worn");
    assert_eq!(health_heading(86), "Your battery is in excellent condition");
    assert_eq!(health_heading(85), "Your battery has experienced wear");
    assert_eq!(
        health_facts(Some(84), Some("34")),
        "Cycle count: 84   ·   Temperature: 34°C"
    );
    assert_eq!(
        health_facts(None, None),
        "Cycle count: Unavailable   ·   Temperature: Unavailable"
    );
}

#[test]
fn only_a_drain_is_too_high() {
    assert!(drain_alert(PowerState::OnBattery, q(12.1), true));
    assert!(!drain_alert(PowerState::OnBattery, q(12.0), true));
    assert!(drain_alert(PowerState::OnBattery, q(1.0), false));
    assert!(!drain_alert(PowerState::Charging, q(30.0), true));
    assert!(!drain_alert(PowerState::PluggedIn, q(30.0), false));
}

#[test]
fn rows_lead_to_pages() {
    let names: Vec<&str> = (0..6).map(|row| page(row).unwrap().name).collect();
    assert_eq!(
        names,
        vec!["overview", "usage", "profiles", "applications", "health", "history"]
    );
    assert_eq!(page(1).unwrap().heading, "Energy usage");
    assert_eq!(page(2).unwrap().subtitle, "Tune performance and battery life");
    assert!(page(-1).is_none());
    assert!(page(6).is_none());
    assert_eq!(range_seconds(0), Some(3 * 3600));
    assert_eq!(range_seconds(1), Some(12 * 3600));
    assert_eq!(range_seconds(2), Some(24 * 3600));
    assert_eq!(range_seconds(3), Some(7 * 24 * 3600));
    assert_eq!(range_seconds(4), None);
    assert_eq!(week_before(700_000), 95_200);
    assert_eq!(week_before(5), 0);
}

fn checkpoint(t: u64, predicted_min: u32, realized_min: u32) -> Checkpoint {
    Checkpoint {
        t,
        percent: 60,
        state: PowerState::OnBattery,
        predicted_min,
        instant_min: None,
        realized_min,
    }
}

#[test]
fn checkpoints_are_put_into_words() {
    let point = checkpoint(0, 390, 360);
    assert_eq!(checkpoint_title("Mon 14:05", 60), "Mon 14:05 at 60%");
    assert_eq!(checkpoint_detail(&point), "Predicted 6 hr 30 min left · really 6 hr 00 min");
    let filling = Checkpoint { state: PowerState::Charging, ..point };
    assert_eq!(
        checkpoint_detail(&filling),
        "Predicted 6 hr 30 min to full · really 6 hr 00 min"
    );
    assert_eq!(verdict(&point), "30 min too optimistic");
    assert_eq!(verdict(&checkpoint(0, 300, 360)), "1 hr 00 min too cautious");
    assert_eq!(verdict(&checkpoint(0, 362, 360)), "spot on");
    assert_eq!(verdict(&checkpoint(0, 357, 360)), "3 min too cautious");
    assert!(point.close());
    assert!(!checkpoint(0, 397, 360).close());
    assert!(checkpoint(0, 396, 360).close());
    assert!(checkpoint(0, 0, 0).close());
    assert!(!checkpoint(0, 1, 0).close());
}

#[test]
fn the_latest_checkpoints_are_shown_apart() {
    let all: Vec<Checkpoint> = (0..300).map(|m| checkpoint(m * 60, 1, 1)).collect();
    let times: Vec<u64> = shown_checkpoints(&all).iter().map(|c| c.t / 60).collect();
    assert_eq!(times, vec![299, 279, 259, 239, 219, 199]);
    let few = vec![checkpoint(0, 1, 1), checkpoint(1200, 1, 1), checkpoint(2399, 1, 1)];
    let times: Vec<u64> = shown_checkpoints(&few).iter().map(|c| c.t).collect();
    assert_eq!(times, vec![2399, 0]);
    assert!(shown_checkpoints(&Vec::new()).is_empty());
}

#[test]
fn accuracy_is_put_into_words() {
    let accuracy = Some(Accuracy {
        checkpoints: 12,
        model_error_min: q(14.0),
        instant_error_min: Some(q(40.0)),
        model_bias_min: q(-3.0),
        within_ten_percent: q(0.75),
    });
    assert_eq!(within_percent(&accuracy.unwrap()), q(75.0));
    assert_eq!(accuracy_text(&accuracy, "14"), "±14 min");
    assert_eq!(
        accuracy_detail(&accuracy, "75", "40"),
        "12 scored this week · 75% within 10% · naive ±40 min"
    );
    let alone = accuracy.map(|a| Accuracy { instant_error_min: None, ..a });
    assert_eq!(accuracy_detail(&alone, "75", ""), "12 scored this week · 75% within 10%");
    assert_eq!(accuracy_text(&None, ""), "—");
    assert_eq!(accuracy_detail(&None, "", ""), "Nothing scored yet");
}

#[test]
fn applications_are_put_into_words() {
    assert_eq!(usage_line(1, "120"), "1 processes  ·  120 MB");
    assert_eq!(application_line(1, "120"), "1 running process · 120 MB");
    assert_eq!(application_line(3, "120"), "3 running processes · 120 MB");
    assert_eq!(eco_toast(true), "Eco mode enabled");
    assert_eq!(eco_toast(false), "Normal priority requested");
}
