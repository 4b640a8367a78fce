use raven_power::chart::{bar_at, can_be_marked, grid_values, has_line, label_times, Plot};
use raven_power::estimate::{estimate_from, walk, Basis};
use raven_power::history::History;
use raven_power::policy::{choose_governor, target_frequency};
use raven_power::power::{BatteryInfo, PowerState};
use raven_power::profile::profile_of_policy;
use raven_power::quantity::Quantity;
use raven_power::sample::Sample;
use raven_power::scoring::{accuracy, Checkpoint};
use raven_power::view::{usage_rows, MAX_USAGE};
use raven_power::window::{half_lives, recent_rate, Decay};

fn q(x: f64) -> Quantity {
    Quantity::from_bits(x.to_bits())
}

fn f(x: Quantity) -> f64 {
    f64::from_bits(x.bits)
}

fn decay() -> Decay {
    let mut weights = [Quantity::zero(); 1801];
    for (age, weight) in weights.iter_mut().enumerate() {
        *weight = q(0.5_f64.powf(f(half_lives(age as u64))));
    }
    Decay { weights }
}

fn at(t: u64, level: f64) -> Sample {
    Sample {
        t,
        percent: level.round() as u8,
        energy_wh: q(level),
        energy_full_wh: q(100.0),
        power_w: q(10.0),
        state: PowerState::OnBattery,
        predicted_min: None,
        instant_min: None,
    }
}

#[test]
fn a_weight_halves_every_eight_minutes() {
    assert_eq!(f(half_lives(0)), 0.0);
    assert_eq!(f(half_lives(480)), 1.0);
    assert_eq!(f(half_lives(960)), 2.0);
    assert_eq!(f(half_lives(1800)), 3.75);
    for age in 0..=1800_u64 {
        assert_eq!(f(half_lives(age)), age as f64 / 60.0 / 8.0);
    }
}

#[test]
fn the_weights_of_the_half_life_never_rise() {
    let table = decay();
    for age in 0..1800_usize {
        assert!(f(table.weights[age + 1]) <= f(table.weights[age]));
        assert!(f(table.weights[age]) >= 1.0 / 16.0);
    }
}

#[test]
fn an_observed_rate_lies_between_its_steps() {
    // 6, 30 and 12 percent per hour, a minute each.
    let levels = [80.0, 79.9, 79.4, 79.2];
    let session: Vec<Sample> = levels
        .iter()
        .enumerate()
        .map(|(i, level)| at(1000 + i as u64 * 60, *level))
        .collect();
    let (rate, minutes) = recent_rate(&session, 1180, &decay()).unwrap();
    assert!(f(rate) > 6.0 && f(rate) < 30.0);
    assert_eq!(minutes, 3);
}

#[test]
fn a_steady_session_shows_its_rate_whatever_the_weights() {
    let session: Vec<Sample> = (0..=20_u64)
        .map(|m| at(m * 60, 90.0 - m as f64 * 0.25))
        .collect();
    let (rate, _) = recent_rate(&session, 1200, &decay()).unwrap();
    assert!((f(rate) - 15.0).abs() < 1e-9);
    let mut odd = decay();
    for (age, weight) in odd.weights.iter_mut().enumerate() {
        *weight = q(1.0 + (age % 7) as f64);
    }
    let (rate, _) = recent_rate(&session, 1200, &odd).unwrap();
    assert!((f(rate) - 15.0).abs() < 1e-9);
}

#[test]
fn a_blend_lies_between_the_observed_and_the_instant_rate() {
    let bands = [None; 10];
    for minutes in 0..=25_u32 {
        let e = estimate_from(
            60,
            PowerState::OnBattery,
            Some(120),
            Some((q(10.0), minutes)),
            &bands,
        );
        let rate = f(e.rate_pct_hr.unwrap());
        assert!((10.0..=30.0 + 1e-12).contains(&rate));
        let trust = (minutes as f64 / 20.0).min(1.0);
        assert_eq!(rate, trust * 10.0 + (1.0 - trust) * 30.0);
        assert_eq!(e.basis, Basis::Observed);
    }
}

#[test]
fn an_unshaped_walk_takes_the_points_over_the_rate() {
    let bands = [None; 10];
    for rate in [0.001, 0.7, 9.0, 14.3, 333.0, 1e300, 1e-300] {
        for percent in [0_u8, 1, 37, 64, 100] {
            let straight = (percent as f64 / rate * 60.0).round() as u32;
            let walked = walk(percent, PowerState::OnBattery, q(rate), &bands).unwrap();
            assert!(walked.abs_diff(straight) <= 1);
            let here = (percent as usize / 10).min(9);
            let mut learnt = bands;
            learnt[here] = Some(q(3.0));
            let again = walk(percent, PowerState::OnBattery, q(rate), &learnt);
            assert_eq!(again, Some(walked));
        }
    }
    assert_eq!(walk(50, PowerState::OnBattery, q(0.0), &bands), None);
}

#[test]
fn a_walk_ignores_the_bands_it_does_not_cross() {
    let mut bands = [None; 10];
    bands[5] = Some(q(10.0));
    bands[2] = Some(q(14.0));
    let walked = walk(55, PowerState::OnBattery, q(12.0), &bands);
    bands[8] = Some(q(99.0));
    assert_eq!(walk(55, PowerState::OnBattery, q(12.0), &bands), walked);
    bands[2] = Some(q(28.0));
    assert!(walk(55, PowerState::OnBattery, q(12.0), &bands) < walked);
    let charged = walk(55, PowerState::Charging, q(12.0), &bands);
    bands[2] = None;
    assert_eq!(walk(55, PowerState::Charging, q(12.0), &bands), charged);
}

#[test]
fn a_made_up_day_runs_its_course() {
    let now = 1_700_000_000;
    let history = History::demo(now, &decay());
    let day = history.samples();
    assert_eq!(day.len(), 481);
    for (i, sample) in day.iter().enumerate() {
        assert_eq!(sample.t, now - 28_800 + i as u64 * 60);
        assert!(sample.percent <= 100);
        assert_eq!(f(sample.energy_full_wh), 67.2);
        assert!((0.0..=67.2).contains(&f(sample.energy_wh)));
        let state = match i {
            0..=59 => PowerState::PluggedIn,
            60..=359 => PowerState::OnBattery,
            _ => PowerState::Charging,
        };
        assert_eq!(sample.state, state);
    }
}

#[test]
fn grid_lines_stand_at_every_step_up_to_the_top() {
    let values: Vec<f64> = grid_values(q(100.0), 25).into_iter().map(f).collect();
    assert_eq!(values, [0.0, 25.0, 50.0, 75.0, 100.0]);
    let values: Vec<f64> = grid_values(q(12.5), 5).into_iter().map(f).collect();
    assert_eq!(values, [0.0, 5.0, 10.0]);
    assert!(grid_values(q(-1.0), 5).is_empty());
    assert!(grid_values(q(f64::NAN), 5).is_empty());
    assert!(!can_be_marked(Quantity::zero(), q(f64::INFINITY)));
    assert!(can_be_marked(Quantity::zero(), q(f64::NAN)));
}

#[test]
fn labels_stand_at_every_step_up_to_the_end_of_the_axis() {
    let plot = Plot::new(400, 200, (q(1000.0), q(4600.0)), (q(0.0), q(100.0)));
    let times: Vec<f64> = label_times(&plot, q(1800.0), 900).into_iter().map(f).collect();
    assert_eq!(times, [1800.0, 2700.0, 3600.0, 4500.0]);
    assert!(label_times(&plot, q(4700.0), 900).is_empty());
    let times: Vec<f64> = label_times(&plot, q(-100.5), 1800).into_iter().map(f).collect();
    assert_eq!(times, [-100.5, 1699.5, 3499.5]);
}

#[test]
fn bars_stand_in_the_middle_of_their_slots() {
    let plot = Plot::new(558, 200, (q(0.0), q(10.0)), (q(0.0), q(20.0)));
    for slot in 0..10_usize {
        let (left, width) = bar_at(&plot, slot);
        let part = 500.0 / 10.0;
        let bar = part * 0.62;
        assert_eq!(f(width), bar);
        assert_eq!(f(left), 44.0 + part * slot as f64 + (part - bar) / 2.0);
    }
}

#[test]
fn steps_before_the_window_have_no_influence() {
    let calm: Vec<Sample> = (0..=90_u64)
        .map(|m| at(m * 60, 90.0 - m as f64 * 0.25))
        .collect();
    let mut wild = calm.clone();
    for sample in wild.iter_mut().take(50) {
        sample.energy_wh = q(99.0 - (sample.t % 420) as f64 / 10.0);
    }
    let now = 90 * 60;
    let rate = recent_rate(&calm, now, &decay());
    assert_eq!(recent_rate(&wild, now, &decay()), rate);
    assert_eq!(recent_rate(&calm[55..], now, &decay()), rate);
    // The step that ends on the window's edge counts whole.
    assert_eq!(rate.unwrap().1, 31);
    assert_ne!(recent_rate(&calm[60..], now, &decay()), rate);
}

#[test]
fn an_observed_rate_is_above_zero_unless_it_rounds_to_it() {
    let slow = [at(0, 50.0), at(1200, 50.0 - 1e-12)];
    assert!(f(recent_rate(&slow, 1200, &decay()).unwrap().0) > 0.0);
    assert_eq!(recent_rate(&[at(0, 50.0), at(1200, 50.0)], 1200, &decay()), None);
    // A thousand hours for next to no charge.
    let mut from = at(0, 0.0);
    from.percent = 0;
    from.energy_wh = q(f64::from_bits(1));
    from.energy_full_wh = q(1.0);
    let to = Sample { t: 3_600_000, energy_wh: q(0.0), ..from };
    assert_eq!(f(recent_rate(&[from, to], 3_600_000, &decay()).unwrap().0), 0.0);
}

#[test]
fn past_predictions_do_not_feed_back() {
    let plain: Vec<Sample> = (0..=40_u64)
        .map(|m| at(m * 60, 90.0 - m as f64 * 0.3))
        .collect();
    let mut marked = plain.clone();
    for (i, sample) in marked.iter_mut().enumerate() {
        sample.predicted_min = Some(i as u32 * 7);
        sample.instant_min = Some(1000 - i as u32);
    }
    let battery = BatteryInfo {
        percent: 78,
        status: "Discharging".into(),
        power_watts: q(12.0),
        energy_now_wh: q(78.0),
        energy_full_wh: q(100.0),
        ..Default::default()
    };
    assert_eq!(
        History::in_memory(plain).estimate(&battery, 2400, &decay()),
        History::in_memory(marked).estimate(&battery, 2400, &decay()),
    );
}

#[test]
fn the_bias_stays_within_the_error() {
    let point = |predicted_min, realized_min| Checkpoint {
        t: 0,
        percent: 50,
        state: PowerState::OnBattery,
        predicted_min,
        instant_min: None,
        realized_min,
    };
    let a = accuracy(&vec![point(100, 130), point(90, 80), point(60, 61)], 0).unwrap();
    assert_eq!(f(a.model_error_min), 41.0 / 3.0);
    assert_eq!(f(a.model_bias_min), -21.0 / 3.0);
    assert!(f(a.model_bias_min).abs() <= f(a.model_error_min));
}

#[test]
fn a_profile_that_was_written_reads_back() {
    let listed = "performance powersave schedutil ondemand";
    for profile in ["performance", "balanced", "power-saver"] {
        let governor = choose_governor(profile, listed).unwrap().to_string();
        let limit = target_frequency(profile, 4_200_000).to_string();
        let read = profile_of_policy(&Some(governor), &Some(limit), &Some("4200000\n".into()));
        assert_eq!(read, profile);
    }
    // Without a governor of its own, performance looks like balanced.
    let governor = choose_governor("performance", "schedutil").unwrap().to_string();
    let read = profile_of_policy(&Some(governor), &Some("100".into()), &Some("100".into()));
    assert_eq!(read, "balanced");
}

#[test]
fn short_lists_and_short_lines_are_told() {
    assert_eq!(MAX_USAGE, 8);
    assert_eq!(usage_rows(0), 0);
    assert_eq!(usage_rows(7), 7);
    assert_eq!(usage_rows(24), 8);
    assert!(!has_line(0));
    assert!(!has_line(1));
    assert!(has_line(2));
}
