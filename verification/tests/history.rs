use raven_power::estimate::{Basis, Estimate};
use raven_power::history::History;
use raven_power::power::{BatteryInfo, PowerState};
use raven_power::quantity::Quantity;
use raven_power::sample::Sample;
use raven_power::window::Decay;

fn q(x: f64) -> Quantity {
    Quantity::from_bits(x.to_bits())
}

fn f(x: Quantity) -> f64 {
    f64::from_bits(x.bits)
}

fn decay() -> Decay {
    let mut weights = [Quantity::zero(); 1801];
    for (age, weight) in weights.iter_mut().enumerate() {
        let minutes = age as f64 / 60.0;
        *weight = q(0.5_f64.powf(minutes / 8.0));
    }
    Decay { weights }
}

fn battery(percent: u8, status: &str, power: f64) -> BatteryInfo {
    BatteryInfo {
        percent,
        status: status.into(),
        power_watts: q(power),
        energy_now_wh: q(percent as f64),
        energy_full_wh: q(100.0),
        ..Default::default()
    }
}

/// A steady discharge at `pct_hr` from `start_pct`, one sample a minute.
fn discharge(t0: u64, start_pct: f64, pct_hr: f64, minutes: u64) -> Vec<Sample> {
    (0..=minutes)
        .map(|m| {
            let level = start_pct - pct_hr * m as f64 / 60.0;
            Sample {
                t: t0 + m * 60,
                percent: level.round() as u8,
                energy_wh: q(level),
                energy_full_wh: q(100.0),
                power_w: q(pct_hr),
                state: PowerState::OnBattery,
                predicted_min: None,
                instant_min: None,
            }
        })
        .collect()
}

#[test]
fn instant_reading_alone_when_nothing_is_observed() {
    let history = History::in_memory(Vec::new());
    let estimate = history.estimate(&battery(50, "Discharging", 10.0), 1000, &decay());
    assert_eq!(estimate.basis, Basis::Instant);
    assert_eq!(estimate.minutes, Some(300));
    assert_eq!(estimate.instant_minutes, Some(300));
}

#[test]
fn observed_drain_outweighs_a_momentary_burst() {
    // Half an hour at 10%/h, then a burst that reads 30 W this instant.
    let samples = discharge(0, 60.0, 10.0, 30);
    let history = History::in_memory(samples);
    let estimate = history.estimate(&battery(55, "Discharging", 30.0), 30 * 60, &decay());
    assert_eq!(estimate.basis, Basis::Observed);
    assert_eq!(estimate.observed_minutes, 30);
    // Full trust in the observed rate: 55% at 10%/h.
    assert_eq!(estimate.minutes, Some(330));
    // The naive figure would promise far less.
    assert_eq!(estimate.instant_minutes, Some(110));
    // The instant reading has no part in the rate at all.
    assert_eq!(estimate.rate_pct_hr, estimate.observed_pct_hr);
}

#[test]
fn partial_observation_blends_with_the_instant_reading() {
    let samples = discharge(0, 60.0, 10.0, 15);
    let history = History::in_memory(samples);
    let estimate = history.estimate(&battery(57, "Discharging", 20.0), 15 * 60, &decay());
    let rate = f(estimate.rate_pct_hr.unwrap());
    // Fifteen of the twenty minutes of trust: three quarters of the way
    // from 20 %/h down to the observed 10.
    assert!((rate - 12.5).abs() < 0.01, "rate {rate}");
}

#[test]
fn a_sustained_change_in_draw_is_adopted_within_minutes() {
    // Thirty quiet minutes at 10%/h, then ten minutes of heavy work at
    // 30%/h that is still going on.
    let mut samples = discharge(0, 60.0, 10.0, 30);
    samples.extend(discharge(31 * 60, 54.5, 30.0, 9));
    let history = History::in_memory(samples);
    let estimate = history.estimate(&battery(50, "Discharging", 30.0), 40 * 60, &decay());
    let rate = f(estimate.rate_pct_hr.unwrap());
    // Well past halfway to the new rate; a plain half-hour average
    // would still say 15.
    assert!((20.0..25.0).contains(&rate), "rate {rate}");
    // And a two-minute blip moves it very little.
    let mut samples = discharge(0, 60.0, 10.0, 38);
    samples.extend(discharge(39 * 60, 53.5, 30.0, 1));
    let history = History::in_memory(samples);
    let estimate = history.estimate(&battery(53, "Discharging", 30.0), 40 * 60, &decay());
    let rate = f(estimate.rate_pct_hr.unwrap());
    assert!(rate < 14.0, "rate {rate}");
}

#[test]
fn learned_bands_shape_the_lower_curve() {
    // An earlier session drained 40–50% at 10%/h and 30–40% at 20%/h.
    let mut samples = discharge(0, 49.0, 10.0, 54);
    samples.extend(discharge(2 * 3600, 39.0, 20.0, 30));
    let history = History::in_memory(samples);
    let bands = history.band_rates(PowerState::OnBattery);
    assert!((f(bands[4].unwrap()) - 10.0).abs() < 0.1);
    assert!((f(bands[3].unwrap()) - 20.0).abs() < 0.1);
    // A new session, much later, draining the 40s at 10%/h again: the
    // 30s should be expected to go twice as fast, the rest at today's
    // rate: 30 + 30 + 174 minutes.
    let day = 24 * 3600;
    let later = discharge(day, 49.0, 10.0, 30);
    let history = History::in_memory(history.samples().iter().cloned().chain(later).collect());
    let estimate = history.estimate(&battery(44, "Discharging", 10.0), day + 30 * 60, &decay());
    assert_eq!(estimate.basis, Basis::Learned);
    assert_eq!(estimate.minutes, Some(234));
}

#[test]
fn charging_counts_up_to_full() {
    let history = History::in_memory(Vec::new());
    let estimate = history.estimate(&battery(40, "Charging", 30.0), 0, &decay());
    assert_eq!(estimate.state, PowerState::Charging);
    assert_eq!(estimate.minutes, Some(120));
    assert_eq!(
        estimate.headline(&battery(40, "Charging", 30.0)),
        "2 hr 00 min to full"
    );
}

#[test]
fn plugged_in_has_no_countdown() {
    let history = History::in_memory(Vec::new());
    let full = battery(100, "Full", 0.0);
    let estimate = history.estimate(&full, 0, &decay());
    assert_eq!(estimate.minutes, None);
    assert_eq!(estimate.headline(&full), "Fully charged");
    let held = battery(80, "Not charging", 0.0);
    assert_eq!(history.estimate(&held, 0, &decay()).headline(&held), "Holding at 80%");
}

#[test]
fn a_long_silence_splits_sessions() {
    let mut samples = discharge(0, 90.0, 10.0, 10);
    samples.extend(discharge(3600, 80.0, 10.0, 10));
    let history = History::in_memory(samples);
    assert_eq!(history.sessions().len(), 2);
    // Nothing current: the last sample is an hour old.
    let estimate = history.estimate(&battery(70, "Discharging", 10.0), 3 * 3600, &decay());
    assert_eq!(estimate.basis, Basis::Learned);
    assert_eq!(estimate.observed_pct_hr, None);
}

#[test]
fn checkpoints_score_predictions_against_the_realized_rate() {
    let mut samples = discharge(0, 60.0, 10.0, 60);
    // The prediction at the start promised 6 hours; a naive meter, 3.
    samples[0].predicted_min = Some(360);
    samples[0].instant_min = Some(180);
    let history = History::in_memory(samples);
    let points = history.checkpoints();
    assert_eq!(points.len(), 1);
    assert_eq!(points[0].realized_min, 360);
    assert_eq!(points[0].error_min(), 0);
    let accuracy = history.accuracy(0).unwrap();
    assert_eq!(accuracy.checkpoints, 1);
    assert_eq!(f(accuracy.model_error_min), 0.0);
    assert_eq!(accuracy.instant_error_min.map(f), Some(180.0));
    assert_eq!(f(accuracy.within_ten_percent), 1.0);
}

#[test]
fn record_keeps_one_sample_a_minute_unless_something_changes() {
    let mut history = History::in_memory(Vec::new());
    let estimate = Estimate::idle(PowerState::OnBattery);
    assert!(history.record(&battery(50, "Discharging", 5.0), &estimate, 100));
    assert!(!history.record(&battery(50, "Discharging", 5.0), &estimate, 120));
    assert!(history.record(&battery(49, "Discharging", 5.0), &estimate, 130));
    assert!(!history.record(&battery(49, "Discharging", 5.0), &estimate, 150));
    assert!(history.record(&battery(49, "Discharging", 5.0), &estimate, 190));
    assert!(history.record(&battery(49, "Charging", 5.0), &estimate, 195));
    assert_eq!(history.samples().len(), 4);
}

#[test]
fn demo_history_scores_its_own_predictions() {
    let history = History::demo(1_800_000_000, &decay());
    assert!(history.sessions().len() >= 3);
    assert!(history.accuracy(0).is_some());
    assert!(
        history
            .band_rates(PowerState::OnBattery)
            .iter()
            .any(Option::is_some)
    );
}

// The same model, in the machine's own arithmetic.

fn level(s: &Sample) -> f64 {
    if f(s.energy_full_wh) > 0.0 && f(s.energy_wh) > 0.0 {
        f(s.energy_wh) / f(s.energy_full_wh) * 100.0
    } else {
        s.percent as f64
    }
}

#[test]
fn the_demo_is_that_of_the_machine_arithmetic() {
    let now = 1_800_000_000;
    let history = History::demo(now, &decay());
    let samples = history.samples();
    assert_eq!(samples.len(), 481);
    let full = 67.2;
    let mut charge = 100.0_f64;
    for (i, sample) in samples.iter().enumerate() {
        let elapsed = i as f64;
        let (state, delta, power) = if elapsed < 60.0 {
            (PowerState::PluggedIn, 0.0, 0.0)
        } else if elapsed < 360.0 {
            let burst = if (170.0..200.0).contains(&elapsed) { 1.8 } else { 1.0 };
            let shape = 1.0 + (100.0 - charge) / 200.0;
            let rate = 14.0 * shape * burst;
            (PowerState::OnBattery, -rate / 60.0, rate / 100.0 * full)
        } else if charge < 96.0 {
            (PowerState::Charging, 40.0 / 60.0, 28.0)
        } else {
            (PowerState::PluggedIn, 0.0, 0.0)
        };
        charge = (charge + delta).clamp(0.0, 100.0);
        assert_eq!(sample.t, now - 28_800 + i as u64 * 60);
        assert_eq!(sample.state, state);
        assert_eq!(sample.percent, charge.round() as u8);
        assert_eq!(sample.energy_wh, q(charge / 100.0 * full));
        assert_eq!(sample.energy_full_wh, q(full));
        assert_eq!(sample.power_w, q(power));
    }
    assert!(samples[70].predicted_min.is_some());
    assert_eq!(samples[10].predicted_min, None);
    // When the burst begins, what was observed holds the prediction up.
    assert!(samples[170].predicted_min > samples[170].instant_min);
}

#[test]
fn the_recent_rate_is_that_of_the_machine_arithmetic() {
    let mut samples = discharge(1_000_000, 60.0, 10.0, 20);
    samples.extend(discharge(1_000_000 + 21 * 60, 56.3, 27.0, 12));
    let now = 1_000_000 + 33 * 60 + 7;
    let (mut moved, mut hours) = (0.0, 0.0);
    for pair in samples.windows(2) {
        if pair[1].t < now - 1800 {
            continue;
        }
        let age = (now - pair[1].t) as f64 / 60.0;
        let weight = 0.5_f64.powf(age / 8.0);
        moved += weight * (level(&pair[0]) - level(&pair[1]));
        hours += weight * ((pair[1].t - pair[0].t) as f64 / 3600.0);
    }
    let history = History::in_memory(samples);
    let estimate = history.estimate(&battery(50, "Discharging", 0.0), now, &decay());
    assert_eq!(estimate.observed_pct_hr, Some(q(moved / hours)));
    assert_eq!(estimate.observed_minutes, 30);
    // No instant reading: what was observed is the rate.
    assert_eq!(estimate.instant_minutes, None);
    assert_eq!(estimate.rate_pct_hr, estimate.observed_pct_hr);
    assert_eq!(estimate.basis, Basis::Observed);
}

#[test]
fn nothing_to_go_by_leaves_no_countdown() {
    let history = History::in_memory(Vec::new());
    let idle = history.estimate(&battery(50, "Discharging", 0.05), 10, &decay());
    assert_eq!(idle.minutes, None);
    assert_eq!(idle.rate_pct_hr, None);
    assert_eq!(idle.headline(&battery(50, "Discharging", 0.05)), "Calculating runtime…");
    assert_eq!(idle.short(&battery(50, "Discharging", 0.05)), "Calculating…");
    let slow = history.estimate(&battery(50, "Charging", 0.05), 10, &decay());
    assert_eq!(slow.headline(&battery(50, "Charging", 0.05)), "Charging…");
    assert_eq!(slow.short(&battery(50, "Charging", 0.05)), "Charging");
}

#[test]
fn a_minute_must_have_been_observed() {
    // Two samples half a minute apart: too little to go by.
    let mut samples = discharge(0, 60.0, 10.0, 1);
    samples[1].t = 30;
    let history = History::in_memory(samples);
    let estimate = history.estimate(&battery(59, "Discharging", 10.0), 30, &decay());
    assert_eq!(estimate.observed_pct_hr, None);
    assert_eq!(estimate.basis, Basis::Instant);
}

#[test]
fn a_charge_that_moves_the_wrong_way_is_not_observed() {
    let mut samples = discharge(0, 60.0, 10.0, 20);
    samples.reverse();
    for (i, sample) in samples.iter_mut().enumerate() {
        sample.t = i as u64 * 60;
    }
    let history = History::in_memory(samples);
    let estimate = history.estimate(&battery(60, "Discharging", 10.0), 1200, &decay());
    assert_eq!(estimate.observed_pct_hr, None);
}

#[test]
fn bands_need_five_minutes_and_a_percent() {
    // Four minutes in the fifties.
    let short = History::in_memory(discharge(0, 59.0, 60.0, 4));
    assert!(short.band_rates(PowerState::OnBattery).iter().all(Option::is_none));
    // Ten minutes, but hardly any movement.
    let slow = History::in_memory(discharge(0, 59.0, 1.0, 10));
    assert!(slow.band_rates(PowerState::OnBattery).iter().all(Option::is_none));
    // Six minutes and six percent.
    let enough = History::in_memory(discharge(0, 59.0, 60.0, 6));
    let rates = enough.band_rates(PowerState::OnBattery);
    assert!((f(rates[5].unwrap()) - 60.0).abs() < 0.001);
    assert_eq!(rates.iter().filter(|r| r.is_some()).count(), 1);
    // None of it says anything of charging.
    assert!(enough.band_rates(PowerState::Charging).iter().all(Option::is_none));
}

#[test]
fn unscored_predictions_stay_out() {
    // Too short a session, too little movement, and no prediction at all.
    let mut short = discharge(0, 60.0, 30.0, 14);
    short[0].predicted_min = Some(100);
    assert_eq!(History::in_memory(short).checkpoints().len(), 0);
    let mut slow = discharge(0, 60.0, 5.0, 30);
    slow[0].predicted_min = Some(100);
    assert_eq!(History::in_memory(slow).checkpoints().len(), 0);
    let none = discharge(0, 60.0, 10.0, 60);
    let history = History::in_memory(none);
    assert_eq!(history.checkpoints().len(), 0);
    assert!(history.accuracy(0).is_none());
    // On the adapter nothing is scored.
    let mut held = discharge(0, 60.0, 10.0, 60);
    for sample in held.iter_mut() {
        sample.state = PowerState::PluggedIn;
        sample.predicted_min = Some(10);
    }
    assert_eq!(History::in_memory(held).checkpoints().len(), 0);
}

#[test]
fn accuracy_takes_means_and_signs() {
    let mut samples = discharge(0, 60.0, 10.0, 60);
    samples[0].predicted_min = Some(390);
    samples[0].instant_min = Some(180);
    samples[6].predicted_min = Some(300);
    let history = History::in_memory(samples);
    let points = history.checkpoints();
    assert_eq!(points.len(), 2);
    assert_eq!(points[0].error_min(), 30);
    assert_eq!(points[1].realized_min, 354);
    assert_eq!(points[1].error_min(), -54);
    let accuracy = history.accuracy(0).unwrap();
    assert_eq!(f(accuracy.model_error_min), 42.0);
    assert_eq!(f(accuracy.model_bias_min), -12.0);
    assert_eq!(f(accuracy.within_ten_percent), 0.5);
    assert_eq!(accuracy.instant_error_min.map(f), Some(180.0));
    // Only the later one counts from its own moment on.
    let later = history.accuracy(360).unwrap();
    assert_eq!(later.checkpoints, 1);
    assert_eq!(later.instant_error_min, None);
    assert!(history.accuracy(361).is_none());
}

#[test]
fn loading_sorts_and_prunes() {
    let month = 30 * 24 * 3600;
    let mut stored = discharge(10 * month, 60.0, 10.0, 2);
    stored.reverse();
    stored.push(discharge(9 * month - 1, 60.0, 10.0, 0)[0]);
    let (history, pruned) = History::load(stored, 10 * month);
    assert!(pruned);
    let times: Vec<u64> = history.samples().iter().map(|s| s.t).collect();
    assert_eq!(times, vec![10 * month, 10 * month + 60, 10 * month + 120]);
    // Loading again what was kept changes nothing.
    let (again, pruned) = History::load(history.samples().to_vec(), 10 * month);
    assert!(!pruned);
    assert_eq!(again.samples(), history.samples());
    // Exactly a month is kept.
    let (kept, pruned) = History::load(discharge(9 * month, 60.0, 10.0, 0), 10 * month);
    assert_eq!(kept.samples().len(), 1);
    assert!(!pruned);
}

#[test]
fn loading_keeps_the_order_of_equal_moments() {
    let mut stored = discharge(500, 60.0, 10.0, 0);
    stored.push(Sample { percent: 7, ..stored[0] });
    stored.insert(0, Sample { t: 600, ..stored[0] });
    let (history, _) = History::load(stored, 1000);
    let percents: Vec<u8> = history.samples().iter().map(|s| s.percent).collect();
    assert_eq!(percents, vec![60, 7, 60]);
}

#[test]
fn sessions_are_cut_at_states_and_silences() {
    let mut samples = discharge(0, 90.0, 10.0, 3);
    let mut charging = discharge(240, 90.0, 10.0, 1);
    for sample in charging.iter_mut() {
        sample.state = PowerState::Charging;
    }
    samples.extend(charging);
    // Exactly ten minutes of silence do not end a session, a second more does.
    samples.push(Sample { t: 900, ..samples[5] });
    samples.push(Sample { t: 1501, ..samples[5] });
    let history = History::in_memory(samples);
    let lengths: Vec<usize> = history.sessions().iter().map(|s| s.len()).collect();
    assert_eq!(lengths, vec![4, 3, 1]);
    assert_eq!(history.current_session(PowerState::Charging, 2101).unwrap().len(), 1);
    assert!(history.current_session(PowerState::Charging, 2102).is_none());
    assert!(history.current_session(PowerState::OnBattery, 1501).is_none());
    assert!(History::default().current_session(PowerState::OnBattery, 0).is_none());
    assert_eq!(History::default().sessions().len(), 0);
}

#[test]
fn with_no_history_the_estimate_is_the_instant_reading() {
    let history = History::default();
    let decay = decay();
    for percent in 1..=100u8 {
        for power in [0.11, 0.3, 1.7, 8.4, 33.3, 250.0] {
            let discharging = BatteryInfo {
                energy_now_wh: q(percent as f64 * 0.67),
                ..battery(percent, "Discharging", power)
            };
            let estimate = history.estimate(&discharging, 0, &decay);
            assert!(estimate.instant_minutes.is_some());
            if estimate.instant_minutes != Some(0) {
                assert_eq!(estimate.minutes, estimate.instant_minutes);
            }
        }
    }
    // An empty gauge over a battery that still holds something.
    let odd = BatteryInfo {
        energy_now_wh: q(5.0),
        ..battery(0, "Discharging", 10.0)
    };
    let estimate = history.estimate(&odd, 0, &decay);
    assert_eq!(estimate.instant_minutes, Some(30));
    assert_eq!(estimate.minutes, Some(0));
}

#[test]
fn trust_grows_until_it_is_full() {
    let decay = decay();
    let mut last = f64::INFINITY;
    for minutes in [2, 5, 10, 15, 19, 20, 25] {
        let history = History::in_memory(discharge(0, 60.0, 10.0, minutes));
        let reading = battery(55, "Discharging", 30.0);
        let estimate = history.estimate(&reading, minutes * 60, &decay);
        let rate = f(estimate.rate_pct_hr.unwrap());
        assert!(rate < last + 1e-9, "{minutes}: {rate} after {last}");
        if minutes >= 20 {
            assert_eq!(estimate.rate_pct_hr, estimate.observed_pct_hr);
        } else {
            assert!(rate > 10.5);
        }
        last = rate;
    }
}

#[test]
fn perfect_predictions_score_perfectly() {
    let mut samples = discharge(0, 60.0, 10.0, 60);
    for i in [0usize, 6, 12, 18] {
        samples[i].predicted_min = Some(samples[i].percent as u32 * 6);
        samples[i].energy_wh = q(samples[i].percent as f64);
    }
    samples[60].energy_wh = q(50.0);
    let history = History::in_memory(samples);
    let points = history.checkpoints();
    assert_eq!(points.len(), 4);
    assert!(points.iter().all(|c| c.error_min() == 0 && c.close()));
    let accuracy = history.accuracy(0).unwrap();
    assert_eq!(f(accuracy.model_error_min), 0.0);
    assert_eq!(f(accuracy.model_bias_min), 0.0);
    assert_eq!(f(accuracy.within_ten_percent), 1.0);
    assert_eq!(accuracy.instant_error_min, None);
}

#[test]
fn the_demo_stays_within_its_battery() {
    for now in [0, 59, 60, 28_799, 1_800_000_000] {
        let history = History::demo(now, &decay());
        let samples = history.samples();
        assert_eq!(samples.len() as u64, now.min(28_800) / 60 + 1);
        assert!(samples.iter().all(|s| s.percent <= 100 && s.t <= now));
    }
}
