use raven_power::chart::{
    axis_step, band_at_slot, band_label, charge_samples, charge_span, chart_top, clock_format,
    drain_grid_step, drain_now, drain_top, first_label, is_hex, pen_moves, pixel, projection,
    projection_label, runtime_grid_step, runtime_top, stretches, tint, window_points, Plot, Rgb,
    Series, Tint,
};
use raven_power::estimate::Estimate;
use raven_power::power::PowerState;
use raven_power::quantity::Quantity;
use raven_power::sample::Sample;
use raven_power::scoring::Checkpoint;

fn q(x: f64) -> Quantity {
    Quantity::from_bits(x.to_bits())
}

fn sample(t: u64, state: PowerState) -> Sample {
    Sample {
        t,
        percent: 50,
        energy_wh: q(30.0),
        energy_full_wh: q(60.0),
        power_w: q(10.0),
        state,
        predicted_min: None,
        instant_min: None,
    }
}

fn checkpoint(t: u64, predicted_min: u32, realized_min: u32, instant_min: Option<u32>) -> Checkpoint {
    Checkpoint {
        t,
        percent: 60,
        state: PowerState::OnBattery,
        predicted_min,
        instant_min,
        realized_min,
    }
}

#[test]
fn colours_are_read_from_hex() {
    let blue = Rgb { red: 0x4c, green: 0x8d, blue: 0xff };
    assert_eq!(Rgb::from_hex("#4c8DFF", "#000000"), blue);
    assert_eq!(Rgb::from_hex("4c8dff", "#4C8dff"), blue);
    assert!(is_hex("#00ff7F"));
    assert!(!is_hex("#00ff7"));
    assert!(!is_hex("#00ff7g"));
    assert!(!is_hex("#00ff7é"));
    assert!(!is_hex(""));
    assert_eq!(tint(PowerState::OnBattery), Tint::Accent);
    assert_eq!(tint(PowerState::Charging), Tint::Charge);
    assert_eq!(tint(PowerState::PluggedIn), Tint::Dimmed);
}

#[test]
fn plots_have_linear_axes() {
    let plot = Plot::new(658, 236, (q(1000.0), q(2000.0)), (q(0.0), q(100.0)));
    assert_eq!(plot.width, q(600.0));
    assert_eq!(plot.height, q(200.0));
    assert_eq!(plot.x(q(1000.0)), q(44.0));
    assert_eq!(plot.x(q(1500.0)), q(344.0));
    assert_eq!(plot.x(q(2000.0)), q(644.0));
    assert_eq!(plot.y(q(0.0)), q(212.0));
    assert_eq!(plot.y(q(25.0)), q(162.0));
    assert_eq!(plot.bottom(), q(212.0));
    // Too small a canvas and too short an axis still give a plot.
    let tiny = Plot::new(0, -5, (q(7.0), q(7.0)), (q(3.0), q(1.0)));
    assert_eq!(tiny.width, q(1.0));
    assert_eq!(tiny.height, q(1.0));
    assert_eq!(tiny.t_max, q(8.0));
    assert_eq!(tiny.v_max, q(4.0));
    assert_eq!(pixel(q(10.4)), q(10.5));
    assert_eq!(pixel(q(10.5)), q(11.5));
    assert_eq!(pixel(q(-0.5)), q(-0.5));
}

#[test]
fn the_charge_chart_leaves_room_ahead() {
    let idle = Estimate::idle(PowerState::OnBattery);
    assert_eq!(charge_span(20_000, 10_800, &idle), (q(9_200.0), q(20_000.0)));
    let counting = Estimate { minutes: Some(90), ..idle };
    assert_eq!(charge_span(20_000, 10_800, &counting), (q(9_200.0), q(22_700.0)));
}

#[test]
fn the_charge_chart_reaches_a_silence_further_back() {
    let all: Vec<Sample> = [8_599, 8_600, 12_000]
        .iter()
        .map(|t| sample(*t, PowerState::OnBattery))
        .collect();
    let shown = charge_samples(&all, 20_000, 10_800);
    assert_eq!(shown.len(), 2);
    assert_eq!(shown[0].t, 8_600);
    assert_eq!(charge_samples(&all, 100, 10_800).len(), 3);
}

#[test]
fn stretches_follow_states_and_silences() {
    let list = vec![
        sample(0, PowerState::OnBattery),
        sample(600, PowerState::Charging),
        sample(1_201, PowerState::PluggedIn),
        sample(1_300, PowerState::PluggedIn),
        sample(1_200, PowerState::PluggedIn),
    ];
    let drawn = stretches(&list);
    assert_eq!(drawn.len(), 4);
    assert!(drawn[0].line && !drawn[0].shaded);
    assert_eq!(drawn[0].tint, Tint::Accent);
    assert!(!drawn[1].line && !drawn[1].shaded);
    assert!(drawn[2].line && drawn[2].shaded);
    assert_eq!(drawn[2].tint, Tint::Dimmed);
    assert!(!drawn[3].line);
    assert!(stretches(&Vec::new()).is_empty());
}

#[test]
fn projections_are_cut_at_the_edge() {
    // An hour at 50%, on a chart that ends in half an hour.
    let cut = projection(7200, 50, PowerState::OnBattery, 60, q(9000.0));
    assert_eq!(cut, (q(9000.0), q(25.0)));
    let whole = projection(7200, 50, PowerState::Charging, 60, q(20_000.0));
    assert_eq!(whole, (q(10_800.0), q(100.0)));
    let none = projection(7200, 50, PowerState::OnBattery, 0, q(20_000.0));
    assert_eq!(none, (q(7200.0), q(50.0)));
    assert_eq!(projection_label(PowerState::Charging, 65), "full in 1 hr 05 min");
    assert_eq!(projection_label(PowerState::OnBattery, 65), "1 hr 05 min left");
}

#[test]
fn axes_are_labelled_at_round_times() {
    assert_eq!(axis_step(q(3600.0)), 900);
    assert_eq!(axis_step(q(7200.0)), 900);
    assert_eq!(axis_step(q(13_500.0)), 1800);
    assert_eq!(axis_step(q(108_000.0)), 21_600);
    assert_eq!(axis_step(q(756_000.0)), 86_400);
    assert_eq!(axis_step(q(f64::INFINITY)), 86_400);
    assert_eq!(clock_format(q(172_800.0)), "%H:%M");
    assert_eq!(clock_format(q(172_801.0)), "%a %H:%M");
    assert_eq!(first_label(q(1000.0), q(0.0), 900), q(1800.0));
    assert_eq!(first_label(q(1800.0), q(0.0), 900), q(1800.0));
    // Half an hour east, the quarters fall on the same moments.
    assert_eq!(first_label(q(1000.0), q(1800.0), 3600), q(1800.0));
    assert_eq!(first_label(q(1000.0), q(-1800.0), 3600), q(1800.0));
}

#[test]
fn the_drain_chart_reaches_above_its_rates() {
    let mut rates = [None; 10];
    assert_eq!(drain_top(&rates, None), None);
    rates[4] = Some(q(10.0));
    assert_eq!(drain_top(&rates, None), Some(q(15.0)));
    assert_eq!(drain_top(&rates, Some(q(33.0))), Some(q(45.0)));
    assert_eq!(drain_grid_step(q(40.0)), 5);
    assert_eq!(drain_grid_step(q(45.0)), 10);
    assert_eq!(band_label(0), "0–10");
    assert_eq!(band_label(9), "90–100");
    assert_eq!(band_at_slot(0), 9);
    assert_eq!(band_at_slot(9), 0);
    let on = Estimate { rate_pct_hr: Some(q(9.0)), ..Estimate::idle(PowerState::OnBattery) };
    assert_eq!(drain_now(&on), Some(q(9.0)));
    assert_eq!(drain_now(&Estimate { state: PowerState::Charging, ..on }), None);
}

#[test]
fn runtime_lines_are_broken_at_gaps() {
    let points = vec![
        checkpoint(0, 100, 90, Some(80)),
        checkpoint(600, 100, 90, None),
        checkpoint(660, 110, 95, Some(70)),
        checkpoint(1261, 120, 99, Some(60)),
    ];
    let draws = |series| -> Vec<Option<bool>> {
        pen_moves(&points, series).iter().map(|m| m.map(|p| p.draws)).collect()
    };
    assert_eq!(draws(Series::Predicted), vec![Some(false), Some(true), Some(true), Some(false)]);
    assert_eq!(draws(Series::Instant), vec![Some(false), None, Some(false), Some(false)]);
    let minutes: Vec<u32> =
        pen_moves(&points, Series::Realized).iter().map(|m| m.unwrap().minutes).collect();
    assert_eq!(minutes, vec![90, 90, 95, 99]);
    assert_eq!(chart_top(&points), 120);
    assert_eq!(Series::Instant.name(), "Instant reading");
    assert_eq!(Series::Predicted.name(), "Predicted");
    assert_eq!(Series::Realized.name(), "Realized");
}

#[test]
fn the_runtime_chart_ends_on_a_whole_hour() {
    assert_eq!(chart_top(&Vec::new()), 60);
    assert_eq!(runtime_top(&Vec::new()), q(120.0));
    assert_eq!(runtime_top(&vec![checkpoint(0, 10, 12, None)]), q(60.0));
    // 360 minutes and fifteen percent more, rounded up.
    assert_eq!(runtime_top(&vec![checkpoint(0, 350, 340, Some(360))]), q(420.0));
    assert_eq!(runtime_grid_step(q(480.0)), 60);
    assert_eq!(runtime_grid_step(q(540.0)), 120);
}

#[test]
fn runtime_points_lie_in_the_window() {
    let points = vec![checkpoint(9_199, 1, 1, None), checkpoint(9_200, 1, 1, None)];
    assert_eq!(window_points(&points, 20_000, 10_800).len(), 1);
    assert_eq!(window_points(&points, 5_000, 10_800).len(), 2);
}
