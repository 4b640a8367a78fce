//! What the pages of the window say. Numbers that were measured arrive
//! already written out.

use crate::estimate::{duration_text, Basis, Estimate};
use crate::power::{BatteryInfo, PowerState};
use crate::quantity::{Quantity, TWELVE_BITS};
use crate::scoring::{Accuracy, Checkpoint};
use crate::text::{joined, push_decimal};
use vstd::prelude::*;
use vstd::string::StringExecFns;

verus! {

use crate::binary::{product, quotient, whole};

// The sidebar and the overview.

/// A page of the window.
#[derive(Clone, Copy, Debug)]
pub struct Page {
    /// The page's name in the window's stack.
    pub name: &'static str,
    pub heading: &'static str,
    pub subtitle: &'static str,
}

/// The name of the page at a row of the sidebar.
pub open spec fn page_name(row: int) -> Option<Seq<char>> {
    if row == 0 {
        Some("overview"@)
    } else if row == 1 {
        Some("usage"@)
    } else if row == 2 {
        Some("profiles"@)
    } else if row == 3 {
        Some("applications"@)
    } else if row == 4 {
        Some("health"@)
    } else if row == 5 {
        Some("history"@)
    } else {
        None
    }
}

/// The heading of a page.
pub open spec fn page_heading(name: Seq<char>) -> Seq<char> {
    if name == "overview"@ {
        "Power overview"@
    } else if name == "usage"@ {
        "Energy usage"@
    } else if name == "profiles"@ {
        "Power profiles"@
    } else if name == "applications"@ {
        "Applications"@
    } else if name == "health"@ {
        "Battery health"@
    } else {
        "Battery history"@
    }
}

/// The subtitle of a page.
pub open spec fn page_subtitle(name: Seq<char>) -> Seq<char> {
    if name == "overview"@ {
        "Live battery status and power controls"@
    } else if name == "usage"@ {
        "See exactly where your battery power goes"@
    } else if name == "profiles"@ {
        "Tune performance and battery life"@
    } else if name == "applications"@ {
        "Control power use for each application"@
    } else if name == "health"@ {
        "Capacity, charging, and long-term battery care"@
    } else {
        "Charge over time, drain by level, and how the estimates held up"@
    }
}

/// The page at a row of the sidebar.
pub fn page(row: i32) -> (r: Option<Page>)
    ensures
        match r {
            Some(p) => {
                &&& page_name(row as int) == Some(p.name@)
                &&& p.heading@ == page_heading(p.name@)
                &&& p.subtitle@ == page_subtitle(p.name@)
            },
            None => page_name(row as int) is None,
        },
{
    proof {
        reveal_strlit("overview");
        reveal_strlit("usage");
        reveal_strlit("profiles");
        reveal_strlit("applications");
        reveal_strlit("health");
        reveal_strlit("history");
        assert("overview"@[0] == 'o');
        assert("usage"@[0] == 'u');
        assert("profiles"@[0] == 'p');
        assert("applications"@[0] == 'a');
        assert("health"@[1] == 'e');
        assert("history"@[1] == 'i');
    }
    if row == 0 {
        Some(
            Page {
                name: "overview",
                heading: "Power overview",
                subtitle: "Live battery status and power controls",
            },
        )
    } else if row == 1 {
        Some(
            Page {
                name: "usage",
                heading: "Energy usage",
                subtitle: "See exactly where your battery power goes",
            },
        )
    } else if row == 2 {
        Some(
            Page {
                name: "profiles",
                heading: "Power profiles",
                subtitle: "Tune performance and battery life",
            },
        )
    } else if row == 3 {
        Some(
            Page {
                name: "applications",
                heading: "Applications",
                subtitle: "Control power use for each application",
            },
        )
    } else if row == 4 {
        Some(
            Page {
                name: "health",
                heading: "Battery health",
                subtitle: "Capacity, charging, and long-term battery care",
            },
        )
    } else if row == 5 {
        Some(
            Page {
                name: "history",
                heading: "Battery history",
                subtitle: "Charge over time, drain by level, and how the estimates held up",
            },
        )
    } else {
        None
    }
}

/// The charge in words: "80% charged".
pub fn charged_text(percent: u8) -> (r: String)
    ensures
        r@ == crate::text::decimal(percent as nat) + "% charged"@,
{
    let mut out = percent_text(percent);
    proof {
        reveal_strlit("%");
        reveal_strlit("% charged");
        reveal_strlit(" charged");
        assert("% charged"@ =~= "%"@ + " charged"@);
    }
    out.append(" charged");
    assert(out@ =~= crate::text::decimal(percent as nat) + "% charged"@);
    out
}

/// A percentage: "80%".
pub fn percent_text(percent: u8) -> (r: String)
    ensures
        r@ == crate::text::decimal(percent as nat) + "%"@,
{
    let mut out = String::new();
    push_decimal(&mut out, percent as u64);
    out.append("%");
    assert(out@ =~= crate::text::decimal(percent as nat) + "%"@);
    out
}

/// The line below the charge: the state and the estimate in brief.
pub fn status_line(estimate: &Estimate, battery: &BatteryInfo) -> (r: String)
    ensures
        r@ == estimate.state.name() + " · "@ + estimate.short_text(battery.percent),
{
    let mut out = estimate.state.label().to_owned();
    out.append(" · ");
    out.append(estimate.short(battery).as_str());
    out
}

/// The caption of the gauge.
pub fn gauge_caption(state: PowerState) -> (r: &'static str)
    ensures
        r@ == match state {
            PowerState::OnBattery => "remaining"@,
            PowerState::Charging => "charging"@,
            PowerState::PluggedIn => "plugged in"@,
        },
{
    match state {
        PowerState::OnBattery => "remaining",
        PowerState::Charging => "charging",
        PowerState::PluggedIn => "plugged in",
    }
}

/// Whether the figures are live or made up, in words.
pub fn eyebrow(is_real: bool) -> (r: &'static str)
    ensures
        r@ == if is_real {
            "●  LIVE SYSTEM ESTIMATE"@
        } else {
            "●  DEMO DATA — NO BATTERY FOUND"@
        },
{
    if is_real {
        "●  LIVE SYSTEM ESTIMATE"
    } else {
        "●  DEMO DATA — NO BATTERY FOUND"
    }
}

/// The power in words: "10.6 W draw", "28.0 W in", or "0 W · on adapter".
pub open spec fn power_words(state: PowerState, watts: Seq<char>) -> Seq<char> {
    match state {
        PowerState::OnBattery => watts + " W draw"@,
        PowerState::Charging => watts + " W in"@,
        PowerState::PluggedIn => "0 W · on adapter"@,
    }
}

/// "10.6 W draw", "28.0 W in", or "0 W · on adapter".
pub fn power_text(state: PowerState, watts: &str) -> (r: String)
    ensures
        r@ == power_words(state, watts@),
{
    match state {
        PowerState::OnBattery => joined(watts, " W draw"),
        PowerState::Charging => joined(watts, " W in"),
        PowerState::PluggedIn => "0 W · on adapter".to_owned(),
    }
}

/// The line below the headline: state, power and battery health.
pub fn overview_line(state: PowerState, watts: &str, health: u8) -> (r: String)
    ensures
        r@ == state.name() + " · "@ + power_words(state, watts@) + " · "@
            + crate::text::decimal(health as nat) + "% battery health"@,
{
    let mut out = state.label().to_owned();
    out.append(" · ");
    out.append(power_text(state, watts).as_str());
    out.append(" · ");
    push_decimal(&mut out, health as u64);
    out.append("% battery health");
    out
}

/// What the power does, in words.
pub fn power_detail(state: PowerState) -> (r: &'static str)
    ensures
        r@ == match state {
            PowerState::OnBattery => "Drawn from the battery right now"@,
            PowerState::Charging => "Flowing into the battery right now"@,
            PowerState::PluggedIn => "The adapter is carrying the load"@,
        },
{
    match state {
        PowerState::OnBattery => "Drawn from the battery right now",
        PowerState::Charging => "Flowing into the battery right now",
        PowerState::PluggedIn => "The adapter is carrying the load",
    }
}

/// Whether the drain is worth a warning. Only a drain can be too high; the
/// adapter carrying 30 W is not one.
pub fn drain_alert(state: PowerState, power_watts: Quantity, is_real: bool) -> (r: bool)
    ensures
        r == (state == PowerState::OnBattery && ((Quantity { bits: TWELVE_BITS }).less(power_watts)
            || !is_real)),
{
    state == PowerState::OnBattery && (power_watts.is_above(TWELVE_BITS) || !is_real)
}

/// Whether a battery counts as in excellent condition.
pub open spec fn is_excellent(health: u8) -> bool {
    health > 85
}

/// The battery's health in words: "90% · Excellent".
pub fn health_text(health: u8) -> (r: String)
    ensures
        r@ == crate::text::decimal(health as nat) + "% · "@ + if is_excellent(health) {
            "Excellent"@
        } else {
            "Worn"@
        },
{
    let mut out = String::new();
    push_decimal(&mut out, health as u64);
    out.append("% · ");
    if health > 85 {
        out.append("Excellent");
    } else {
        out.append("Worn");
    }
    assert(Seq::<char>::empty() + crate::text::decimal(health as nat) =~= crate::text::decimal(
        health as nat,
    ));
    out
}

/// The heading of the health page.
pub fn health_heading(health: u8) -> (r: &'static str)
    ensures
        r@ == if is_excellent(health) {
            "Your battery is in excellent condition"@
        } else {
            "Your battery has experienced wear"@
        },
{
    if health > 85 {
        "Your battery is in excellent condition"
    } else {
        "Your battery has experienced wear"
    }
}

/// The temperature of the overview.
pub fn temperature_text(degrees: Option<&str>) -> (r: String)
    ensures
        r@ == match degrees {
            Some(d) => d@ + "°C · Normal"@,
            None => "Unavailable"@,
        },
{
    match degrees {
        Some(d) => joined(d, "°C · Normal"),
        None => "Unavailable".to_owned(),
    }
}

/// The facts of the health page: cycle count and temperature.
pub fn health_facts(cycle_count: Option<u32>, degrees: Option<&str>) -> (r: String)
    ensures
        r@ == "Cycle count: "@ + match cycle_count {
            Some(n) => crate::text::decimal(n as nat),
            None => "Unavailable"@,
        } + "   ·   Temperature: "@ + match degrees {
            Some(d) => d@ + "°C"@,
            None => "Unavailable"@,
        },
{
    let mut out = "Cycle count: ".to_owned();
    match cycle_count {
        Some(n) => {
            push_decimal(&mut out, n as u64);
        },
        None => {
            out.append("Unavailable");
        },
    }
    out.append("   ·   Temperature: ");
    let temperature = match degrees {
        Some(d) => joined(d, "°C"),
        None => "Unavailable".to_owned(),
    };
    out.append(temperature.as_str());
    out
}

// Where the estimate came from.

/// What a naive meter would say, if it has anything to say.
pub open spec fn naive_words(instant_minutes: Option<u32>) -> Seq<char> {
    match instant_minutes {
        Some(m) => " A naive meter would say "@ + crate::estimate::duration(m as nat) + "."@,
        None => Seq::empty(),
    }
}

/// The minutes something was observed over, at least one.
pub open spec fn observed_span(e: Estimate) -> nat {
    if e.observed_minutes < 1 {
        1
    } else {
        e.observed_minutes as nat
    }
}

/// The line under the headline that says where the estimate came from.
pub open spec fn basis_words(e: Estimate, rate: Seq<char>) -> Seq<char> {
    if e.state == PowerState::PluggedIn {
        "The battery is not being drawn on."@
    } else if e.observed_pct_hr is Some {
        "From "@ + rate + "%/h observed over the last "@ + crate::estimate::duration(
            observed_span(e),
        ) + (if e.basis == Basis::Learned {
            ", shaped by earlier sessions"@
        } else {
            Seq::empty()
        }) + "."@ + naive_words(e.instant_minutes)
    } else {
        "From this instant's power reading only. It steadies after a few minutes."@
    }
}

fn observed_duration(e: &Estimate) -> (r: String)
    ensures
        r@ == crate::estimate::duration(observed_span(*e)),
{
    let minutes: u32 = if e.observed_minutes < 1 {
        1
    } else {
        e.observed_minutes
    };
    duration_text(minutes)
}

/// The line under the headline that says where the estimate came from.
/// `rate` is the observed rate, where there is one.
pub fn basis_text(e: &Estimate, rate: &str) -> (r: String)
    ensures
        r@ == basis_words(*e, rate@),
{
    if e.state == PowerState::PluggedIn {
        return "The battery is not being drawn on.".to_owned();
    }
    if e.observed_pct_hr.is_none() {
        return
            "From this instant's power reading only. It steadies after a few minutes.".to_owned();
    }
    let mut out = "From ".to_owned();
    out.append(rate);
    out.append("%/h observed over the last ");
    out.append(observed_duration(e).as_str());
    let ghost so_far = out@;
    if e.basis == Basis::Learned {
        out.append(", shaped by earlier sessions");
    }
    assert(so_far + Seq::<char>::empty() =~= so_far);
    out.append(".");
    let ghost so_far = out@;
    if let Some(m) = e.instant_minutes {
        out.append(" A naive meter would say ");
        out.append(duration_text(m).as_str());
        out.append(".");
        assert(out@ =~= so_far + naive_words(e.instant_minutes));
    }
    assert(so_far + Seq::<char>::empty() =~= so_far);
    out
}

/// The observed rate as a power, in watts.
pub fn observed_watts(e: &Estimate, battery: &BatteryInfo) -> (r: Option<Quantity>)
    ensures
        r == match e.observed_pct_hr {
            Some(rate) => Some(product(quotient(rate, whole(100)), battery.energy_full_wh)),
            None => None,
        },
{
    match e.observed_pct_hr {
        Some(rate) => Some(rate.over(Quantity::of(100)).times(battery.energy_full_wh)),
        None => None,
    }
}

/// The observed drain in words, a dash where there is none.
pub fn observed_text(e: &Estimate, rate: &str) -> (r: String)
    ensures
        r@ == if e.observed_pct_hr is Some {
            rate@ + "%/h"@
        } else {
            "—"@
        },
{
    if e.observed_pct_hr.is_some() {
        joined(rate, "%/h")
    } else {
        "—".to_owned()
    }
}

/// What the observed drain amounts to. `watts` is the observed rate as a
/// power.
pub fn observed_detail(e: &Estimate, watts: &str) -> (r: String)
    ensures
        r@ == match (e.state, e.observed_pct_hr) {
            (PowerState::PluggedIn, _) => "Not on battery"@,
            (PowerState::OnBattery, Some(_)) => watts@ + " W over the last "@
                + crate::estimate::duration(observed_span(*e)),
            (PowerState::Charging, Some(_)) => "Charging, over the last "@
                + crate::estimate::duration(observed_span(*e)),
            (_, None) => "Needs a minute of samples"@,
        },
{
    match (e.state, e.observed_pct_hr) {
        (PowerState::PluggedIn, _) => "Not on battery".to_owned(),
        (PowerState::OnBattery, Some(_)) => joined(
            joined(watts, " W over the last ").as_str(),
            observed_duration(e).as_str(),
        ),
        (PowerState::Charging, Some(_)) => joined(
            "Charging, over the last ",
            observed_duration(e).as_str(),
        ),
        (_, None) => "Needs a minute of samples".to_owned(),
    }
}

/// The instant reading in words, a dash where there is none.
pub fn instant_text(e: &Estimate) -> (r: String)
    ensures
        r@ == match e.instant_minutes {
            Some(m) => crate::estimate::duration(m as nat),
            None => "—"@,
        },
{
    match e.instant_minutes {
        Some(m) => duration_text(m),
        None => "—".to_owned(),
    }
}

/// The line below the instant reading.
pub fn instant_detail(state: PowerState, watts: &str) -> (r: String)
    ensures
        r@ == power_words(state, watts@) + " · what a naive meter shows"@,
{
    joined(power_text(state, watts).as_str(), " · what a naive meter shows")
}

// How past estimates held up.

/// The mean error in words, a dash with nothing scored. `mean` is the model's
/// mean error in whole minutes.
pub fn accuracy_text(accuracy: &Option<Accuracy>, mean: &str) -> (r: String)
    ensures
        r@ == if accuracy is Some {
            "±"@ + mean@ + " min"@
        } else {
            "—"@
        },
{
    match accuracy {
        Some(_) => joined(joined("±", mean).as_str(), " min"),
        None => "—".to_owned(),
    }
}

/// The share of predictions within ten percent, in percent.
pub fn within_percent(accuracy: &Accuracy) -> (r: Quantity)
    ensures
        r == product(accuracy.within_ten_percent, whole(100)),
{
    accuracy.within_ten_percent.times(Quantity::of(100))
}

/// The line below the accuracy. `percent` is the share within ten percent,
/// `naive` the instant reading's mean error, both written out.
pub fn accuracy_detail(accuracy: &Option<Accuracy>, percent: &str, naive: &str) -> (r: String)
    ensures
        r@ == match accuracy {
            Some(a) => crate::text::decimal(a.checkpoints as nat) + " scored this week · "@
                + percent@ + "% within 10%"@ + if a.instant_error_min is Some {
                " · naive ±"@ + naive@ + " min"@
            } else {
                Seq::empty()
            },
            None => "Nothing scored yet"@,
        },
{
    match accuracy {
        Some(a) => {
            let mut out = String::new();
            push_decimal(&mut out, a.checkpoints as u64);
            assert(out@ =~= crate::text::decimal(a.checkpoints as nat));
            out.append(" scored this week · ");
            out.append(percent);
            out.append("% within 10%");
            let ghost so_far = out@;
            assert(so_far + Seq::<char>::empty() =~= so_far);
            if a.instant_error_min.is_some() {
                out.append(" · naive ±");
                out.append(naive);
                out.append(" min");
                assert(out@ =~= so_far + (" · naive ±"@ + naive@ + " min"@));
            }
            out
        },
        None => "Nothing scored yet".to_owned(),
    }
}

/// The most applications that the usage page lists.
pub const MAX_USAGE: usize = 8;

/// How many of the applications found the usage page lists.
pub fn usage_rows(found: usize) -> (r: usize)
    ensures
        r == if found < MAX_USAGE {
            found
        } else {
            MAX_USAGE
        },
{
    if found < MAX_USAGE {
        found
    } else {
        MAX_USAGE
    }
}

/// The most checkpoints that are listed.
pub const MAX_SHOWN: usize = 6;

/// The least time between two checkpoints that are listed.
pub const SHOWN_APART_SECS: u64 = 1200;

/// `chosen` with the checkpoints that are listed of `p`, latest first, each
/// at least twenty minutes before the one chosen last.
pub open spec fn picked(p: Seq<Checkpoint>, chosen: Seq<Checkpoint>) -> Seq<Checkpoint>
    decreases p.len(),
{
    if p.len() == 0 || chosen.len() >= MAX_SHOWN {
        chosen
    } else if chosen.len() == 0 || crate::sample::elapsed(p.last().t, chosen.last().t)
        >= SHOWN_APART_SECS {
        picked(p.drop_last(), chosen.push(p.last()))
    } else {
        picked(p.drop_last(), chosen)
    }
}

/// The latest few checkpoints, at least twenty minutes apart, newest first.
pub fn shown_checkpoints(points: &Vec<Checkpoint>) -> (r: Vec<Checkpoint>)
    ensures
        r@ == picked(points@, Seq::empty()),
{
    let mut shown: Vec<Checkpoint> = Vec::new();
    let mut left: usize = points.len();
    assert(points@.take(left as int) =~= points@);
    while left > 0 && shown.len() < MAX_SHOWN
        invariant
            left <= points.len(),
            shown.len() <= MAX_SHOWN,
            picked(points@, Seq::empty()) == picked(points@.take(left as int), shown@),
        decreases left,
    {
        let point = points[left - 1];
        let ghost rest = points@.take(left as int);
        assert(rest.last() == point);
        assert(rest.drop_last() =~= points@.take(left - 1));
        let n = shown.len();
        if n == 0 || shown[n - 1].t.saturating_sub(point.t) >= SHOWN_APART_SECS {
            shown.push(point);
        }
        left -= 1;
    }
    shown
}

/// Whether a list of checkpoints can be shown: at most six, each at least
/// twenty minutes before those above it.
pub open spec fn is_listable(chosen: Seq<Checkpoint>) -> bool {
    &&& chosen.len() <= MAX_SHOWN
    &&& forall|i: int, j: int|
        0 <= i < j < chosen.len() ==> (#[trigger] chosen[j]).t + SHOWN_APART_SECS <= (
        #[trigger] chosen[i]).t
}

/// The list shown is at most six long, its entries lie twenty minutes apart,
/// and it begins with what it was begun with.
pub proof fn picks_are_listable(p: Seq<Checkpoint>, chosen: Seq<Checkpoint>)
    requires
        is_listable(chosen),
    ensures
        is_listable(picked(p, chosen)),
        picked(p, chosen).len() >= chosen.len(),
        picked(p, chosen).take(chosen.len() as int) == chosen,
    decreases p.len(),
{
    if p.len() == 0 || chosen.len() >= MAX_SHOWN {
        assert(chosen.take(chosen.len() as int) =~= chosen);
    } else if chosen.len() == 0 || crate::sample::elapsed(p.last().t, chosen.last().t)
        >= SHOWN_APART_SECS {
        let grown = chosen.push(p.last());
        assert forall|i: int, j: int| 0 <= i < j < grown.len() implies (#[trigger] grown[j]).t
            + SHOWN_APART_SECS <= (#[trigger] grown[i]).t by {
            assert(grown[i] == chosen[i]);
            if j < chosen.len() {
                assert(grown[j] == chosen[j]);
            } else if i < chosen.len() - 1 {
                assert(chosen[chosen.len() - 1].t + SHOWN_APART_SECS <= chosen[i].t);
            }
        }
        picks_are_listable(p.drop_last(), grown);
        let all = picked(p.drop_last(), grown);
        assert(all.take(chosen.len() as int) =~= all.take(grown.len() as int).take(
            chosen.len() as int,
        ));
        assert(grown.take(chosen.len() as int) =~= chosen);
    } else {
        picks_are_listable(p.drop_last(), chosen);
    }
}

/// The latest checkpoint is always the first in the list.
pub proof fn the_latest_is_shown(p: Seq<Checkpoint>)
    requires
        p.len() > 0,
    ensures
        picked(p, Seq::empty()).len() > 0,
        picked(p, Seq::empty()).first() == p.last(),
{
    let first = Seq::<Checkpoint>::empty().push(p.last());
    picks_are_listable(p.drop_last(), first);
    let all = picked(p.drop_last(), first);
    assert(all.take(1)[0] == first[0]);
}

/// The title of a checkpoint: "Mon 14:05 at 80%".
pub fn checkpoint_title(when: &str, percent: u8) -> (r: String)
    ensures
        r@ == when@ + " at "@ + crate::text::decimal(percent as nat) + "%"@,
{
    let mut out = when.to_owned();
    out.append(" at ");
    push_decimal(&mut out, percent as u64);
    out.append("%");
    out
}

/// What was predicted and what happened, in words.
pub fn checkpoint_detail(point: &Checkpoint) -> (r: String)
    ensures
        r@ == "Predicted "@ + crate::estimate::duration(point.predicted_min as nat) + " "@ + (
        if point.state == PowerState::Charging {
            "to full"@
        } else {
            "left"@
        }) + " · really "@ + crate::estimate::duration(point.realized_min as nat),
{
    let mut out = "Predicted ".to_owned();
    out.append(duration_text(point.predicted_min).as_str());
    out.append(" ");
    match point.state {
        PowerState::Charging => out.append("to full"),
        _ => out.append("left"),
    }
    out.append(" · really ");
    out.append(duration_text(point.realized_min).as_str());
    out
}

/// How a prediction turned out, in words.
pub open spec fn verdict_words(point: Checkpoint) -> Seq<char> {
    if point.miss() < 3 {
        "spot on"@
    } else if point.error() > 0 {
        crate::estimate::duration(point.miss()) + " too optimistic"@
    } else {
        crate::estimate::duration(point.miss()) + " too cautious"@
    }
}

/// How a prediction turned out, in words.
pub fn verdict(point: &Checkpoint) -> (r: String)
    ensures
        r@ == verdict_words(*point),
{
    let miss = point.miss_min();
    if miss < 3 {
        "spot on".to_owned()
    } else if point.error_min() > 0 {
        joined(duration_text(miss).as_str(), " too optimistic")
    } else {
        joined(duration_text(miss).as_str(), " too cautious")
    }
}

/// The window of the charts, in seconds, for an entry of the picker.
pub open spec fn range_of(entry: int) -> Option<u64> {
    if entry == 0 {
        Some(10_800u64)
    } else if entry == 1 {
        Some(43_200u64)
    } else if entry == 2 {
        Some(86_400u64)
    } else if entry == 3 {
        Some(604_800u64)
    } else {
        None
    }
}

/// The window of the charts, in seconds, for an entry of the picker: three
/// hours, twelve hours, a day, a week.
pub fn range_seconds(entry: u32) -> (r: Option<u64>)
    ensures
        r == range_of(entry as int),
{
    if entry == 0 {
        Some(10_800)
    } else if entry == 1 {
        Some(43_200)
    } else if entry == 2 {
        Some(86_400)
    } else if entry == 3 {
        Some(604_800)
    } else {
        None
    }
}

/// The moment a week before `now`, since which accuracy is reckoned.
pub fn week_before(now: u64) -> (r: u64)
    ensures
        r == crate::sample::elapsed(604_800, now),
{
    now.saturating_sub(604_800)
}

// Applications.

/// The line of the usage page for an application. `memory` is its memory in
/// whole megabytes.
pub fn usage_line(processes: usize, memory: &str) -> (r: String)
    ensures
        r@ == crate::text::decimal(processes as nat) + " processes  ·  "@ + memory@ + " MB"@,
{
    let mut out = String::new();
    push_decimal(&mut out, processes as u64);
    assert(out@ =~= crate::text::decimal(processes as nat));
    out.append(" processes  ·  ");
    out.append(memory);
    out.append(" MB");
    out
}

/// The line of the applications page for an application.
pub fn application_line(processes: usize, memory: &str) -> (r: String)
    ensures
        r@ == crate::text::decimal(processes as nat) + " running process"@ + (if processes == 1 {
            Seq::empty()
        } else {
            "es"@
        }) + " · "@ + memory@ + " MB"@,
{
    let mut out = String::new();
    push_decimal(&mut out, processes as u64);
    assert(out@ =~= crate::text::decimal(processes as nat));
    out.append(" running process");
    let ghost so_far = out@;
    assert(so_far + Seq::<char>::empty() =~= so_far);
    if processes != 1 {
        out.append("es");
    }
    out.append(" · ");
    out.append(memory);
    out.append(" MB");
    out
}

/// What is said after an application was switched into or out of eco mode.
pub fn eco_toast(eco: bool) -> (r: &'static str)
    ensures
        r@ == if eco {
            "Eco mode enabled"@
        } else {
            "Normal priority requested"@
        },
{
    if eco {
        "Eco mode enabled"
    } else {
        "Normal priority requested"
    }
}

} // verus!
