//! The runtime estimate: which observations it rests on, how the rest of the
//! charge is walked, and how it is put into words.

use crate::binary::SPAN;
use crate::power::{BatteryInfo, PowerState};
use crate::quantity::{Quantity, HALF_BITS, ONE_BITS, TWO_BITS};
use crate::sample::{band, BANDS};
use crate::text::{push_decimal, push_two_digits};
use vstd::arithmetic::power2::pow2;
use vstd::prelude::*;
use vstd::string::StringExecFns;

verus! {

use crate::binary::{
    clamped, difference, exact_values_stay, larger_factors_make_more, lesser, magnitudes_grow,
    nearest, nearest_exists, nearest_keeps_order, one_in_units, product, put_together, quotient,
    rounded_to, small_wholes_are_exact, sum, units, whole, with_sign,
};

/// Minutes of observation before the observed rate outweighs the instant
/// reading entirely.
pub const FULL_TRUST_MINUTES: u32 = 20;

/// How the estimate's rate was arrived at.
#[derive(Clone, Copy, Debug, PartialEq, Eq, Structural)]
pub enum Basis {
    /// Nothing observed yet; the instant power reading alone.
    Instant,
    /// The rate observed this session, blended with the instant reading.
    Observed,
    /// Observed rate plus the per-band curve from earlier sessions.
    Learned,
}

/// What the model says of a battery at one moment.
#[derive(Clone, Copy, Debug, PartialEq, Eq, Structural)]
pub struct Estimate {
    pub state: PowerState,
    /// Model minutes to empty or to full.
    pub minutes: Option<u32>,
    /// Naive minutes from the instant reading.
    pub instant_minutes: Option<u32>,
    /// The blended rate driving the current band, percent per hour.
    pub rate_pct_hr: Option<Quantity>,
    /// The rate observed this session, percent per hour, and over how long.
    pub observed_pct_hr: Option<Quantity>,
    pub observed_minutes: u32,
    pub basis: Basis,
}

// Durations in words.

/// A number of minutes in words: "45 min", "3 hr 12 min", "1 hr 05 min".
pub open spec fn duration(minutes: nat) -> Seq<char> {
    if minutes < 60 {
        crate::text::decimal(minutes) + " min"@
    } else {
        crate::text::decimal(minutes / 60) + " hr "@ + crate::text::two_digits(minutes % 60)
            + " min"@
    }
}

/// A number of minutes in words.
pub fn duration_text(minutes: u32) -> (r: String)
    ensures
        r@ == duration(minutes as nat),
{
    let mut out = String::new();
    if minutes < 60 {
        push_decimal(&mut out, minutes as u64);
        out.append(" min");
        assert(out@ =~= duration(minutes as nat));
    } else {
        push_decimal(&mut out, (minutes / 60) as u64);
        out.append(" hr ");
        push_two_digits(&mut out, (minutes % 60) as u64);
        out.append(" min");
        assert(out@ =~= duration(minutes as nat));
    }
    out
}

impl Estimate {
    /// The estimate that says nothing.
    pub open spec fn nothing(state: PowerState) -> Estimate {
        Estimate {
            state,
            minutes: None,
            instant_minutes: None,
            rate_pct_hr: None,
            observed_pct_hr: None,
            observed_minutes: 0,
            basis: Basis::Instant,
        }
    }

    /// The estimate that says nothing.
    pub fn idle(state: PowerState) -> (r: Estimate)
        ensures
            r == Estimate::nothing(state),
    {
        Estimate {
            state,
            minutes: None,
            instant_minutes: None,
            rate_pct_hr: None,
            observed_pct_hr: None,
            observed_minutes: 0,
            basis: Basis::Instant,
        }
    }

    /// The estimate as a headline.
    pub open spec fn headline_text(self, percent: u8) -> Seq<char> {
        match (self.state, self.minutes) {
            (PowerState::OnBattery, Some(m)) => duration(m as nat) + " left"@,
            (PowerState::OnBattery, None) => "Calculating runtime…"@,
            (PowerState::Charging, Some(m)) => duration(m as nat) + " to full"@,
            (PowerState::Charging, None) => "Charging…"@,
            (PowerState::PluggedIn, _) => if percent >= 99 {
                "Fully charged"@
            } else {
                "Holding at "@ + crate::text::decimal(percent as nat) + "%"@
            },
        }
    }

    /// "3 hr 12 min left", "1 hr 05 min to full", "Fully charged".
    pub fn headline(&self, battery: &BatteryInfo) -> (r: String)
        ensures
            r@ == self.headline_text(battery.percent),
    {
        match (self.state, self.minutes) {
            (PowerState::OnBattery, Some(m)) => duration_text(m).concat(" left"),
            (PowerState::OnBattery, None) => "Calculating runtime…".to_owned(),
            (PowerState::Charging, Some(m)) => duration_text(m).concat(" to full"),
            (PowerState::Charging, None) => "Charging…".to_owned(),
            (PowerState::PluggedIn, _) => if battery.percent >= 99 {
                "Fully charged".to_owned()
            } else {
                let mut out = "Holding at ".to_owned();
                push_decimal(&mut out, battery.percent as u64);
                out.append("%");
                out
            },
        }
    }

    /// The estimate in its compact form.
    pub open spec fn short_text(self, percent: u8) -> Seq<char> {
        match (self.state, self.minutes) {
            (PowerState::OnBattery, Some(m)) => duration(m as nat),
            (PowerState::OnBattery, None) => "Calculating…"@,
            (PowerState::Charging, Some(m)) => duration(m as nat) + " to full"@,
            (PowerState::Charging, None) => "Charging"@,
            (PowerState::PluggedIn, _) => if percent >= 99 {
                "Full"@
            } else {
                "Not charging"@
            },
        }
    }

    /// The compact form for the sidebar: "3 hr 12 min", "1 hr 05 min to full".
    pub fn short(&self, battery: &BatteryInfo) -> (r: String)
        ensures
            r@ == self.short_text(battery.percent),
    {
        match (self.state, self.minutes) {
            (PowerState::OnBattery, Some(m)) => duration_text(m),
            (PowerState::OnBattery, None) => "Calculating…".to_owned(),
            (PowerState::Charging, Some(m)) => duration_text(m).concat(" to full"),
            (PowerState::Charging, None) => "Charging".to_owned(),
            (PowerState::PluggedIn, _) => if battery.percent >= 99 {
                "Full".to_owned()
            } else {
                "Not charging".to_owned()
            },
        }
    }

    /// What the estimate rests on, in words.
    pub fn basis_text(&self) -> (r: &'static str)
        ensures
            r@ == match self.basis {
                Basis::Instant => "From this instant's power reading only"@,
                Basis::Observed => "From the drain observed this session"@,
                Basis::Learned => "Observed drain, shaped by earlier sessions"@,
            },
    {
        match self.basis {
            Basis::Instant => "From this instant's power reading only",
            Basis::Observed => "From the drain observed this session",
            Basis::Learned => "Observed drain, shaped by earlier sessions",
        }
    }
}

// What is left to travel.

/// Percent still to travel: down to empty on battery, up to full charging.
pub open spec fn points_left(percent: u8, state: PowerState) -> nat {
    if state == PowerState::Charging {
        if percent < 100 {
            (100 - percent) as nat
        } else {
            0
        }
    } else {
        percent as nat
    }
}

/// Percent still to travel: down to empty on battery, up to full charging.
pub fn remaining_points(percent: u8, state: PowerState) -> (r: u8)
    ensures
        r == points_left(percent, state),
{
    match state {
        PowerState::Charging => if percent < 100 {
            100 - percent
        } else {
            0
        },
        _ => percent,
    }
}

/// The `i`-th percent of the walk: upwards from here while charging, upwards
/// from one percent to here otherwise.
pub open spec fn walk_point(percent: u8, state: PowerState, i: int) -> int {
    if state == PowerState::Charging {
        percent + i
    } else {
        1 + i
    }
}

/// The rate that a percent of the walk moves at: the current band and any
/// band without a learnt rate at today's, the others at their learnt one,
/// scaled.
pub open spec fn point_rate(
    point: int,
    percent: u8,
    current: Quantity,
    bands: Seq<Option<Quantity>>,
    scale: Quantity,
) -> Quantity {
    let b = crate::sample::band_of(point as u8);
    if b == crate::sample::band_of(percent) {
        current
    } else {
        match bands[b as int] {
            Some(rate) => product(rate, scale),
            None => current,
        }
    }
}

/// The rates that are known, from the lowest band up.
pub open spec fn known_rates(bands: Seq<Option<Quantity>>) -> Seq<Quantity>
    decreases bands.len(),
{
    if bands.len() == 0 {
        Seq::empty()
    } else {
        match bands.last() {
            Some(q) => known_rates(bands.drop_last()).push(q),
            None => known_rates(bands.drop_last()),
        }
    }
}

/// Rates added up, one after the other.
pub open spec fn total(rates: Seq<Quantity>) -> Quantity
    decreases rates.len(),
{
    if rates.len() == 0 {
        Quantity { bits: 0 }
    } else {
        sum(total(rates.drop_last()), rates.last())
    }
}

/// The rate that ties the learnt curve to today's: the one learnt in the band
/// being crossed, else the mean of those learnt elsewhere.
pub open spec fn anchor(percent: u8, bands: Seq<Option<Quantity>>) -> Option<Quantity> {
    let known = known_rates(bands);
    match bands[crate::sample::band_of(percent) as int] {
        Some(rate) => Some(rate),
        None => if known.len() == 0 {
            None
        } else {
            Some(quotient(total(known), whole(known.len())))
        },
    }
}

/// By how much the learnt curve is stretched to pass through today's rate: at
/// least by half, at most twice.
pub open spec fn scale_of(percent: u8, current: Quantity, bands: Seq<Option<Quantity>>) -> Quantity {
    match anchor(percent, bands) {
        Some(learned) => clamped(
            quotient(current, learned),
            Quantity { bits: HALF_BITS },
            Quantity { bits: TWO_BITS },
        ),
        None => Quantity { bits: ONE_BITS },
    }
}

/// The hours that the first `n` percent of the walk take.
pub open spec fn walk_hours(
    percent: u8,
    state: PowerState,
    current: Quantity,
    bands: Seq<Option<Quantity>>,
    n: nat,
) -> Quantity
    decreases n,
{
    if n == 0 {
        Quantity { bits: 0 }
    } else {
        sum(
            walk_hours(percent, state, current, bands, (n - 1) as nat),
            quotient(
                Quantity { bits: ONE_BITS },
                point_rate(
                    walk_point(percent, state, n - 1),
                    percent,
                    current,
                    bands,
                    scale_of(percent, current, bands),
                ),
            ),
        )
    }
}

/// The whole minutes that the walk takes, unless the charge is not moving.
pub open spec fn walk_minutes(
    percent: u8,
    state: PowerState,
    current: Quantity,
    bands: Seq<Option<Quantity>>,
) -> Option<u32> {
    if current.at_most(Quantity { bits: 0 }) {
        None
    } else {
        Some(
            rounded_to(
                product(
                    walk_hours(percent, state, current, bands, points_left(percent, state)),
                    whole(60),
                ),
                u32::MAX as nat,
            ) as u32,
        )
    }
}

fn walk_anchor(percent: u8, bands: &[Option<Quantity>; 10]) -> (r: Option<Quantity>)
    ensures
        r == anchor(percent, bands@),
{
    if let Some(q) = bands[band(percent)] {
        return Some(q);
    }
    let mut known: usize = 0;
    let mut added = Quantity::zero();
    let mut i: usize = 0;
    assert(bands@.take(0) =~= Seq::<Option<Quantity>>::empty());
    while i < BANDS
        invariant
            i <= BANDS,
            known <= i,
            known == known_rates(bands@.take(i as int)).len(),
            added == total(known_rates(bands@.take(i as int))),
        decreases BANDS - i,
    {
        let ghost before = known_rates(bands@.take(i as int));
        assert(bands@.take(i + 1).drop_last() =~= bands@.take(i as int));
        assert(bands@.take(i + 1).last() == bands@[i as int]);
        if let Some(q) = bands[i] {
            assert(before.push(q).drop_last() =~= before);
            added = added.plus(q);
            known += 1;
        }
        i += 1;
    }
    assert(bands@.take(BANDS as int) =~= bands@);
    if known == 0 {
        None
    } else {
        Some(added.over(Quantity::of(known as u64)))
    }
}

/// Minutes to walk the remaining charge one percent at a time. The current
/// band moves at `current`; the others at their learnt rate, scaled so the
/// learnt curve passes through today's rate where the two meet, but by no less
/// than a half and no more than two. With no learnt rate for the band being
/// crossed, the current rate stands in.
pub fn walk(
    percent: u8,
    state: PowerState,
    current: Quantity,
    bands: &[Option<Quantity>; 10],
) -> (r: Option<u32>)
    ensures
        r == walk_minutes(percent, state, current, bands@),
{
    if current.is_at_most(Quantity::zero()) {
        return None;
    }
    let here = band(percent);
    let scale = match walk_anchor(percent, bands) {
        Some(learned) => current.over(learned).clamp(
            Quantity { bits: HALF_BITS },
            Quantity { bits: TWO_BITS },
        ),
        None => Quantity { bits: ONE_BITS },
    };
    let n = remaining_points(percent, state);
    let mut hours = Quantity::zero();
    let mut i: u8 = 0;
    while i < n
        invariant
            i <= n,
            n == points_left(percent, state),
            here == crate::sample::band_of(percent),
            scale == scale_of(percent, current, bands@),
            hours == walk_hours(percent, state, current, bands@, i as nat),
        decreases n - i,
    {
        let point: u8 = match state {
            PowerState::Charging => percent + i,
            _ => 1 + i,
        };
        let b = band(point);
        let rate = if b == here {
            current
        } else {
            match bands[b] {
                Some(learned) => learned.times(scale),
                None => current,
            }
        };
        hours = hours.plus(Quantity { bits: ONE_BITS }.over(rate));
        i += 1;
    }
    Some(hours.times(Quantity::of(60)).round(u32::MAX))
}

/// With nothing learnt outside the band being crossed, the whole walk is at
/// today's rate.
pub proof fn unshaped_walks_are_straight(
    percent: u8,
    state: PowerState,
    current: Quantity,
    bands: Seq<Option<Quantity>>,
    scale: Quantity,
    i: int,
)
    requires
        !is_shaped(percent, bands),
        bands.len() == BANDS,
        0 <= i < points_left(percent, state),
    ensures
        point_rate(walk_point(percent, state, i), percent, current, bands, scale) == current,
{
}

/// However far today's rate is from the learnt one, the curve is stretched by
/// no more than two, either way.
pub proof fn curves_are_stretched_within_bounds(
    percent: u8,
    current: Quantity,
    bands: Seq<Option<Quantity>>,
)
    requires
        anchor(percent, bands) matches Some(learned) ==> quotient(current, learned).is_number(),
    ensures
        (Quantity { bits: HALF_BITS }).at_most(scale_of(percent, current, bands)),
        scale_of(percent, current, bands).at_most(Quantity { bits: TWO_BITS }),
{
}

/// Where the learnt rate of the band being crossed is today's rate, the
/// learnt curve is taken as it is.
pub proof fn familiar_rates_leave_the_curve(
    percent: u8,
    current: Quantity,
    bands: Seq<Option<Quantity>>,
)
    requires
        crate::binary::is_finite(current),
        current.magnitude() > 0,
        bands[crate::sample::band_of(percent) as int] == Some(current),
    ensures
        scale_of(percent, current, bands) == (Quantity { bits: ONE_BITS }),
{
    crate::binary::parts_of_itself_are_one(current);
}

// What the current rate is made of.

/// Whether the instant reading gives a rate.
pub open spec fn gives_rate(instant_minutes: Option<u32>) -> bool {
    instant_minutes matches Some(m) && m > 0
}

/// The rate at which `points` percent take `minutes`, percent per hour.
pub open spec fn rate_for(points: nat, minutes: u32) -> Quantity {
    quotient(whole(points), quotient(whole(minutes as nat), whole(60)))
}

/// How much the observed rate weighs against the instant one, by the minutes
/// it was observed over.
pub open spec fn trust(minutes: u32) -> Quantity {
    lesser(
        quotient(whole(minutes as nat), whole(FULL_TRUST_MINUTES as nat)),
        Quantity { bits: ONE_BITS },
    )
}

/// Today's rate: what was observed, blended with the instant reading.
pub open spec fn current_rate(
    points: nat,
    observed: Option<(Quantity, u32)>,
    instant_minutes: Option<u32>,
) -> Option<Quantity> {
    match observed {
        Some((rate, minutes)) => if gives_rate(instant_minutes) {
            Some(
                sum(
                    product(trust(minutes), rate),
                    product(
                        difference(Quantity { bits: ONE_BITS }, trust(minutes)),
                        rate_for(points, instant_minutes->0),
                    ),
                ),
            )
        } else {
            Some(rate)
        },
        None => if gives_rate(instant_minutes) {
            Some(rate_for(points, instant_minutes->0))
        } else {
            None
        },
    }
}

/// Today's rate. The longer a session was observed, the more the observed
/// rate weighs; after twenty minutes it weighs everything.
fn blend(points: u8, observed: Option<(Quantity, u32)>, instant_minutes: Option<u32>) -> (r: Option<
    Quantity,
>)
    ensures
        r == current_rate(points as nat, observed, instant_minutes),
{
    let instant = match instant_minutes {
        Some(m) => if m > 0 {
            Some(
                Quantity::of(points as u64).over(Quantity::of(m as u64).over(Quantity::of(60))),
            )
        } else {
            None
        },
        None => None,
    };
    match (observed, instant) {
        (Some((rate, minutes)), Some(instant)) => {
            let trusted = Quantity::of(minutes as u64).over(
                Quantity::of(FULL_TRUST_MINUTES as u64),
            ).min(Quantity { bits: ONE_BITS });
            let doubted = Quantity { bits: ONE_BITS }.minus(trusted);
            Some(trusted.times(rate).plus(doubted.times(instant)))
        },
        (Some((rate, _)), None) => Some(rate),
        (None, instant) => instant,
    }
}

// The estimate.

/// Whether the curve is shaped: a band other than the one being crossed has
/// been learnt.
pub open spec fn is_shaped(percent: u8, bands: Seq<Option<Quantity>>) -> bool {
    exists|b: int|
        0 <= b < BANDS && b != crate::sample::band_of(percent) && (#[trigger] bands[b]) is Some
}

/// Whether the curve is shaped. The current band's own history says nothing
/// the observed rate does not.
pub fn shaped(percent: u8, bands: &[Option<Quantity>; 10]) -> (r: bool)
    ensures
        r == is_shaped(percent, bands@),
{
    let here = band(percent);
    let mut i: usize = 0;
    while i < BANDS
        invariant
            i <= BANDS,
            here == crate::sample::band_of(percent),
            forall|b: int| 0 <= b < i && b != here ==> (#[trigger] bands@[b]) is None,
        decreases BANDS - i,
    {
        if i != here && bands[i].is_some() {
            assert(bands@[i as int] is Some);
            return true;
        }
        i += 1;
    }
    false
}

/// The whole minutes that `points` percent take at a rate.
pub open spec fn straight_minutes(points: nat, rate: Quantity) -> u32 {
    rounded_to(product(quotient(whole(points), rate), whole(60)), u32::MAX as nat) as u32
}

/// The estimate for a battery at `percent` in `state`, from what its instant
/// reading says, what was observed in the running session, and what earlier
/// sessions have taught.
pub open spec fn estimate_of(
    percent: u8,
    state: PowerState,
    instant_minutes: Option<u32>,
    observed: Option<(Quantity, u32)>,
    bands: Seq<Option<Quantity>>,
) -> Estimate {
    let points = points_left(percent, state);
    if state == PowerState::PluggedIn {
        Estimate::nothing(state)
    } else {
        match current_rate(points, observed, instant_minutes) {
            None => Estimate { instant_minutes, ..Estimate::nothing(state) },
            Some(current) => {
                let curved = is_shaped(percent, bands);
                Estimate {
                    state,
                    minutes: if curved {
                        walk_minutes(percent, state, current, bands)
                    } else {
                        Some(straight_minutes(points, current))
                    },
                    instant_minutes,
                    rate_pct_hr: Some(current),
                    observed_pct_hr: match observed {
                        Some((rate, _)) => Some(rate),
                        None => None,
                    },
                    observed_minutes: match observed {
                        Some((_, minutes)) => minutes,
                        None => 0,
                    },
                    basis: if curved {
                        Basis::Learned
                    } else if observed is Some {
                        Basis::Observed
                    } else {
                        Basis::Instant
                    },
                }
            },
        }
    }
}

/// The estimate that the observations of one moment make.
pub fn estimate_from(
    percent: u8,
    state: PowerState,
    instant_minutes: Option<u32>,
    observed: Option<(Quantity, u32)>,
    bands: &[Option<Quantity>; 10],
) -> (r: Estimate)
    ensures
        r == estimate_of(percent, state, instant_minutes, observed, bands@),
{
    if state == PowerState::PluggedIn {
        return Estimate::idle(state);
    }
    let points = remaining_points(percent, state);
    let current = match blend(points, observed, instant_minutes) {
        Some(rate) => rate,
        None => {
            return Estimate { instant_minutes, ..Estimate::idle(state) };
        },
    };
    let (observed_pct_hr, observed_minutes, basis) = match observed {
        Some((rate, minutes)) => (Some(rate), minutes, Basis::Observed),
        None => (None, 0, Basis::Instant),
    };
    let (minutes, basis) = if shaped(percent, bands) {
        (walk(percent, state, current, bands), Basis::Learned)
    } else {
        let straight = Quantity::of(points as u64).over(current).times(Quantity::of(60)).round(
            u32::MAX,
        );
        (Some(straight), basis)
    };
    Estimate {
        state,
        minutes,
        instant_minutes,
        rate_pct_hr: Some(current),
        observed_pct_hr,
        observed_minutes,
        basis,
    }
}

/// Plugged in there is no countdown, whatever was seen before.
pub proof fn plugged_in_never_counts_down(
    percent: u8,
    instant_minutes: Option<u32>,
    observed: Option<(Quantity, u32)>,
    bands: Seq<Option<Quantity>>,
)
    ensures
        estimate_of(percent, PowerState::PluggedIn, instant_minutes, observed, bands)
            == Estimate::nothing(PowerState::PluggedIn),
{
}

/// A countdown needs a rate: without an observation and without an instant
/// reading there is none, and its basis always names something that is there.
pub proof fn countdowns_rest_on_something(
    percent: u8,
    state: PowerState,
    instant_minutes: Option<u32>,
    observed: Option<(Quantity, u32)>,
    bands: Seq<Option<Quantity>>,
)
    ensures
        ({
            let e = estimate_of(percent, state, instant_minutes, observed, bands);
            &&& e.state == state
            &&& e.minutes is Some ==> observed is Some || gives_rate(e.instant_minutes)
            &&& e.minutes is Some ==> e.rate_pct_hr is Some
            &&& e.basis == Basis::Observed ==> observed is Some
            &&& e.basis == Basis::Learned ==> is_shaped(percent, bands)
            &&& e.observed_pct_hr is Some ==> observed is Some
        }),
{
}

/// Off the adapter, an estimate shows today's rate: the observed one where
/// there is no instant reading, the instant one where nothing was observed.
/// Unless the curve is shaped, its minutes are the points left over that rate.
pub proof fn estimates_show_todays_rate(
    percent: u8,
    state: PowerState,
    instant_minutes: Option<u32>,
    observed: Option<(Quantity, u32)>,
    bands: Seq<Option<Quantity>>,
)
    requires
        state != PowerState::PluggedIn,
    ensures
        ({
            let points = points_left(percent, state);
            let e = estimate_of(percent, state, instant_minutes, observed, bands);
            &&& e.rate_pct_hr == current_rate(points, observed, instant_minutes)
            &&& observed is Some && !gives_rate(instant_minutes) ==> e.rate_pct_hr == Some(
                (observed->0).0,
            )
            &&& observed is None && gives_rate(instant_minutes) ==> e.rate_pct_hr == Some(
                rate_for(points, instant_minutes->0),
            )
            &&& e.basis != Basis::Learned && e.rate_pct_hr is Some ==> e.minutes == Some(
                straight_minutes(points, e.rate_pct_hr->0),
            )
        }),
{
}

/// With nothing observed and nothing learnt, the estimate is the instant
/// reading, to the minute.
pub proof fn the_instant_reading_stands_alone(
    percent: u8,
    state: PowerState,
    minutes: u32,
    bands: Seq<Option<Quantity>>,
)
    requires
        state != PowerState::PluggedIn,
        minutes > 0,
        points_left(percent, state) > 0,
        !is_shaped(percent, bands),
    ensures
        ({
            let e = estimate_of(percent, state, Some(minutes), None, bands);
            &&& e.minutes == Some(minutes)
            &&& e.instant_minutes == Some(minutes)
            &&& e.observed_pct_hr is None
            &&& e.basis == Basis::Instant
        }),
{
    crate::precision::minutes_survive_the_rate(points_left(percent, state), minutes as nat);
}

/// Up to 255 percent in at least a minute is a finite rate.
pub proof fn instant_rates_are_finite(points: nat, minutes: u32)
    requires
        points <= 255,
        minutes > 0,
    ensures
        crate::binary::is_finite(rate_for(points, minutes)),
{
    small_wholes_are_exact(points);
    let minutes = minutes as nat;
    small_wholes_are_exact(minutes);
    small_wholes_are_exact(60);
    let one = one_in_units();
    vstd::arithmetic::power2::lemma_pow2_pos(crate::binary::UNIT_POWER as nat);
    vstd::arithmetic::power2::lemma2_to64();
    vstd::arithmetic::power2::lemma2_to64_rest();
    // A minute is at least a sixty-fourth of an hour.
    let sixtieth = (1016 * SPAN + SPAN) as nat;
    put_together(SPAN as nat, 1016);
    assert(sixtieth == 1016 * SPAN as nat + SPAN as nat);
    vstd::arithmetic::power2::lemma_pow2_adds(52, 1016);
    vstd::arithmetic::power2::lemma_pow2_adds(6, 1068);
    let least = pow2(1068);
    assert(units(sixtieth) == least);
    assert(one == 64 * least);
    let q = 60 * one;
    let p = (minutes * one) * one;
    assert(q > 0);
    exact_values_stay(sixtieth, q);
    nearest_exists(p, q);
    assert(least * q <= p) by (nonlinear_arith)
        requires
            q == 60 * one,
            one == 64 * least,
            p == (minutes * one) * one,
            minutes >= 1,
    {
        assert(p >= one * one);
        assert(least * q == 60 * (least * one));
        assert(one * one == 64 * (least * one));
    }
    let hours = nearest(p, q);
    nearest_keeps_order(least * q, p, q, sixtieth, hours);
    let d = quotient(whole(minutes), whole(60));
    // It is not too long either.
    let ceiling = (1074 * SPAN + SPAN) as nat;
    put_together(SPAN as nat, 1074);
    assert(ceiling == 1074 * SPAN as nat + SPAN as nat);
    assert(units(ceiling) == SPAN * one);
    exact_values_stay(ceiling, q);
    larger_factors_make_more(minutes, (SPAN * 60) as nat, one * one);
    assert(p <= units(ceiling) * q) by (nonlinear_arith)
        requires
            q == 60 * one,
            p == (minutes * one) * one,
            minutes * (one * one) <= (SPAN * 60) * (one * one),
            units(ceiling) == SPAN * one,
    {
        assert(p == minutes * (one * one));
        assert(units(ceiling) * q == (SPAN * 60) * (one * one));
        assert(minutes * (one * one) <= (SPAN * 60) * (one * one));
    }
    nearest_keeps_order(p, units(ceiling) * q, q, hours, ceiling);
    assert(d == with_sign(false, hours));
    let size_d = units(hours);
    if sixtieth < hours {
        magnitudes_grow(sixtieth, hours);
    }
    assert(size_d >= least);
    vstd::arithmetic::power2::lemma_pow2_pos(1068);
    // So the rate is at most 255 times 64.
    let r = (points * one) * one;
    nearest_exists(r, size_d);
    exact_values_stay(ceiling, size_d);
    larger_factors_make_more(points * 64, 255 * 64, one * least);
    larger_factors_make_more(255 * 64, SPAN as nat, one * least);
    assert(r <= units(ceiling) * size_d) by (nonlinear_arith)
        requires
            r == (points * one) * one,
            (points * 64) * (one * least) <= SPAN * (one * least),
            units(ceiling) == SPAN * one,
            size_d >= least,
            one == 64 * least,
    {
        assert(r == points * (one * one));
        assert(one * one == 64 * (one * least));
        assert(points * (one * one) == (points * 64) * (one * least));
        assert(units(ceiling) * size_d >= (SPAN * one) * least);
        assert((SPAN * one) * least == SPAN * (one * least));
    }
    nearest_keeps_order(r, units(ceiling) * size_d, size_d, nearest(r, size_d), ceiling);
}

/// Trust in what was observed only grows with the time it was observed over,
/// and is never more than full.
pub proof fn trust_grows(a: u32, b: u32)
    requires
        a <= b,
    ensures
        trust(a).at_most(trust(b)),
        trust(b).at_most(Quantity { bits: ONE_BITS }),
{
    let full = whole(FULL_TRUST_MINUTES as nat);
    small_wholes_are_exact(a as nat);
    small_wholes_are_exact(b as nat);
    small_wholes_are_exact(FULL_TRUST_MINUTES as nat);
    crate::binary::wholes_keep_order(a as nat, b as nat);
    crate::binary::parts_keep_order(whole(a as nat), whole(b as nat), full);
}

/// From twenty minutes of observation on, trust is full.
pub proof fn trust_becomes_full(minutes: u32)
    requires
        minutes >= FULL_TRUST_MINUTES,
    ensures
        trust(minutes) == (Quantity { bits: ONE_BITS }),
{
    let full = FULL_TRUST_MINUTES as nat;
    crate::binary::small_wholes_are_exact(minutes as nat);
    crate::binary::small_wholes_are_exact(full);
    crate::binary::wholes_keep_order(full, minutes as nat);
    crate::binary::large_parts_exceed_one(whole(minutes as nat), whole(full));
}

/// From twenty minutes of observation on, the observed rate outweighs the
/// instant reading entirely.
pub proof fn full_trust_ignores_the_instant_reading(
    points: nat,
    rate: Quantity,
    minutes: u32,
    instant_minutes: Option<u32>,
)
    requires
        points <= 255,
        minutes >= FULL_TRUST_MINUTES,
        crate::binary::is_finite(rate),
        rate.magnitude() > 0,
    ensures
        current_rate(points, Some((rate, minutes)), instant_minutes) == Some(rate),
{
    if gives_rate(instant_minutes) {
        let one = Quantity { bits: ONE_BITS };
        let instant = rate_for(points, instant_minutes->0);
        trust_becomes_full(minutes);
        crate::binary::one_keeps(rate);
        crate::binary::nothing_is_left(one);
        instant_rates_are_finite(points, instant_minutes->0);
        let rest = difference(one, trust(minutes));
        crate::binary::zero_takes_all(rest, instant);
        crate::binary::adding_zero_keeps(rate, product(rest, instant));
    }
}

} // verus!
