//! One moment of the battery, and what two of them say of the charge.

use crate::power::PowerState;
use crate::quantity::Quantity;
use vstd::prelude::*;

verus! {

use crate::binary::{difference, product, quotient, whole};

/// Charge is split into ten bands: band 0 is 0-9%, band 9 is 90-100%.
pub const BANDS: usize = 10;

/// One moment of the battery.
#[derive(Clone, Copy, Debug, PartialEq, Eq, Structural)]
pub struct Sample {
    /// Unix seconds.
    pub t: u64,
    pub percent: u8,
    pub energy_wh: Quantity,
    pub energy_full_wh: Quantity,
    pub power_w: Quantity,
    pub state: PowerState,
    /// Minutes to empty or to full the model predicted at this moment.
    pub predicted_min: Option<u32>,
    /// The same, from the instant power reading alone.
    pub instant_min: Option<u32>,
}

/// Whether two samples are the same reading of the battery, whatever was
/// predicted from it.
pub open spec fn same_reading(a: Sample, b: Sample) -> bool {
    a == (Sample { predicted_min: a.predicted_min, instant_min: a.instant_min, ..b })
}

/// The seconds from one moment to another, none if it lies before.
pub open spec fn elapsed(from: u64, to: u64) -> nat {
    if to > from {
        (to - from) as nat
    } else {
        0
    }
}

/// The band that a percentage lies in.
pub open spec fn band_of(percent: u8) -> nat {
    if percent as nat / 10 < BANDS - 1 {
        percent as nat / 10
    } else {
        (BANDS - 1) as nat
    }
}

/// The band that a percentage lies in.
pub fn band(percent: u8) -> (r: usize)
    ensures
        r == band_of(percent),
        r < BANDS,
{
    let tens: usize = percent as usize / 10;
    if tens < BANDS - 1 {
        tens
    } else {
        BANDS - 1
    }
}

impl Sample {
    /// Where the charge stands, in percent, as precisely as the kernel
    /// allows.
    pub open spec fn charge(self) -> Quantity {
        if (Quantity { bits: 0 }).less(self.energy_full_wh) && (Quantity { bits: 0 }).less(
            self.energy_wh,
        ) {
            product(quotient(self.energy_wh, self.energy_full_wh), whole(100))
        } else {
            whole(self.percent as nat)
        }
    }

    /// Where the charge stands, as precisely as the kernel allows: the
    /// energy counter has micro-watt-hour resolution, the percent one point.
    pub fn level(&self) -> (r: Quantity)
        ensures
            r == self.charge(),
    {
        if Quantity::zero().is_less(self.energy_full_wh) && Quantity::zero().is_less(
            self.energy_wh,
        ) {
            self.energy_wh.over(self.energy_full_wh).times(Quantity::of(100))
        } else {
            Quantity::of(self.percent as u64)
        }
    }

    /// The band that this sample lies in.
    pub fn band(&self) -> (r: usize)
        ensures
            r == band_of(self.percent),
            r < BANDS,
    {
        band(self.percent)
    }
}

/// Charge progress between two samples of one session, in the direction of
/// that session's state: percent drained on battery, percent gained while
/// charging.
pub open spec fn progressed(from: Sample, to: Sample) -> Quantity {
    if from.state == PowerState::Charging {
        difference(to.charge(), from.charge())
    } else {
        difference(from.charge(), to.charge())
    }
}

/// Charge progress between two samples of one session. Negative means the
/// charge moved the wrong way.
pub fn progress(from: &Sample, to: &Sample) -> (r: Quantity)
    ensures
        r == progressed(*from, *to),
{
    match from.state {
        PowerState::Charging => to.level().minus(from.level()),
        _ => from.level().minus(to.level()),
    }
}

/// Progress is negative exactly when the charge moved the wrong way: up on
/// battery, down while charging.
pub proof fn progress_has_a_direction(from: Sample, to: Sample)
    requires
        crate::binary::is_finite(from.charge()),
        crate::binary::is_finite(to.charge()),
    ensures
        progressed(from, to).less(Quantity { bits: 0 }) <==> if from.state == PowerState::Charging {
            to.charge().less(from.charge())
        } else {
            from.charge().less(to.charge())
        },
{
    if from.state == PowerState::Charging {
        crate::binary::differences_have_the_sign(to.charge(), from.charge());
    } else {
        crate::binary::differences_have_the_sign(from.charge(), to.charge());
    }
}

/// The seconds between two samples.
pub fn seconds_between(from: &Sample, to: &Sample) -> (r: u64)
    ensures
        r == elapsed(from.t, to.t),
{
    to.t.saturating_sub(from.t)
}

/// The hours between two samples.
pub open spec fn hours(from: Sample, to: Sample) -> Quantity {
    quotient(whole(elapsed(from.t, to.t)), whole(3600))
}

/// The hours between two samples.
pub fn hours_between(from: &Sample, to: &Sample) -> (r: Quantity)
    ensures
        r == hours(*from, *to),
{
    Quantity::of(seconds_between(from, to)).over(Quantity::of(3600))
}

} // verus!
