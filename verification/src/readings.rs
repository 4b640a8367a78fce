//! What a reading of the battery comes to, as fractions of what was read.

use crate::measures::{abouts_add_up, abouts_cancel, abouts_scale, abouts_widen};
use crate::measures::{products_measure, quotients_measure, roundings_measure};
use crate::measures::wholes_measure;
use crate::power::{BatteryInfo, PowerState};
use crate::quantity::Quantity;
use crate::sample::Sample;
use crate::supply::SupplyFiles;
use vstd::arithmetic::power2::pow2;
use vstd::prelude::*;

verus! {

use crate::binary::{
    difference, is_finite, nearest, nearest_exists, one_in_units, order_is_that_of_values, product,
    quotient, size, small_wholes_are_exact, units, value, whole,
};
use crate::files::file_number;
use crate::measures::{about, rounds_about, spans};
use crate::precision::power_units;
use crate::supply::says;

/// Whether a quantity is one that is measured: above zero, and neither tiny
/// nor vast.
pub open spec fn is_measured(a: Quantity) -> bool {
    spans(a, 200)
}

/// So many times a quotient is that fraction, up to rounding.
pub(crate) proof fn scaled_parts_measure(a: Quantity, b: Quantity, w: nat, j: nat, k: nat)
    requires
        spans(a, j),
        spans(b, k),
        j + k <= 800,
        0 < w <= 1000,
    ensures
        spans(product(quotient(a, b), whole(w)), j + k + 53),
        about(
            (size(product(quotient(a, b), whole(w))) * size(b)) as int,
            ((w * size(a)) * one_in_units()) as int,
            5,
        ),
        size(b) > 0,
{
    let one = one_in_units() as int;
    quotients_measure(a, b, j, k);
    wholes_measure(w);
    let q = quotient(a, b);
    products_measure(q, whole(w), j + k, 53);
    let z = product(q, whole(w));
    let (x, y, s, t) = (size(a) as int, size(b) as int, size(q) as int, size(z) as int);
    small_wholes_are_exact(w);
    assert(s * (w * one) == (w * s) * one) by (nonlinear_arith);
    abouts_cancel(t, w * s, one, 2);
    abouts_scale(t, w * s, y, 2);
    abouts_scale(s * y, x * one, w as int, 2);
    assert((w * s) * y == (s * y) * w) by (nonlinear_arith);
    assert((x * one) * w == (w * x) * one) by (nonlinear_arith);
    assert(t * y >= 0 && (w * x) * one >= 0) by (nonlinear_arith)
        requires
            t >= 0,
            y >= 0,
            w >= 0,
            x >= 0,
            one >= 0,
    ;
    abouts_add_up(t * y, (w * s) * y, (w * x) * one, 2, 2);
}

/// The difference of two measured quantities is the exact one, up to
/// rounding.
pub(crate) proof fn gaps_measure(a: Quantity, b: Quantity)
    requires
        is_measured(a),
        is_measured(b),
        size(b) < size(a),
    ensures
        spans(difference(a, b), 260),
        about(size(difference(a, b)) as int, size(a) - size(b), 2),
{
    let exact = (size(a) - size(b)) as nat;
    let d = difference(a, b);
    assert(value(crate::binary::negated(b)) == -size(b));
    let mag = nearest(exact, 1);
    nearest_exists(exact, 1);
    crate::multiples::magnitudes_are_multiples(a.magnitude() as nat, 822);
    crate::multiples::magnitudes_are_multiples(b.magnitude() as nat, 822);
    crate::multiples::sums_are_multiples(a, crate::binary::negated(b), 822);
    crate::margin::rounding_adds_little(exact, 1, mag);
    // No larger than what it was taken from.
    crate::binary::values_stay(a.magnitude() as nat);
    crate::binary::nearest_keeps_order(exact, size(a), 1, mag, a.magnitude() as nat);
    if mag < a.magnitude() as nat {
        crate::binary::magnitudes_grow(mag, a.magnitude() as nat);
    }
    crate::margin::rounding_takes_little(exact, 1, mag);
    crate::margin::margins_widen(exact as int, units(mag) as int, 1, 2);
    crate::binary::values_stay(1);
    crate::binary::nearest_keeps_order(1, exact, 1, 1, mag);
    crate::binary::only_zeros_have_no_size(d);
    crate::multiples::multiples_are_large(size(d), 822);
    crate::measures::powers_rise(-260, -252);
    crate::measures::powers_rise(200, 260);
    assert(power_units(-252) == pow2(822));
}

/// The instant minutes of a battery that drains are sixty times its energy
/// over its power, and those of one that fills sixty times what it lacks over
/// its power.
pub proof fn instant_minutes_are_energy_over_power(b: BatteryInfo, m: u32)
    requires
        b.instant() == Some(m),
        is_measured(b.power_watts),
        is_measured(b.energy_now_wh),
        is_measured(b.energy_full_wh),
    ensures
        b.power_state() == PowerState::OnBattery ==> rounds_about(
            m as nat,
            0xffff_ffff,
            60 * size(b.energy_now_wh),
            size(b.power_watts),
            8,
        ),
        b.power_state() == PowerState::Charging ==> size(b.energy_now_wh) < size(b.energy_full_wh)
            && rounds_about(
            m as nat,
            0xffff_ffff,
            (60 * (size(b.energy_full_wh) - size(b.energy_now_wh))) as nat,
            size(b.power_watts),
            8,
        ),
        b.power_state() != PowerState::PluggedIn,
{
    let one = one_in_units() as int;
    let w = b.power_watts;
    if b.power_state() == PowerState::OnBattery {
        let e = b.energy_now_wh;
        scaled_parts_measure(e, w, 60, 200, 200);
        let z = product(quotient(e, w), whole(60));
        abouts_widen((size(z) * size(w)) as int, ((60 * size(e)) * one_in_units()) as int, 5, 8);
        roundings_measure(z, u32::MAX as nat, 60 * size(e), size(w), 8);
    } else {
        order_is_that_of_values(b.energy_now_wh, b.energy_full_wh);
        let e = difference(b.energy_full_wh, b.energy_now_wh);
        let gap = size(b.energy_full_wh) - size(b.energy_now_wh);
        gaps_measure(b.energy_full_wh, b.energy_now_wh);
        scaled_parts_measure(e, w, 60, 260, 200);
        let z = product(quotient(e, w), whole(60));
        abouts_scale(size(e) as int, gap, 60 * one, 2);
        assert(size(e) * (60 * one) == (60 * size(e)) * one) by (nonlinear_arith);
        assert(gap * (60 * one) == (60 * gap) * one) by (nonlinear_arith);
        assert((60 * gap) * one >= 0) by (nonlinear_arith)
            requires
                gap >= 0,
                one >= 0,
        ;
        assert(size(z) * size(w) >= 0);
        abouts_add_up(
            (size(z) * size(w)) as int,
            (60 * size(e)) * one,
            (60 * gap) * one,
            5,
            2,
        );
        roundings_measure(z, u32::MAX as nat, (60 * gap) as nat, size(w), 8);
    }
}

/// There are instant minutes exactly where more than a tenth of a watt flows,
/// out of a battery that is not empty or into one that is not full.
pub proof fn instant_minutes_need_a_flow(b: BatteryInfo)
    requires
        b.power_watts.is_number(),
    ensures
        b.instant() is Some <==> (Quantity { bits: 0x3FB9_9999_9999_999A }).less(b.power_watts) && (
        (b.power_state() == PowerState::OnBattery && (Quantity { bits: 0 }).less(b.energy_now_wh))
            || (b.power_state() == PowerState::Charging && b.energy_now_wh.less(b.energy_full_wh))),
{
}

/// The health of a battery is its full capacity as a percentage of its design
/// capacity, at most a hundred.
pub proof fn health_is_full_over_design(b: BatteryInfo)
    requires
        is_measured(b.energy_full_wh),
        is_measured(b.energy_design_wh),
    ensures
        rounds_about(
            b.health(),
            100,
            100 * size(b.energy_full_wh),
            size(b.energy_design_wh),
            5,
        ),
{
    let (f, d) = (b.energy_full_wh, b.energy_design_wh);
    scaled_parts_measure(f, d, 100, 200, 200);
    crate::binary::only_zeros_have_no_size(d);
    let z = product(quotient(f, d), whole(100));
    roundings_measure(z, 100, 100 * size(f), size(d), 5);
}

/// The charge of a sample is its energy as a percentage of its full energy,
/// and its whole percentage where there is no energy to go by.
pub proof fn charge_is_energy_over_full(x: Sample)
    ensures
        is_measured(x.energy_wh) && is_measured(x.energy_full_wh) ==> about(
            (size(x.charge()) * size(x.energy_full_wh)) as int,
            ((100 * size(x.energy_wh)) * one_in_units()) as int,
            5,
        ),
        !(Quantity { bits: 0 }).less(x.energy_wh) || !(Quantity { bits: 0 }).less(x.energy_full_wh)
            ==> x.charge() == whole(x.percent as nat),
{
    if is_measured(x.energy_wh) && is_measured(x.energy_full_wh) {
        scaled_parts_measure(x.energy_wh, x.energy_full_wh, 100, 200, 200);
        crate::measures::powers_rise(-200, 200);
        crate::binary::only_zeros_have_no_size(x.energy_wh);
        crate::binary::only_zeros_have_no_size(x.energy_full_wh);
    }
}

// The kernel's millionths.

/// Whether a quantity is `n` millionths.
pub open spec fn is_millionths(q: Quantity, n: nat) -> bool {
    if n == 0 {
        size(q) == 0
    } else {
        n < 0x20_0000_0000_0000 ==> about(
            (size(q) * 1_000_000) as int,
            (n * one_in_units()) as int,
            2,
        )
    }
}

/// Whether a quantity is `n` millionths of `m` millionths, a charge times a
/// voltage.
pub open spec fn is_product_of_millionths(q: Quantity, n: nat, m: nat) -> bool {
    if n == 0 || m == 0 {
        size(q) == 0
    } else {
        n < 0x20_0000_0000_0000 && m < 0x20_0000_0000_0000 ==> about(
            (size(q) * 1_000_000_000_000) as int,
            ((n * m) * one_in_units()) as int,
            8,
        )
    }
}

proof fn millionths_measure(n: nat)
    requires
        n <= u64::MAX,
    ensures
        is_millionths(crate::supply::millionths(n), n),
        is_finite(crate::supply::millionths(n)),
        0 < n < 0x20_0000_0000_0000 ==> spans(crate::supply::millionths(n), 106),
{
    let one = one_in_units();
    let million = whole(1_000_000);
    wholes_measure(1_000_000);
    small_wholes_are_exact(1_000_000);
    if n == 0 {
        crate::binary::nothing_is_zero();
        crate::binary::parts_of_nothing_are_nothing(million);
    } else if n < 0x20_0000_0000_0000 {
        wholes_measure(n);
        quotients_measure(whole(n), million, 53, 53);
        let q = size(quotient(whole(n), million)) as int;
        let o = one as int;
        assert(q * (1_000_000 * o) == (q * 1_000_000) * o) by (nonlinear_arith);
        abouts_cancel(q * 1_000_000, n * one as int, o, 2);
    } else {
        large_millionths_are_finite(n);
    }
}

proof fn large_millionths_are_finite(n: nat)
    requires
        0 < n <= u64::MAX,
    ensures
        is_finite(crate::supply::millionths(n)),
{
    let one = one_in_units();
    vstd::arithmetic::power2::lemma2_to64();
    vstd::arithmetic::power2::lemma2_to64_rest();
    crate::precision::scaled_powers(0, 64);
    assert(power_units(0) == one);
    assert(one * 1 <= n * one <= power_units(64) * 1) by (nonlinear_arith)
        requires
            1 <= n <= 0x1_0000_0000_0000_0000,
            power_units(64) == 0x1_0000_0000_0000_0000 * one,
    ;
    let m = crate::precision::nearest_between(n * one, 1, 0, 64);
    crate::measures::powers_rise(-64, 0);
    assert(spans(whole(n), 64));
    wholes_measure(1_000_000);
    quotients_measure(whole(n), whole(1_000_000), 64, 53);
}

proof fn products_of_millionths_measure(n: nat, m: nat)
    requires
        n <= u64::MAX,
        m <= u64::MAX,
    ensures
        is_product_of_millionths(
            product(crate::supply::millionths(n), crate::supply::millionths(m)),
            n,
            m,
        ),
{
    let one = one_in_units() as int;
    small_wholes_are_exact(1);
    let (a, b) = (crate::supply::millionths(n), crate::supply::millionths(m));
    millionths_measure(n);
    millionths_measure(m);
    if n == 0 || m == 0 {
        crate::binary::only_zeros_have_no_size(a);
        crate::binary::only_zeros_have_no_size(b);
        if n == 0 {
            crate::binary::zero_takes_all(a, b);
        } else {
            crate::binary::zero_takes_all(b, a);
            crate::binary::products_commute(a, b);
        }
        crate::binary::only_zeros_have_no_size(product(a, b));
    } else if n < 0x20_0000_0000_0000 && m < 0x20_0000_0000_0000 {
        products_measure(a, b, 106, 106);
        let p = size(product(a, b)) as int;
        let (x, y) = (size(a) as int, size(b) as int);
        // Millionths times millionths.
        abouts_scale(p * one, x * y, 1_000_000_000_000, 2);
        abouts_scale(x * 1_000_000, n * one, y * 1_000_000, 2);
        abouts_scale(y * 1_000_000, m * one, n * one, 2);
        assert((x * y) * 1_000_000_000_000 == (x * 1_000_000) * (y * 1_000_000))
            by (nonlinear_arith);
        assert((n * one) * (y * 1_000_000) == (y * 1_000_000) * (n * one)) by (nonlinear_arith);
        assert((m * one) * (n * one) == (((n * m) * one) * one)) by (nonlinear_arith);
        assert((p * one) * 1_000_000_000_000 == (p * 1_000_000_000_000) * one) by (nonlinear_arith);
        let (l, r) = ((p * 1_000_000_000_000) * one, ((n * m) * one) * one);
        assert(l >= 0 && r >= 0 && (x * 1_000_000) * (y * 1_000_000) >= 0) by (nonlinear_arith)
            requires
                l == (p * 1_000_000_000_000) * one,
                r == ((n * m) * one) * one,
                p >= 0,
                one >= 0,
                x >= 0,
                y >= 0,
        ;
        abouts_add_up(
            (x * 1_000_000) * (y * 1_000_000),
            (y * 1_000_000) * (n * one),
            r,
            2,
            2,
        );
        abouts_add_up(l, (x * 1_000_000) * (y * 1_000_000), r, 2, 5);
        abouts_cancel(p * 1_000_000_000_000, (n * m) * one, one, 8);
    }
}

/// Whether an energy is what its two files and the voltage say: the energy
/// in micro-watt-hours where that is stated, else the charge in
/// micro-ampere-hours times the voltage in micro-volts.
pub open spec fn is_stated_energy(
    q: Quantity,
    energy: Option<String>,
    charge: Option<String>,
    voltage: Option<String>,
) -> bool {
    match (file_number(energy), file_number(charge), file_number(voltage)) {
        (Some(n), _, _) => is_millionths(q, n),
        (None, Some(n), Some(m)) => is_product_of_millionths(q, n, m),
        (None, _, _) => size(q) == 0,
    }
}

proof fn stated_energies_measure(
    energy: Option<String>,
    charge: Option<String>,
    voltage: Option<String>,
)
    ensures
        is_stated_energy(
            crate::supply::or_nothing(
                crate::supply::energy_value(
                    energy,
                    charge,
                    crate::supply::or_nothing(crate::supply::micro_value(voltage)),
                ),
            ),
            energy,
            charge,
            voltage,
        ),
{
    numbers_fit(energy);
    numbers_fit(charge);
    numbers_fit(voltage);
    match (file_number(energy), file_number(charge), file_number(voltage)) {
        (Some(n), _, _) => {
            millionths_measure(n);
        },
        (None, Some(n), Some(m)) => {
            products_of_millionths_measure(n, m);
        },
        (None, Some(n), None) => {
            let zero = Quantity { bits: 0 };
            let c = crate::supply::millionths(n);
            millionths_measure(n);
            crate::binary::zero_takes_all(zero, c);
            crate::binary::products_commute(zero, c);
            crate::binary::only_zeros_have_no_size(product(c, zero));
        },
        _ => {},
    }
}

proof fn numbers_fit(file: Option<String>)
    ensures
        file_number(file) matches Some(n) ==> n <= u64::MAX,
{
}

/// A battery's energies and power are what its files state: energies in
/// micro-watt-hours or as charge times voltage, power in micro-watts or as
/// current times voltage. A design capacity that is not stated is the full
/// one.
pub proof fn energies_are_as_stated(f: SupplyFiles, ac_online: Option<bool>, b: BatteryInfo)
    requires
        says(f, ac_online, b),
    ensures
        is_stated_energy(b.energy_now_wh, f.energy_now, f.charge_now, f.voltage_now),
        is_stated_energy(b.energy_full_wh, f.energy_full, f.charge_full, f.voltage_now),
        file_number(f.energy_full_design) is Some || file_number(f.charge_full_design) is Some
            ==> is_stated_energy(
            b.energy_design_wh,
            f.energy_full_design,
            f.charge_full_design,
            f.voltage_now,
        ),
        file_number(f.energy_full_design) is None && file_number(f.charge_full_design) is None
            ==> b.energy_design_wh == b.energy_full_wh,
        is_stated_energy(b.power_watts, f.power_now, f.current_now, f.voltage_now),
{
    stated_energies_measure(f.energy_now, f.charge_now, f.voltage_now);
    stated_energies_measure(f.energy_full, f.charge_full, f.voltage_now);
    stated_energies_measure(f.energy_full_design, f.charge_full_design, f.voltage_now);
    stated_energies_measure(f.power_now, f.current_now, f.voltage_now);
    numbers_fit(f.power_now);
    numbers_fit(f.current_now);
    numbers_fit(f.voltage_now);
    if let (Some(c), Some(v)) = (file_number(f.current_now), file_number(f.voltage_now)) {
        products_of_millionths_measure(c, v);
    }
}

/// The rest of a reading is what its files hold: the percentage, the tenths
/// of a degree, the cycles and the texts, with the words for those that are
/// missing.
pub proof fn readings_are_as_stated(f: SupplyFiles, ac_online: Option<bool>, b: BatteryInfo)
    requires
        says(f, ac_online, b),
    ensures
        file_number(f.capacity) matches Some(n) && (n <= 255 ==> b.percent == n),
        b.ac_online == ac_online,
        b.is_real,
        f.status matches Some(t) ==> b.status@ == crate::text::trimmed(t@),
        f.status is None ==> b.status@ == "Unknown"@,
        f.model_name matches Some(t) ==> b.battery_name@ == crate::text::trimmed(t@),
        f.model_name is None ==> b.battery_name@ == "Internal battery"@,
        b.temperature_c is Some <==> file_number(f.temp) is Some,
        file_number(f.temp) matches Some(n) ==> (0 < n < 0x20_0000_0000_0000 ==> about(
            (size(b.temperature_c->0) * 10) as int,
            (n * one_in_units()) as int,
            2,
        )),
        b.cycle_count is Some <==> file_number(f.cycle_count) is Some,
        file_number(f.cycle_count) matches Some(n) ==> (n <= u32::MAX ==> b.cycle_count == Some(
            n as u32,
        )),
{
    if let Some(n) = file_number(f.temp) {
        if 0 < n < 0x20_0000_0000_0000 {
            let one = one_in_units();
            wholes_measure(10);
            wholes_measure(n);
            quotients_measure(whole(n), whole(10), 53, 53);
            let q = size(quotient(whole(n), whole(10))) as int;
            let o = one as int;
            assert(q * (10 * o) == (q * 10) * o) by (nonlinear_arith);
            abouts_cancel(q * 10, n * one as int, o, 2);
        }
    }
}

} // verus!
