//! How long the rest of the charge takes when it is walked one percent at a
//! time.

use crate::binary::UNIT_POWER;
use crate::margin::{bounds_add_up, bounds_hold_about, margins_add_up, margins_cancel};
use crate::margin::{margins_scale, margins_widen, rounding_adds_little, rounding_takes_little};
use crate::power::PowerState;
use crate::precision::PARTS;
use crate::quantity::{Quantity, INFINITY_BITS, ONE_BITS};
use crate::sample::BANDS;
use vstd::prelude::*;

verus! {

use crate::binary::{
    exact_values_stay, is_finite, is_negative, magnitudes_grow, nearest, nearest_exists,
    nearest_keeps_order, one_in_units, one_is_one, product, quotient, rounded_to, size,
    small_wholes_are_exact, sum, units, whole,
};
use crate::estimate::{
    is_shaped, points_left, scale_of, straight_minutes, walk_hours, walk_minutes,
    walk_point,
};
use crate::margin::about_at_most;
use crate::precision::{nearest_between, power_mag, power_units, powers_are_magnitudes};
use crate::sample::band_of;

/// The same quantity, added up `n` times.
pub open spec fn repeated(g: Quantity, n: nat) -> Quantity
    decreases n,
{
    if n == 0 {
        Quantity { bits: 0 }
    } else {
        sum(repeated(g, (n - 1) as nat), g)
    }
}

/// With nothing learnt outside the band being crossed, every percent takes
/// the same time.
pub proof fn unshaped_walks_repeat(
    percent: u8,
    state: PowerState,
    current: Quantity,
    bands: Seq<Option<Quantity>>,
    n: nat,
)
    requires
        !is_shaped(percent, bands),
        bands.len() == BANDS,
        n <= points_left(percent, state),
    ensures
        walk_hours(percent, state, current, bands, n) == repeated(
            quotient(Quantity { bits: ONE_BITS }, current),
            n,
        ),
    decreases n,
{
    if n > 0 {
        unshaped_walks_repeat(percent, state, current, bands, (n - 1) as nat);
        crate::estimate::unshaped_walks_are_straight(
            percent,
            state,
            current,
            bands,
            scale_of(percent, current, bands),
            n - 1,
        );
    }
}

/// A quantity added up `n` times is `n` times the quantity, up to rounding.
proof fn repeats_are_close(g: Quantity, n: nat)
    requires
        is_finite(g),
        !is_negative(g),
        n <= 255,
    ensures
        repeated(g, n).is_number(),
        !is_negative(repeated(g, n)),
        about_at_most(size(repeated(g, n)) as int, (n * size(g)) as int, 3 * n),
        is_finite(repeated(g, n)) ==> about_at_most(
            (n * size(g)) as int,
            size(repeated(g, n)) as int,
            3 * n,
        ),
    decreases n,
{
    let s = size(g) as int;
    if n == 0 {
        assert(0 * s == 0);
        bounds_hold_about(0, 0, 0);
    } else {
        let k = (n - 1) as nat;
        repeats_are_close(g, k);
        let before = repeated(g, k);
        let all = repeated(g, n);
        let r = size(before) as int;
        let c = 3 * k;
        assert(k * s + s == n * s) by (nonlinear_arith)
            requires
                k + 1 == n,
        ;
        assert(k * s >= 0 && n * s >= 0) by (nonlinear_arith)
            requires
                s >= 0,
                k >= 0,
                n >= 0,
        ;
        if is_finite(before) {
            crate::between::sums_are_close(before, g);
            bounds_hold_about(s, s, c);
            bounds_add_up(r, k * s, s, s, c);
            margins_add_up(size(all) as int, r + s, n * s, 2, c);
            if is_finite(all) {
                bounds_add_up(k * s, r, s, s, c);
                margins_add_up(n * s, r + s, size(all) as int, c, 1);
                margins_widen(n * s, size(all) as int, c + 2, 3 * n);
            }
        } else {
            assert(all == before);
            bounds_hold_about(k * s, n * s, 0);
            margins_add_up(r, k * s, n * s, c, 0);
            margins_widen(r, n * s, c + 1, 3 * n);
        }
    }
}

/// A product with sixty that is neither tiny nor vast is close.
proof fn sixties_are_close(a: Quantity)
    requires
        is_finite(a),
        !is_negative(a),
        power_units(-950) <= size(a) <= power_units(950),
    ensures
        is_finite(product(a, whole(60))),
        !is_negative(product(a, whole(60))),
        about_at_most(size(product(a, whole(60))) as int, 60 * size(a) as int, 2),
        about_at_most(60 * size(a) as int, size(product(a, whole(60))) as int, 1),
{
    let one = one_in_units();
    small_wholes_are_exact(60);
    vstd::arithmetic::power2::lemma2_to64();
    let s = size(a);
    let p = s * (60 * one);
    let low = power_units(-950);
    let high = power_units(950);
    crate::precision::scaled_powers(950, 6);
    assert(low * one <= p) by (nonlinear_arith)
        requires
            p == s * (60 * one),
            low <= s,
    {
        assert(p == 60 * (s * one));
        assert(low * one <= s * one);
    }
    assert(p <= power_units(956) * one) by (nonlinear_arith)
        requires
            p == s * (60 * one),
            s <= high,
            power_units(956) == 64 * high,
    {
        assert(p == 60 * (s * one));
        assert(s * one <= high * one);
        assert(power_units(956) * one == 64 * (high * one));
    }
    let mag = nearest_between(p, one, -950, 956);
    nearest_exists(p, one);
    rounding_adds_little(p, one, mag);
    rounding_takes_little(p, one, mag);
    let u = units(mag) as int;
    let o = one as int;
    assert(p == (60 * s) * o) by (nonlinear_arith)
        requires
            p == s * (60 * o),
    ;
    margins_cancel(u, 60 * s as int, o, 2);
    margins_cancel(60 * s as int, u, o, 1);
}

/// Opposite powers of two make one.
proof fn opposite_powers(k: int)
    requires
        -1000 <= k <= 1000,
    ensures
        power_units(-k) * power_units(k) == one_in_units() * one_in_units(),
        power_units(k) > 0,
{
    vstd::arithmetic::power2::lemma_pow2_adds((UNIT_POWER - k) as nat, (UNIT_POWER + k) as nat);
    vstd::arithmetic::power2::lemma_pow2_adds(UNIT_POWER as nat, UNIT_POWER as nat);
    vstd::arithmetic::power2::lemma_pow2_pos((UNIT_POWER + k) as nat);
}

/// So many percent at a rate that is neither tiny nor vast.
proof fn parts_are_close(n: nat, c: Quantity)
    requires
        1 <= n <= 255,
        is_finite(c),
        !is_negative(c),
        power_units(-900) <= size(c) <= power_units(900),
    ensures
        ({
            let q = quotient(whole(n), c);
            let o = one_in_units() * one_in_units();
            &&& is_finite(q)
            &&& !is_negative(q)
            &&& power_units(-900) <= size(q) <= power_units(908)
            &&& about_at_most((size(q) * size(c)) as int, (n * o) as int, 2)
            &&& about_at_most((n * o) as int, (size(q) * size(c)) as int, 1)
        }),
{
    let one = one_in_units();
    let o = one * one;
    let s = size(c);
    small_wholes_are_exact(n);
    opposite_powers(900);
    opposite_powers(-900);
    vstd::arithmetic::power2::lemma2_to64();
    crate::precision::scaled_powers(900, 8);
    let low = power_units(-900);
    let high = power_units(900);
    assert((n * one) * one == n * o) by (nonlinear_arith)
        requires
            o == one * one,
    ;
    assert(low * s <= n * o) by (nonlinear_arith)
        requires
            s <= high,
            low * high == o,
            n >= 1,
    {
        assert(low * s <= low * high);
    }
    assert(n * o <= power_units(908) * s) by (nonlinear_arith)
        requires
            s >= low,
            low * high == o,
            n <= 255,
            power_units(908) == 256 * high,
    {
        assert(power_units(908) * s >= (256 * high) * low);
        assert((256 * high) * low == 256 * (low * high));
        assert(n * o <= 256 * o);
    }
    let mag = nearest_between(n * o, s, -900, 908);
    nearest_exists(n * o, s);
    rounding_adds_little(n * o, s, mag);
    rounding_takes_little(n * o, s, mag);
}

/// The hours of a walk at one rate, times the rate, are the points walked, up
/// to rounding.
pub proof fn unshaped_walks_take_their_time(
    percent: u8,
    state: PowerState,
    current: Quantity,
    bands: Seq<Option<Quantity>>,
)
    requires
        !is_shaped(percent, bands),
        bands.len() == BANDS,
        points_left(percent, state) > 0,
        is_finite(current),
        !is_negative(current),
        power_units(-900) <= size(current) <= power_units(900),
    ensures
        ({
            let n = points_left(percent, state);
            let hours = walk_hours(percent, state, current, bands, n);
            let exact = (n * (one_in_units() * one_in_units())) as int;
            &&& is_finite(hours)
            &&& !is_negative(hours)
            &&& power_units(-901) <= size(hours) <= power_units(910)
            &&& about_at_most((size(hours) * size(current)) as int, exact, 1000)
            &&& about_at_most(exact, (size(hours) * size(current)) as int, 1000)
        }),
{
    let one = one_in_units();
    let n = points_left(percent, state);
    unshaped_walks_repeat(percent, state, current, bands, n);
    one_is_one();
    parts_are_close(1, current);
    let g = quotient(Quantity { bits: ONE_BITS }, current);
    assert(g == quotient(whole(1), current));
    let hours = repeated(g, n);
    repeats_are_close(g, n);
    let (s, h, c) = (size(g) as int, size(hours) as int, size(current) as int);
    let o = (one * one) as int;
    let high = power_units(908) as int;
    vstd::arithmetic::power2::lemma2_to64();
    crate::precision::scaled_powers(908, 2);
    crate::precision::scaled_powers(900, 8);
    crate::precision::scaled_powers(-901, 1);
    // No more than so many times the time of one percent.
    assert(s <= high);
    powers_are_magnitudes(1000);
    crate::precision::scaled_powers(908, 64);
    crate::precision::scaled_powers(972, 28);
    vstd::arithmetic::power2::lemma2_to64_rest();
    assert(h <= 512 * s) by (nonlinear_arith)
        requires
            h * PARTS <= (n * s) * (PARTS + 3 * n),
            n <= 255,
            s >= 0,
            PARTS == 0x20_0000_0000_0000,
    {
        assert((n * s) * (PARTS + 3 * n) <= (255 * s) * (PARTS + 765));
        assert((255 * s) * (PARTS + 765) <= (512 * s) * PARTS);
    }
    if !is_finite(hours) {
        magnitudes_grow(power_mag(1000), INFINITY_BITS as nat);
        assert(hours.magnitude() == INFINITY_BITS);
    }
    // What the points come to.
    assert((1 * o) == o);
    margins_scale(h, n * s, c, 3 * n);
    margins_scale(s * c, o, n as int, 2);
    assert((n * s) * c == (s * c) * n && o * n == n * o) by (nonlinear_arith);
    assert(n * o >= 0) by (nonlinear_arith)
        requires
            o >= 0,
    ;
    assert(h * c >= 0) by (nonlinear_arith)
        requires
            h >= 0,
            c >= 0,
    ;
    assert(o >= 0);
    margins_add_up(h * c, (n * s) * c, n * o, 3 * n, 2);
    margins_widen(h * c, n * o, 3 * n + 3, 1000);
    margins_scale(n * s, h, c, 3 * n);
    margins_scale(o, s * c, n as int, 1);
    margins_add_up(n * o, (n * s) * c, h * c, 1, 3 * n);
    margins_widen(n * o, h * c, 3 * n + 2, 1000);
    // Within bounds.
    assert(h <= power_units(910)) by {
        // The exact hours are at most 255 times two to the power of 900.
        opposite_powers(900);
        let low = power_units(-900) as int;
        let top = power_units(900) as int;
        assert(h * 1 <= 512 * top) by (nonlinear_arith)
            requires
                (h * c) * PARTS <= (n * o) * (PARTS + 1000),
                c >= low,
                low > 0,
                h >= 0,
                low * top == o,
                top > 0,
                n <= 255,
                PARTS == 0x20_0000_0000_0000,
        {
            assert((h * low) * PARTS <= (h * c) * PARTS);
            assert((n * o) * (PARTS + 1000) <= (512 * o) * PARTS);
            assert(h * low <= 512 * o);
            assert(512 * o == (512 * top) * low);
        }
        crate::precision::scaled_powers(900, 10);
    }
    assert(h >= power_units(-901)) by {
        let low = power_units(-901) as int;
        assert(s >= 2 * low);
        assert(h >= low) by (nonlinear_arith)
            requires
                (n * s) * PARTS <= h * (PARTS + 3 * n),
                1 <= n <= 255,
                s >= 2 * low,
                low >= 0,
                h >= 0,
                PARTS == 0x20_0000_0000_0000,
        {
            assert((n * s) * PARTS >= (2 * low) * PARTS);
            assert(h * (PARTS + 3 * n) <= h * (2 * PARTS));
        }
    }
}

/// Times that are close come to the same whole minutes, or to neighbouring
/// ones.
proof fn close_times_round_alike(a: Quantity, b: Quantity)
    requires
        is_finite(a),
        is_finite(b),
        !is_negative(a),
        !is_negative(b),
        about_at_most(size(b) as int, size(a) as int, 2048),
    ensures
        rounded_to(b, u32::MAX as nat) <= rounded_to(a, u32::MAX as nat) + 1,
{
    let one = one_in_units();
    vstd::arithmetic::power2::lemma_pow2_pos(UNIT_POWER as nat);
    let x = size(a);
    let y = size(b);
    let m = (2 * x + one) / (2 * one);
    let k = (2 * y + one) / (2 * one);
    if m < u32::MAX {
        assert(2 * x + one < (2 * one) * (m + 1)) by (nonlinear_arith)
            requires
                m == (2 * x + one) / (2 * one),
                one > 0,
        ;
        assert(x <= 0xffff_ffff * one) by (nonlinear_arith)
            requires
                2 * x + one < (2 * one) * (m + 1),
                m + 1 <= 0xffff_ffff,
                one > 0,
        ;
        assert(y <= x + one) by (nonlinear_arith)
            requires
                y * PARTS <= x * (PARTS + 2048),
                x <= 0xffff_ffff * one,
                PARTS == 0x20_0000_0000_0000,
        ;
        assert((2 * one) * (m + 2) == (2 * one) * (m + 1) + 2 * one) by (nonlinear_arith);
        assert(k <= m + 1) by (nonlinear_arith)
            requires
                k == (2 * y + one) / (2 * one),
                2 * y + one < (2 * one) * (m + 2),
                one > 0,
        ;
    }
}

/// What is at most a power of two rounds to at most that.
pub(crate) proof fn small_values_stay_small(p: nat, q: nat, k: int)
    requires
        q > 0,
        -1000 <= k <= 1000,
        p <= power_units(k) * q,
    ensures
        nearest(p, q) < INFINITY_BITS,
        units(nearest(p, q)) <= power_units(k),
{
    let mag = nearest(p, q);
    nearest_exists(p, q);
    powers_are_magnitudes(k);
    exact_values_stay(power_mag(k), q);
    nearest_keeps_order(p, power_units(k) * q, q, mag, power_mag(k));
    if mag < power_mag(k) {
        magnitudes_grow(mag, power_mag(k));
    }
}

/// What is at least a power of two rounds to at least that.
proof fn large_values_stay_large(p: nat, q: nat, k: int)
    requires
        q > 0,
        -1000 <= k <= 1000,
        p >= power_units(k) * q,
    ensures
        power_mag(k) <= nearest(p, q) <= INFINITY_BITS,
        units(nearest(p, q)) >= power_units(k),
{
    let mag = nearest(p, q);
    nearest_exists(p, q);
    powers_are_magnitudes(k);
    exact_values_stay(power_mag(k), q);
    nearest_keeps_order(power_units(k) * q, p, q, power_mag(k), mag);
    if power_mag(k) < mag {
        magnitudes_grow(power_mag(k), mag);
    }
}

/// Next to no time is no minutes.
proof fn short_times_are_none(a: Quantity)
    requires
        is_finite(a),
        !is_negative(a),
        size(a) <= power_units(-100),
    ensures
        rounded_to(product(a, whole(60)), u32::MAX as nat) == 0,
{
    let one = one_in_units();
    small_wholes_are_exact(60);
    let s = size(a);
    let p = s * (60 * one);
    vstd::arithmetic::power2::lemma2_to64();
    vstd::arithmetic::power2::lemma2_to64_rest();
    crate::precision::scaled_powers(-100, 6);
    crate::precision::scaled_powers(-94, 64);
    crate::precision::scaled_powers(-30, 30);
    assert(p <= power_units(-94) * one) by (nonlinear_arith)
        requires
            p == s * (60 * one),
            64 * s <= power_units(-94),
    {
        assert(p == 60 * (s * one));
        assert((64 * s) * one <= power_units(-94) * one);
    }
    small_values_stay_small(p, one, -94);
    let u = units(nearest(p, one));
    assert(power_units(0) == one);
    assert(4 * u < one);
    assert((2 * u + one) / (2 * one) == 0) by (nonlinear_arith)
        requires
            4 * u < one,
    ;
}

/// A very long time is the most minutes there are.
proof fn long_times_are_the_most(a: Quantity)
    requires
        a.is_number(),
        !is_negative(a),
        size(a) >= power_units(100),
    ensures
        rounded_to(product(a, whole(60)), u32::MAX as nat) == u32::MAX,
{
    let one = one_in_units();
    small_wholes_are_exact(60);
    if is_finite(a) {
        let s = size(a);
        let p = s * (60 * one);
        vstd::arithmetic::power2::lemma2_to64();
        vstd::arithmetic::power2::lemma2_to64_rest();
        crate::precision::scaled_powers(0, 64);
        crate::precision::scaled_powers(64, 36);
        assert(p >= power_units(100) * one) by (nonlinear_arith)
            requires
                p == s * (60 * one),
                s >= power_units(100),
        {
            assert(p == 60 * (s * one));
            assert(s * one >= power_units(100) * one);
        }
        large_values_stay_large(p, one, 100);
        let u = units(nearest(p, one));
        assert(power_units(0) == one);
        assert(u >= 0x1_0000_0000 * one);
        assert((2 * u + one) / (2 * one) >= 0xffff_ffff) by (nonlinear_arith)
            requires
                u >= 0x1_0000_0000 * one,
                one > 0,
        ;
    } else {
        vstd::arithmetic::power2::lemma_pow2_pos(UNIT_POWER as nat);
        vstd::arithmetic::power2::lemma_pow2_pos((UNIT_POWER + 100) as nat);
    }
}

/// What is added up is no less than any of its terms.
proof fn repeats_grow(g: Quantity, n: nat)
    requires
        g.is_number(),
        !is_negative(g),
        n > 0,
    ensures
        repeated(g, n).is_number(),
        !is_negative(repeated(g, n)),
        repeated(g, n).magnitude() >= g.magnitude(),
    decreases n,
{
    let before = repeated(g, (n - 1) as nat);
    if n > 1 {
        repeats_grow(g, (n - 1) as nat);
    }
    if is_finite(before) && is_finite(g) {
        let exact = size(before) + size(g);
        nearest_exists(exact, 1);
        crate::binary::values_stay(g.magnitude() as nat);
        nearest_keeps_order(size(g), exact, 1, g.magnitude() as nat, nearest(exact, 1));
        if exact == 0 {
            crate::binary::only_zeros_have_no_size(g);
        }
    }
}

/// With nothing learnt outside the band being crossed, the walk takes the
/// points over the rate, rounded to the same minute or a neighbouring one.
pub proof fn unshaped_walks_are_as_long(
    percent: u8,
    state: PowerState,
    current: Quantity,
    bands: Seq<Option<Quantity>>,
)
    requires
        !is_shaped(percent, bands),
        bands.len() == BANDS,
        is_finite(current),
        (Quantity { bits: 0 }).less(current),
    ensures
        ({
            let straight = straight_minutes(points_left(percent, state), current);
            let walked = walk_minutes(percent, state, current, bands);
            walked matches Some(m) && -1 <= m - straight <= 1
        }),
{
    let one = one_in_units();
    let o = one * one;
    let n = points_left(percent, state);
    let hours = walk_hours(percent, state, current, bands, n);
    let straight = quotient(whole(n), current);
    let c = size(current);
    crate::binary::only_zeros_have_no_size(current);
    small_wholes_are_exact(n);
    one_is_one();
    vstd::arithmetic::power2::lemma2_to64();
    vstd::arithmetic::power2::lemma2_to64_rest();
    unshaped_walks_repeat(percent, state, current, bands, n);
    let g = quotient(Quantity { bits: ONE_BITS }, current);
    assert((n * one) * one == n * o) by (nonlinear_arith)
        requires
            o == one * one,
    ;
    opposite_powers(900);
    opposite_powers(-900);
    let low = power_units(-900);
    let high = power_units(900);
    assert(low * high == o && high * low == o);
    if n == 0 {
        crate::binary::nothing_is_zero();
        crate::binary::parts_of_nothing_are_nothing(current);
    } else if c > high {
        crate::precision::scaled_powers(-900, 8);
        crate::precision::scaled_powers(-892, 1);
        crate::precision::scaled_powers(-891, 791);
        vstd::arithmetic::power2::lemma_pow2_pos(791);
        let less = power_units(-892);
        assert(1 * o <= low * c && n * o <= less * c) by (nonlinear_arith)
            requires
                c >= high,
                low * high == o,
                less == 256 * low,
                n <= 255,
        {
            assert(low * c >= low * high);
            assert(less * c >= (256 * low) * high);
            assert((256 * low) * high == 256 * (low * high));
            assert(n * o <= 256 * o);
        }
        small_values_stay_small(o, c, -900);
        small_values_stay_small(n * o, c, -892);
        let tenth = power_units(-891);
        assert(tenth <= power_units(-100)) by (nonlinear_arith)
            requires
                power_units(-100) == vstd::arithmetic::power2::pow2(791) * tenth,
                vstd::arithmetic::power2::pow2(791) >= 1,
        ;
        short_times_are_none(straight);
        repeats_are_close(g, n);
        let s = size(g) as int;
        let h = size(hours) as int;
        assert(h <= 512 * s) by (nonlinear_arith)
            requires
                h * PARTS <= (n * s) * (PARTS + 3 * n),
                n <= 255,
                s >= 0,
                PARTS == 0x20_0000_0000_0000,
        {
            assert((n * s) * (PARTS + 3 * n) <= (255 * s) * (PARTS + 765));
            assert((255 * s) * (PARTS + 765) <= (512 * s) * PARTS);
        }
        if !is_finite(hours) {
            powers_are_magnitudes(-100);
            magnitudes_grow(power_mag(-100), INFINITY_BITS as nat);
        }
        short_times_are_none(hours);
    } else if c < low {
        assert(high * c <= 1 * o && high * c <= n * o) by (nonlinear_arith)
            requires
                c <= low,
                high * low == o,
                n >= 1,
        {
            assert(high * c <= high * low);
            assert(n * o >= o);
        }
        large_values_stay_large(o, c, 900);
        large_values_stay_large(n * o, c, 900);
        repeats_grow(g, n);
        powers_are_magnitudes(900);
        let m = hours.magnitude() as nat;
        if power_mag(900) < m {
            magnitudes_grow(power_mag(900), m);
        }
        crate::precision::scaled_powers(100, 800);
        vstd::arithmetic::power2::lemma_pow2_pos(800);
        assert(power_units(100) <= high) by (nonlinear_arith)
            requires
                high == vstd::arithmetic::power2::pow2(800) * power_units(100),
                vstd::arithmetic::power2::pow2(800) >= 1,
        ;
        long_times_are_the_most(hours);
        long_times_are_the_most(straight);
    } else {
        unshaped_walks_take_their_time(percent, state, current, bands);
        parts_are_close(n, current);
        middling_times_are_alike(hours, straight, c, n * o);
    }
}

/// Two times that come to about the same at one rate come to the same
/// minutes, or to neighbouring ones.
proof fn middling_times_are_alike(a: Quantity, b: Quantity, c: nat, exact: nat)
    requires
        is_finite(a),
        is_finite(b),
        !is_negative(a),
        !is_negative(b),
        power_units(-901) <= size(a) <= power_units(910),
        power_units(-900) <= size(b) <= power_units(908),
        c > 0,
        about_at_most((size(a) * c) as int, exact as int, 1000),
        about_at_most(exact as int, (size(a) * c) as int, 1000),
        about_at_most((size(b) * c) as int, exact as int, 2),
        about_at_most(exact as int, (size(b) * c) as int, 1),
    ensures
        ({
            let x = rounded_to(product(a, whole(60)), u32::MAX as nat);
            let y = rounded_to(product(b, whole(60)), u32::MAX as nat);
            -1 <= x - y <= 1
        }),
{
    vstd::arithmetic::power2::lemma2_to64();
    powers_grow(-950, -901);
    powers_grow(-901, -900);
    powers_grow(908, 910);
    powers_grow(910, 950);
    sixties_are_close(a);
    sixties_are_close(b);
    let (s, t) = (size(a) as int, size(b) as int);
    let x = product(a, whole(60));
    let y = product(b, whole(60));
    let k = c as int;
    assert(s * k >= 0 && t * k >= 0) by (nonlinear_arith)
        requires
            s >= 0,
            t >= 0,
            k >= 0,
    ;
    margins_add_up(s * k, exact as int, t * k, 1000, 1);
    margins_add_up(t * k, exact as int, s * k, 2, 1000);
    margins_cancel(s, t, k, 1002);
    margins_cancel(t, s, k, 1003);
    margins_scale(s, t, 60, 1002);
    margins_scale(t, s, 60, 1003);
    let (u, v) = (size(x) as int, size(y) as int);
    margins_add_up(u, 60 * s, 60 * t, 2, 1002);
    margins_add_up(u, 60 * t, v, 1005, 1);
    margins_widen(u, v, 1007, 2048);
    margins_add_up(v, 60 * t, 60 * s, 2, 1003);
    margins_add_up(v, 60 * s, u, 1006, 1);
    margins_widen(v, u, 1008, 2048);
    close_times_round_alike(x, y);
    close_times_round_alike(y, x);
}

proof fn powers_grow(j: int, k: int)
    requires
        -1000 <= j < k <= 1000,
    ensures
        power_units(j) < power_units(k),
{
    vstd::arithmetic::power2::lemma_pow2_strictly_increases(
        (UNIT_POWER + j) as nat,
        (UNIT_POWER + k) as nat,
    );
}

/// Where the band being crossed has been learnt, the bands that are not
/// crossed any more do not matter: those above on battery, those below while
/// charging.
pub proof fn walks_ignore_bands_not_crossed(
    percent: u8,
    state: PowerState,
    current: Quantity,
    bands: Seq<Option<Quantity>>,
    others: Seq<Option<Quantity>>,
)
    requires
        bands.len() == BANDS,
        others.len() == BANDS,
        bands[band_of(percent) as int] is Some,
        forall|b: int|
            0 <= b < BANDS && (if state == PowerState::Charging {
                b >= band_of(percent)
            } else {
                b <= band_of(percent)
            }) ==> #[trigger] bands[b] == others[b],
    ensures
        walk_minutes(percent, state, current, bands) == walk_minutes(
            percent,
            state,
            current,
            others,
        ),
{
    assert(bands[band_of(percent) as int] == others[band_of(percent) as int]);
    hours_ignore_bands_not_crossed(
        percent,
        state,
        current,
        bands,
        others,
        points_left(percent, state),
    );
}

proof fn hours_ignore_bands_not_crossed(
    percent: u8,
    state: PowerState,
    current: Quantity,
    bands: Seq<Option<Quantity>>,
    others: Seq<Option<Quantity>>,
    n: nat,
)
    requires
        bands.len() == BANDS,
        others.len() == BANDS,
        bands[band_of(percent) as int] is Some,
        bands[band_of(percent) as int] == others[band_of(percent) as int],
        forall|b: int|
            0 <= b < BANDS && (if state == PowerState::Charging {
                b >= band_of(percent)
            } else {
                b <= band_of(percent)
            }) ==> #[trigger] bands[b] == others[b],
        n <= points_left(percent, state),
    ensures
        walk_hours(percent, state, current, bands, n) == walk_hours(
            percent,
            state,
            current,
            others,
            n,
        ),
    decreases n,
{
    if n > 0 {
        hours_ignore_bands_not_crossed(
            percent,
            state,
            current,
            bands,
            others,
            (n - 1) as nat,
        );
        let point = walk_point(percent, state, n - 1);
        let b = band_of(point as u8) as int;
        assert(0 <= b < BANDS);
        assert(bands[b] == others[b]);
        assert(scale_of(percent, current, bands) == scale_of(percent, current, others));
    }
}

} // verus!
