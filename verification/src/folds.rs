//! Long sums: how far a number of quantities, added up one after the other,
//! is off from the exact sum.

use crate::precision::PARTS;
use crate::quantity::Quantity;
use vstd::prelude::*;

verus! {

use crate::binary::{is_finite, nearest, nearest_exists, size, sum, units, value};
use crate::measures::about;
use crate::precision::power_units;

/// How many quantities can be added up before what they are off by matters.
pub const MOST_TERMS: u64 = 0x100_0000;

/// The size of a whole number of either sign.
pub open spec fn extent(n: int) -> int {
    if n < 0 {
        -n
    } else {
        n
    }
}

/// Whole numbers, added up.
pub open spec fn total_of(d: Seq<int>) -> int
    decreases d.len(),
{
    if d.len() == 0 {
        0
    } else {
        total_of(d.drop_last()) + d.last()
    }
}

/// The sizes of whole numbers, added up.
pub open spec fn extent_of(d: Seq<int>) -> int
    decreases d.len(),
{
    if d.len() == 0 {
        0
    } else {
        extent_of(d.drop_last()) + extent(d.last())
    }
}

/// Quantities, added up one after the other.
pub open spec fn added_up(q: Seq<Quantity>) -> Quantity
    decreases q.len(),
{
    if q.len() == 0 {
        Quantity { bits: 0 }
    } else {
        sum(added_up(q.drop_last()), q.last())
    }
}

/// Whether `x` is off from `y` by no more than so many parts of `of`.
pub open spec fn is_off_by(x: int, y: int, of: int, parts: nat) -> bool {
    extent(x - y) * PARTS <= of * parts
}

pub(crate) proof fn extents_hold_totals(d: Seq<int>)
    ensures
        extent(total_of(d)) <= extent_of(d),
        extent_of(d) >= 0,
    decreases d.len(),
{
    if d.len() > 0 {
        extents_hold_totals(d.drop_last());
    }
}

/// One rounding of a sum.
pub(crate) proof fn sums_are_off_by_little(a: Quantity, b: Quantity, k: int)
    requires
        is_finite(a),
        is_finite(b),
        extent(value(a) + value(b)) <= power_units(k),
        -1000 <= k <= 1000,
    ensures
        is_finite(sum(a, b)),
        is_off_by(value(sum(a, b)), value(a) + value(b), extent(value(a) + value(b)), 2),
{
    let exact = value(a) + value(b);
    if exact != 0 {
        let p = extent(exact) as nat;
        let mag = nearest(p, 1);
        nearest_exists(p, 1);
        assert(power_units(k) * 1 == power_units(k));
        crate::straight::small_values_stay_small(p, 1, k);
        crate::margin::rounding_adds_little(p, 1, mag);
        crate::margin::rounding_takes_little(p, 1, mag);
        let u = units(mag) as int;
        assert(u * PARTS <= p * PARTS + p * 2) by (nonlinear_arith)
            requires
                u * PARTS <= p * (PARTS + 2),
        ;
        assert(p * PARTS <= u * PARTS + u) by (nonlinear_arith)
            requires
                p * PARTS <= u * (PARTS + 1),
        ;
        assert(u <= 2 * p) by (nonlinear_arith)
            requires
                u * PARTS <= p * PARTS + p * 2,
                PARTS == 0x20_0000_0000_0000,
                p >= 0,
        ;
        assert((u - p) * PARTS == u * PARTS - p * PARTS) by (nonlinear_arith);
        assert((p - u) * PARTS == p * PARTS - u * PARTS) by (nonlinear_arith);
    }
}

/// A long sum is off by no more than a few parts of the sizes of its terms.
/// The terms may be off themselves, and are counted in `unit`s.
pub proof fn folds_measure(q: Seq<Quantity>, d: Seq<int>, unit: nat, parts: nat, k: int)
    requires
        q.len() == d.len(),
        q.len() <= MOST_TERMS,
        parts <= 100,
        unit > 0,
        -900 <= k <= 900,
        forall|i: int|
            0 <= i < q.len() ==> is_finite(#[trigger] q[i]) && size(q[i]) <= power_units(k)
                && is_off_by(value(q[i]) * unit, d[i], extent(d[i]), parts),
    ensures
        is_finite(added_up(q)),
        extent(value(added_up(q))) <= 2 * q.len() * power_units(k),
        is_off_by(
            value(added_up(q)) * unit,
            total_of(d),
            extent_of(d),
            (parts + 6) * q.len(),
        ),
    decreases q.len(),
{
    let n = q.len();
    let top = power_units(k) as int;
    extents_hold_totals(d);
    if n == 0 {
        assert(0 * unit == 0);
        assert(0 * top == 0);
    } else {
        let (p, e) = (q.drop_last(), d.drop_last());
        assert forall|i: int| 0 <= i < p.len() implies is_finite(#[trigger] p[i]) && size(p[i])
            <= power_units(k) && is_off_by(value(p[i]) * unit, e[i], extent(e[i]), parts) by {
            assert(p[i] == q[i] && e[i] == d[i]);
        }
        folds_measure(p, e, unit, parts, k);
        extents_hold_totals(e);
        assert(q[n - 1] == q.last());
        let (a, b) = (added_up(p), q.last());
        let (x, y) = (value(a), value(b));
        let m = (n - 1) as int;
        assert(2 * m * top + top <= 2 * n * top - top) by (nonlinear_arith)
            requires
                m == n - 1,
        ;
        assert(extent(x + y) <= 2 * n * top - top);
        crate::precision::scaled_powers(k, 26);
        vstd::arithmetic::power2::lemma2_to64();
        assert(2 * n * top <= 0x400_0000 * top) by (nonlinear_arith)
            requires
                n <= 0x100_0000,
                top >= 0,
        ;
        sums_are_off_by_little(a, b, k + 26);
        let s = value(sum(a, b));
        // What a single rounding can add to the size.
        let w = extent(x + y);
        assert(extent(s - (x + y)) * PARTS <= w * 2);
        assert(w * 2 <= top * PARTS) by (nonlinear_arith)
            requires
                w <= 0x400_0000 * top,
                PARTS == 0x20_0000_0000_0000,
                top >= 0,
        ;
        assert(extent(s - (x + y)) <= top) by (nonlinear_arith)
            requires
                extent(s - (x + y)) * PARTS <= top * PARTS,
                PARTS > 0,
        ;
        // In units.
        let u = unit as int;
        let (g, v) = (extent_of(e), extent(d.last()));
        let c = (parts + 6) * m;
        let (xu, yu, su) = (x * u, y * u, s * u);
        let t = total_of(e);
        assert(is_off_by(yu, d.last(), v, parts));
        assert(is_off_by(xu, t, g, c as nat));
        assert((x + y) * u == xu + yu) by (nonlinear_arith)
            requires
                xu == x * u,
                yu == y * u,
        ;
        let r = extent(s - (x + y)) * u;
        assert(r == extent(su - (xu + yu))) by (nonlinear_arith)
            requires
                r == extent(s - (x + y)) * u,
                su == s * u,
                (x + y) * u == xu + yu,
                u > 0,
        {
            assert((s - (x + y)) * u == su - (xu + yu));
            assert((-(s - (x + y))) * u == -(su - (xu + yu)));
            assert((s - (x + y)) >= 0 ==> (s - (x + y)) * u >= 0);
            assert((s - (x + y)) < 0 ==> (s - (x + y)) * u <= 0);
        }
        let wu = w * u;
        assert(wu == extent(xu + yu)) by (nonlinear_arith)
            requires
                wu == w * u,
                w == extent(x + y),
                (x + y) * u == xu + yu,
                u > 0,
        {
            assert((-(x + y)) * u == -(xu + yu));
            assert((x + y) >= 0 ==> (x + y) * u >= 0);
            assert((x + y) < 0 ==> (x + y) * u <= 0);
        }
        assert(r * PARTS <= wu * 2) by (nonlinear_arith)
            requires
                r == extent(s - (x + y)) * u,
                wu == w * u,
                extent(s - (x + y)) * PARTS <= w * 2,
                u > 0,
        ;
        errors_add_up(xu, yu, su, t, d.last(), g, v, parts as int, m);
        assert(((parts + 6) * m) + (parts + 6) == (parts + 6) * n) by (nonlinear_arith)
            requires
                m == n - 1,
        ;
    }
}

proof fn errors_add_up(
    xu: int,
    yu: int,
    su: int,
    t: int,
    l: int,
    g: int,
    v: int,
    parts: int,
    m: int,
)
    requires
        0 <= m <= 0x100_0000,
        0 <= parts <= 100,
        g >= 0,
        v == extent(l),
        extent(t) <= g,
        extent(yu - l) * PARTS <= v * parts,
        extent(xu - t) * PARTS <= g * ((parts + 6) * m),
        extent(su - (xu + yu)) * PARTS <= extent(xu + yu) * 2,
    ensures
        extent(su - (t + l)) * PARTS <= (g + v) * ((parts + 6) * m + (parts + 6)),
{
    let e = PARTS as int;
    let c = (parts + 6) * m;
    assert(c <= 106 * 0x100_0000) by (nonlinear_arith)
        requires
            c == (parts + 6) * m,
            0 <= parts <= 100,
            0 <= m <= 0x100_0000,
    ;
    assert(c >= 0) by (nonlinear_arith)
        requires
            c == (parts + 6) * m,
            parts >= 0,
            m >= 0,
    ;
    // Neither of the two terms is much larger than what it stands for.
    assert(extent(xu - t) <= g) by (nonlinear_arith)
        requires
            extent(xu - t) * e <= g * c,
            c <= 106 * 0x100_0000,
            g >= 0,
            e == 0x20_0000_0000_0000,
    ;
    assert(extent(yu - l) <= v) by (nonlinear_arith)
        requires
            extent(yu - l) * e <= v * parts,
            parts <= 100,
            v >= 0,
            e == 0x20_0000_0000_0000,
    ;
    assert(extent(xu + yu) <= 2 * g + 2 * v);
    let (i, j, k) = (extent(su - (xu + yu)), extent(xu - t), extent(yu - l));
    assert(extent(su - (t + l)) <= i + j + k);
    assert(i * e <= 4 * g + 4 * v);
    assert((i + j + k) * e == i * e + j * e + k * e) by (nonlinear_arith);
    assert((g + v) * (c + (parts + 6)) == g * c + g * (parts + 6) + v * c + v * (parts + 6))
        by (nonlinear_arith);
    assert(v * c >= 0 && g * (parts + 6) >= 6 * g && v * (parts + 6) == v * parts + 6 * v)
        by (nonlinear_arith)
        requires
            v >= 0,
            c >= 0,
            g >= 0,
            parts >= 0,
    ;
    let z = extent(su - (t + l));
    assert(z * e <= (i + j + k) * e) by (nonlinear_arith)
        requires
            z <= i + j + k,
            e > 0,
    ;
}

/// What is about equal is off by no more than one part more.
pub(crate) proof fn abouts_are_off_by_little(x: int, y: int, parts: nat)
    requires
        about(x, y, parts),
        x >= 0,
        y >= 0,
        parts <= 100,
    ensures
        is_off_by(x, y, y, parts + 1),
{
    let e = PARTS as int;
    let p = parts as int;
    assert(x * e <= y * e + y * p) by (nonlinear_arith)
        requires
            x * e <= y * (e + p),
    ;
    assert(y * e <= x * e + x * p) by (nonlinear_arith)
        requires
            y * e <= x * (e + p),
    ;
    assert(x * p <= y * (p + 1)) by (nonlinear_arith)
        requires
            x * e <= y * e + y * p,
            0 <= p <= 100,
            x >= 0,
            y >= 0,
            e == 0x20_0000_0000_0000,
    {
        assert((x * p) * e == (x * e) * p);
        assert((x * e) * p <= (y * e + y * p) * p);
        assert((y * e + y * p) * p == (y * p) * e + (y * p) * p);
        assert((y * p) * p <= y * e);
        assert((y * (p + 1)) * e == (y * p) * e + y * e);
        assert((x * p) * e <= (y * (p + 1)) * e);
    }
    assert(y * p <= y * (p + 1)) by (nonlinear_arith)
        requires
            y >= 0,
    ;
    assert((x - y) * e == x * e - y * e) by (nonlinear_arith);
    assert((y - x) * e == y * e - x * e) by (nonlinear_arith);
}

/// A rate, times the exact time, is the exact movement: the rate is what was
/// added up of the movement over what was added up of the time, in hours.
/// Movement and time are counted in `unit`s.
pub(crate) proof fn rates_measure(
    rate: int,
    hours: int,
    moved: int,
    time: int,
    exact: int,
    churn: int,
    unit: int,
    one: int,
    n: int,
)
    requires
        1 <= n <= MOST_TERMS,
        unit > 0,
        one > 0,
        rate >= 0,
        hours >= 0,
        moved >= 0,
        time >= 0,
        extent(exact) <= churn,
        extent(rate * hours - moved * one) * PARTS <= (moved * one) * 3,
        extent(hours * (3600 * unit) - time * one) * PARTS <= (time * one) * (12 * n),
        extent(moved * unit - exact) * PARTS <= churn * (14 * n),
    ensures
        is_off_by(rate * time, 3600 * exact, 3600 * churn, (200 * n) as nat),
{
    let e = PARTS as int;
    let x = (rate * time) * one;
    let y = rate * (hours * (3600 * unit));
    let z = (3600 * unit) * (moved * one);
    let v = (3600 * exact) * one;
    let b = (3600 * churn) * one;
    // Each step of the way.
    let i = extent(hours * (3600 * unit) - time * one);
    assert(extent(x - y) == rate * i) by (nonlinear_arith)
        requires
            x == (rate * time) * one,
            y == rate * (hours * (3600 * unit)),
            i == extent(hours * (3600 * unit) - time * one),
            rate >= 0,
    {
        let h = hours * (3600 * unit);
        assert(x == rate * (time * one));
        assert(y - x == rate * (h - time * one));
        assert(x - y == rate * (time * one - h));
        assert(h - time * one >= 0 ==> rate * (h - time * one) >= 0);
        assert(time * one - h >= 0 ==> rate * (time * one - h) >= 0);
    }
    assert(extent(x - y) * e <= x * (12 * n)) by (nonlinear_arith)
        requires
            extent(x - y) == rate * i,
            i * e <= (time * one) * (12 * n),
            x == (rate * time) * one,
            rate >= 0,
    {
        assert((rate * i) * e == rate * (i * e));
        assert(rate * (i * e) <= rate * ((time * one) * (12 * n)));
        assert(rate * ((time * one) * (12 * n)) == ((rate * time) * one) * (12 * n));
    }
    let j = extent(rate * hours - moved * one);
    let u = 3600 * unit;
    assert(extent(y - z) == u * j) by (nonlinear_arith)
        requires
            y == rate * (hours * u),
            z == u * (moved * one),
            j == extent(rate * hours - moved * one),
            u >= 0,
    {
        let d = rate * hours - moved * one;
        assert(y == u * (rate * hours));
        assert(y - z == u * d);
        assert(z - y == u * (-d));
        assert(d >= 0 ==> u * d >= 0);
        assert(d < 0 ==> u * (-d) >= 0);
    }
    assert(extent(y - z) * e <= z * 3) by (nonlinear_arith)
        requires
            extent(y - z) == u * j,
            j * e <= (moved * one) * 3,
            z == u * (moved * one),
            u >= 0,
    {
        assert((u * j) * e == u * (j * e));
        assert(u * (j * e) <= u * ((moved * one) * 3));
        assert(u * ((moved * one) * 3) == (u * (moved * one)) * 3);
    }
    let k = extent(moved * unit - exact);
    let w = 3600 * one;
    assert(extent(z - v) == w * k) by (nonlinear_arith)
        requires
            z == (3600 * unit) * (moved * one),
            v == (3600 * exact) * one,
            w == 3600 * one,
            k == extent(moved * unit - exact),
            w >= 0,
    {
        let d = moved * unit - exact;
        assert(z == w * (moved * unit));
        assert(v == w * exact);
        assert(z - v == w * d);
        assert(v - z == w * (-d));
        assert(d >= 0 ==> w * d >= 0);
        assert(d < 0 ==> w * (-d) >= 0);
    }
    assert(extent(z - v) * e <= b * (14 * n)) by (nonlinear_arith)
        requires
            extent(z - v) == w * k,
            k * e <= churn * (14 * n),
            w == 3600 * one,
            b == (3600 * churn) * one,
            w >= 0,
    {
        assert((w * k) * e == w * (k * e));
        assert(w * (k * e) <= w * (churn * (14 * n)));
        assert(w * (churn * (14 * n)) == ((3600 * churn) * one) * (14 * n));
    }
    // None of them is much larger than the movement.
    assert(k <= churn) by (nonlinear_arith)
        requires
            k * e <= churn * (14 * n),
            n <= 0x100_0000,
            churn >= 0,
            e == 0x20_0000_0000_0000,
    ;
    assert(z <= 2 * b) by (nonlinear_arith)
        requires
            z == (3600 * unit) * (moved * one),
            b == (3600 * churn) * one,
            moved * unit <= 2 * churn,
            one > 0,
    {
        assert(z == (3600 * one) * (moved * unit));
        assert((3600 * one) * (moved * unit) <= (3600 * one) * (2 * churn));
    }
    assert(x >= 0 && y >= 0 && z >= 0 && b >= 0) by (nonlinear_arith)
        requires
            x == (rate * time) * one,
            y == rate * (hours * (3600 * unit)),
            z == (3600 * unit) * (moved * one),
            b == (3600 * churn) * one,
            rate >= 0,
            time >= 0,
            hours >= 0,
            moved >= 0,
            unit > 0,
            one > 0,
            churn >= 0,
    ;
    assert(y <= 2 * z) by (nonlinear_arith)
        requires
            (y - z) * e <= z * 3,
            z >= 0,
            e == 0x20_0000_0000_0000,
    ;
    assert(x <= 2 * y) by (nonlinear_arith)
        requires
            (x - y) * e <= x * (12 * n),
            x >= 0,
            n <= 0x100_0000,
            e == 0x20_0000_0000_0000,
    ;
    assert(x * (12 * n) <= b * (96 * n)) by (nonlinear_arith)
        requires
            x <= 8 * b,
            n >= 1,
    ;
    assert(z * 3 <= b * (6 * n)) by (nonlinear_arith)
        requires
            z <= 2 * b,
            n >= 1,
            b >= 0,
    ;
    let f = extent(x - v);
    assert(f * e <= extent(x - y) * e + extent(y - z) * e + extent(z - v) * e) by (nonlinear_arith)
        requires
            f <= extent(x - y) + extent(y - z) + extent(z - v),
            e > 0,
    ;
    assert(b * (96 * n) + b * (6 * n) + b * (14 * n) <= b * (200 * n)) by (nonlinear_arith)
        requires
            b >= 0,
            n >= 1,
    ;
    // Without the common factor.
    let g = extent(rate * time - 3600 * exact);
    assert(f == g * one) by (nonlinear_arith)
        requires
            f == extent(x - v),
            g == extent(rate * time - 3600 * exact),
            x == (rate * time) * one,
            v == (3600 * exact) * one,
            one > 0,
    {
        let d = rate * time - 3600 * exact;
        assert(x - v == d * one);
        assert(v - x == (-d) * one);
        assert(d >= 0 ==> d * one >= 0);
        assert(d < 0 ==> (-d) * one >= 0);
    }
    assert(g * e <= (3600 * churn) * (200 * n)) by (nonlinear_arith)
        requires
            (g * one) * e <= b * (200 * n),
            b == (3600 * churn) * one,
            one > 0,
    {
        assert((g * one) * e == (g * e) * one);
        assert(b * (200 * n) == ((3600 * churn) * (200 * n)) * one);
    }
}

} // verus!
