//! What holds up to rounding.
//!
//! A chain of roundings moves a result by a few parts in two to the power of
//! 53. Bounds that hold of exact results therefore hold of rounded ones, up to
//! so many parts.

use crate::binary::SPAN;
use crate::precision::PARTS;
use crate::quantity::INFINITY_BITS;
use vstd::prelude::*;

verus! {

use crate::binary::{is_nearest, units};

/// Whether `x` exceeds `y` by no more than so many parts in two to the power
/// of 53.
pub open spec fn about_at_most(x: int, y: int, parts: nat) -> bool {
    x * PARTS <= y * (PARTS + parts)
}

/// What is at most `y` exceeds it by nothing.
pub proof fn bounds_hold_about(x: int, y: int, parts: nat)
    requires
        x <= y,
        y >= 0,
    ensures
        about_at_most(x, y, parts),
{
    assert(x * PARTS <= y * (PARTS + parts)) by (nonlinear_arith)
        requires
            x <= y,
            y >= 0,
            parts >= 0,
    {
        assert(y * (PARTS + parts) == y * PARTS + y * parts);
        assert(y * parts >= 0);
        assert(x * PARTS <= y * PARTS);
    }
}

/// Bounds chain, and their margins add up.
pub proof fn margins_add_up(x: int, y: int, z: int, a: nat, b: nat)
    requires
        about_at_most(x, y, a),
        about_at_most(y, z, b),
        a * b <= PARTS,
        z >= 0,
    ensures
        about_at_most(x, z, a + b + 1),
{
    let e = PARTS as int;
    assert((x * e) * e <= (y * (e + a)) * e) by (nonlinear_arith)
        requires
            x * e <= y * (e + a),
            e > 0,
    ;
    assert((y * e) * (e + a) <= (z * (e + b)) * (e + a)) by (nonlinear_arith)
        requires
            y * e <= z * (e + b),
            e + a > 0,
    ;
    assert((y * (e + a)) * e == (y * e) * (e + a)) by (nonlinear_arith);
    assert((z * (e + b)) * (e + a) <= (z * (e + (a + b + 1))) * e) by (nonlinear_arith)
        requires
            a * b <= e,
            z >= 0,
    {
        assert((z * (e + b)) * (e + a) == z * (e * e + (a + b) * e + a * b));
        assert((z * (e + (a + b + 1))) * e == z * (e * e + (a + b) * e + e));
        assert(z * (a * b) <= z * e);
    }
    assert(x * e <= z * (e + (a + b + 1))) by (nonlinear_arith)
        requires
            (x * e) * e <= (z * (e + (a + b + 1))) * e,
            e > 0,
    ;
}

/// A bound allows a wider margin too.
pub proof fn margins_widen(x: int, y: int, a: nat, b: nat)
    requires
        about_at_most(x, y, a),
        a <= b,
        y >= 0,
    ensures
        about_at_most(x, y, b),
{
    assert(y * (PARTS + a) <= y * (PARTS + b)) by (nonlinear_arith)
        requires
            a <= b,
            y >= 0,
    ;
}

/// Bounds can be multiplied out.
pub proof fn margins_scale(x: int, y: int, c: int, parts: nat)
    requires
        about_at_most(x, y, parts),
        c >= 0,
    ensures
        about_at_most(x * c, y * c, parts),
{
    let e = PARTS as int;
    assert((x * c) * e <= (y * c) * (e + parts)) by (nonlinear_arith)
        requires
            x * e <= y * (e + parts),
            c >= 0,
    {
        assert((x * c) * e == (x * e) * c);
        assert((y * c) * (e + parts) == (y * (e + parts)) * c);
    }
}

/// Common factors of a bound cancel.
pub proof fn margins_cancel(x: int, y: int, c: int, parts: nat)
    requires
        about_at_most(x * c, y * c, parts),
        c > 0,
    ensures
        about_at_most(x, y, parts),
{
    let e = PARTS as int;
    assert((x * e) * c <= (y * (e + parts)) * c) by (nonlinear_arith)
        requires
            (x * c) * e <= (y * c) * (e + parts),
    ;
    assert(x * e <= y * (e + parts)) by (nonlinear_arith)
        requires
            (x * e) * c <= (y * (e + parts)) * c,
            c > 0,
    ;
}

/// Bounds of the same margin add up.
pub proof fn bounds_add_up(x: int, y: int, v: int, w: int, parts: nat)
    requires
        about_at_most(x, y, parts),
        about_at_most(v, w, parts),
    ensures
        about_at_most(x + v, y + w, parts),
{
    let e = PARTS as int;
    assert((x + v) * e <= (y + w) * (e + parts)) by (nonlinear_arith)
        requires
            x * e <= y * (e + parts),
            v * e <= w * (e + parts),
    ;
}

/// One more makes little difference to what is large.
pub proof fn one_more_is_little(x: int)
    requires
        x >= PARTS,
    ensures
        about_at_most(x + 1, x, 1),
        about_at_most(x, x - 1, 2),
{
    assert((x + 1) * PARTS <= x * (PARTS + 1)) by (nonlinear_arith)
        requires
            x >= PARTS,
    ;
    assert(x * PARTS <= (x - 1) * (PARTS + 2)) by (nonlinear_arith)
        requires
            x >= PARTS,
            PARTS >= 2,
    ;
}

/// Rounding adds at most two parts to what is not tiny, and at most one of
/// the smallest quantities to what is.
pub proof fn rounding_adds_little(p: nat, q: nat, mag: nat)
    requires
        q > 0,
        is_nearest(p, q, mag),
    ensures
        about_at_most((units(mag) - 1) * q, p as int, 2),
        mag >= SPAN ==> about_at_most((units(mag) * q) as int, p as int, 2),
        q == 1 ==> about_at_most(units(mag) as int, p as int, 2),
{
    let u = units(mag);
    let e = PARTS as int;
    if mag >= SPAN {
        crate::precision::nearest_is_not_much_more(p, q, mag);
        let x = (u * q) as int;
        assert(x * e <= p * (e + 2)) by (nonlinear_arith)
            requires
                x * (e - 1) <= p * e,
                x >= 0,
                p >= 0,
                e > 2,
        {
            assert((x * e) * (e - 1) == (x * (e - 1)) * e);
            assert((x * (e - 1)) * e <= (p * e) * e);
            assert((p * (e + 2)) * (e - 1) == p * (e * e + e - 2));
            assert(p * (e * e) <= p * (e * e + e - 2));
            assert((x * e) * (e - 1) <= (p * (e + 2)) * (e - 1));
        }
        assert((u - 1) * q <= x) by (nonlinear_arith)
            requires
                x == u * q,
                q > 0,
        ;
        assert(((u - 1) * q) * e <= x * e) by (nonlinear_arith)
            requires
                (u - 1) * q <= x,
                e > 0,
        ;
        if q == 1 {
            assert(u * 1 == u);
        }
    } else {
        assert((u - 1) * q <= p) by {
            if mag > 0 {
                let below = units((mag - 1) as nat);
                assert(below == u - 1);
                assert((u - 1) * q <= p) by (nonlinear_arith)
                    requires
                        2 * p >= (below + u) * q,
                        below == u - 1,
                        q > 0,
                ;
            } else {
                assert((0 - 1) * q <= 0);
            }
        }
        bounds_hold_about((u - 1) * q, p as int, 2);
        if q == 1 {
            if mag > 0 {
                assert((units((mag - 1) as nat) + units(mag)) * 1 == 2 * u - 1);
            }
            bounds_hold_about(u as int, p as int, 2);
        }
    }
}

/// Rounding takes at most one part off what is not tiny, and at most one of
/// the smallest quantities off what is, unless it is too vast to hold.
pub proof fn rounding_takes_little(p: nat, q: nat, mag: nat)
    requires
        q > 0,
        is_nearest(p, q, mag),
        mag < INFINITY_BITS,
    ensures
        about_at_most(p as int, ((units(mag) + 1) * q) as int, 1),
        mag >= SPAN ==> about_at_most(p as int, (units(mag) * q) as int, 1),
        q == 1 ==> about_at_most(p as int, units(mag) as int, 1),
{
    let u = units(mag);
    let e = PARTS as int;
    if mag >= SPAN {
        crate::precision::nearest_is_close(p, q, mag);
        let x = (u * q) as int;
        assert(x <= (u + 1) * q) by (nonlinear_arith)
            requires
                x == u * q,
                q > 0,
        ;
        assert(x * (e + 1) <= ((u + 1) * q) * (e + 1)) by (nonlinear_arith)
            requires
                x <= (u + 1) * q,
                e > 0,
        ;
        if q == 1 {
            assert(u * 1 == u);
        }
    } else {
        crate::binary::spacing_is_the_step(mag);
        let above = units(mag + 1);
        assert(above == u + 1);
        assert(p <= (u + 1) * q) by (nonlinear_arith)
            requires
                2 * p <= (u + above) * q,
                above == u + 1,
                q > 0,
        ;
        assert((u + 1) * q >= 0) by (nonlinear_arith)
            requires
                u >= 0,
                q > 0,
        ;
        bounds_hold_about(p as int, ((u + 1) * q) as int, 1);
        if q == 1 {
            assert((u + above) * 1 == 2 * u + 1);
            bounds_hold_about(p as int, u as int, 1);
        }
    }
}

} // verus!
