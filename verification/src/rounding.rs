//! Finding the magnitude that is nearest to an exact result.
//!
//! A magnitude is taken apart into binary digits and a power of two. The
//! digits of the exact result are worked out as far as they matter, and the
//! rest is rounded away.

use crate::binary::{SPAN, UNIT_POWER};
use crate::quantity::INFINITY_BITS;
use vstd::arithmetic::power2::pow2;
use vstd::prelude::*;

verus! {

use crate::binary::{
    exact_values_stay, is_nearest, magnitudes_grow, nearest, nearest_found, one_in_units,
    powers_within, put_together, spacing_is_the_step, units, values_stay,
    zero_stays_zero,
};

proof fn shifted_one(n: u32)
    requires
        n < 128,
    ensures
        (1u128 << n) == pow2(n as nat),
    decreases n,
{
    if n == 0 {
        assert((1u128 << 0u32) == 1) by (bit_vector);
        vstd::arithmetic::power2::lemma2_to64();
    } else {
        let m = (n - 1) as u32;
        shifted_one(m);
        vstd::arithmetic::power2::lemma_pow2_unfold(n as nat);
        assert((1u128 << n) == 2 * (1u128 << m)) by (bit_vector)
            requires
                0 < n < 128,
                n == m + 1,
        ;
    }
}

/// Two to the power of `n`.
fn two_to(n: u32) -> (r: u128)
    requires
        n < 128,
    ensures
        r == pow2(n as nat),
        r > 0,
{
    proof {
        shifted_one(n);
        vstd::arithmetic::power2::lemma_pow2_pos(n as nat);
    }
    1u128 << n
}

/// How many binary digits `m` has.
fn digits(m: u128) -> (r: u32)
    requires
        0 < m < 0x8000_0000_0000_0000_0000_0000_0000_0000,
    ensures
        0 < r < 128,
        pow2((r - 1) as nat) <= m < pow2(r as nat),
{
    let mut low: u32 = 0;
    let mut high: u32 = 127;
    proof {
        shifted_one(0);
        shifted_one(127);
        assert((1u128 << 0u32) == 1) by (bit_vector);
        assert((1u128 << 127u32) == 0x8000_0000_0000_0000_0000_0000_0000_0000) by (bit_vector);
    }
    while high - low > 1
        invariant
            low < high <= 127,
            pow2(low as nat) <= m < pow2(high as nat),
        decreases high - low,
    {
        let middle: u32 = low + (high - low) / 2;
        if m >= two_to(middle) {
            low = middle;
        } else {
            high = middle;
        }
    }
    high
}

/// A finite magnitude as a number of binary digits and a power of two.
fn taken_apart(mag: u64) -> (r: (u64, u32))
    requires
        mag < INFINITY_BITS,
    ensures
        units(mag as nat) == r.0 * pow2(r.1 as nat),
        r.0 < 2 * SPAN,
        r.1 > 0 ==> r.0 >= SPAN,
        r.1 <= 2045,
        mag == 0 <==> r.0 == 0,
{
    if mag < SPAN {
        proof {
            put_together(mag as nat, 0);
        }
        (mag, 0)
    } else {
        let power: u64 = mag / SPAN - 1;
        let digits: u64 = SPAN + mag % SPAN;
        proof {
            assert(mag == power * SPAN + digits);
            put_together(digits as nat, power as nat);
        }
        (digits, power as u32)
    }
}

/// Two to the power of `e` where `e` is positive, else one. Together with
/// [`down`] it applies an exponent of either sign without fractions.
spec fn up(e: int) -> nat {
    pow2(if e > 0 {
        e as nat
    } else {
        0
    })
}

/// Two to the power of `-e` where `e` is negative, else one.
spec fn down(e: int) -> nat {
    up(-e)
}

/// Whether `p / q` lies in `[m, m + 1)` times two to the power of `e`, and
/// above its lower end exactly when `more` is set.
spec fn lies_at(p: nat, q: nat, m: nat, more: bool, e: int) -> bool {
    &&& m * up(e) * q <= p * down(e)
    &&& p * down(e) < (m + 1) * up(e) * q
    &&& more <==> m * up(e) * q < p * down(e)
}

proof fn tiny_values_vanish(p: nat, q: nat, m: nat, more: bool, e: int, length: nat)
    requires
        q > 0,
        lies_at(p, q, m, more, e),
        m < pow2(length),
        -e > length,
    ensures
        is_nearest(p, q, 0),
{
    vstd::arithmetic::power2::lemma2_to64();
    let n = down(e);
    vstd::arithmetic::power2::lemma_pow2_strictly_increases(length, (-e) as nat);
    vstd::arithmetic::power2::lemma_pow2_unfold((-e) as nat);
    if length < -e - 1 {
        vstd::arithmetic::power2::lemma_pow2_strictly_increases(length, (-e - 1) as nat);
    }
    assert(up(e) == 1);
    assert(2 * (m + 1) <= n);
    let one = up(e);
    assert((m + 1) * one * q == (m + 1) * q) by (nonlinear_arith)
        requires
            one == 1,
    ;
    assert(2 * p < q) by (nonlinear_arith)
        requires
            p * n < (m + 1) * q,
            2 * (m + 1) <= n,
            q > 0,
    {
        assert(2 * (p * n) < 2 * ((m + 1) * q));
        assert(2 * ((m + 1) * q) == (2 * (m + 1)) * q);
        assert((2 * (m + 1)) * q <= n * q);
        assert((2 * p) * n < q * n);
    }
    spacing_is_the_step(0);
    assert((units(0) + units(1)) * q == q) by (nonlinear_arith)
        requires
            units(0) == 0,
            units(1) == 1,
    ;
}

proof fn vast_values_overflow(p: nat, q: nat, m: nat, more: bool, e: int, power: nat)
    requires
        q > 0,
        lies_at(p, q, m, more, e),
        power >= 2046,
        m * up(e) >= SPAN * pow2(power) * down(e),
    ensures
        is_nearest(p, q, INFINITY_BITS as nat),
{
    let n = down(e);
    let top = INFINITY_BITS as nat;
    vstd::arithmetic::power2::lemma_pow2_pos(if -e > 0 {
        (-e) as nat
    } else {
        0
    });
    put_together(SPAN as nat, 2046);
    assert(units(top) == SPAN * pow2(2046));
    magnitudes_grow((top - 1) as nat, top);
    if power > 2046 {
        vstd::arithmetic::power2::lemma_pow2_strictly_increases(2046, power);
    }
    let w = pow2(power);
    let t = pow2(2046);
    let span = SPAN as nat;
    let a = m * up(e);
    assert(p >= units(top) * q) by (nonlinear_arith)
        requires
            a * q <= p * n,
            a >= span * w * n,
            w >= t,
            units(top) == span * t,
            n > 0,
    {
        assert(span * w * n >= span * t * n);
        assert(a * q >= (span * t * n) * q);
        assert((span * t * n) * q == (span * t * q) * n);
        assert(p * n >= (span * t * q) * n);
        assert(p >= span * t * q);
    }
    let below = units((top - 1) as nat);
    assert(2 * p > (below + units(top)) * q) by (nonlinear_arith)
        requires
            p >= units(top) * q,
            below < units(top),
            q > 0,
    ;
}

proof fn exponents_balance(power: nat, e: int, cut: int)
    requires
        cut == power - e,
    ensures
        cut >= 0 ==> pow2(power) * down(e) == pow2(cut as nat) * up(e),
        cut <= 0 ==> e >= 0 && down(e) == 1 && pow2((-cut) as nat) * pow2(power) == up(e),
{
    vstd::arithmetic::power2::lemma2_to64();
    if cut >= 0 {
        if e > 0 {
            vstd::arithmetic::power2::lemma_pow2_adds(cut as nat, e as nat);
            assert(cut as nat + e as nat == power);
            assert(down(e) == 1);
            assert(pow2(power) * 1 == pow2(power));
        } else {
            vstd::arithmetic::power2::lemma_pow2_adds(power, (-e) as nat);
            assert(power + (-e) as nat == cut as nat);
            assert(up(e) == 1);
            assert(pow2(cut as nat) * 1 == pow2(cut as nat));
        }
    }
    if cut <= 0 {
        vstd::arithmetic::power2::lemma_pow2_adds((-cut) as nat, power);
    }
}

proof fn kept_values_are_nearest(p: nat, q: nat, m: nat, e: int, power: nat, digits: nat)
    requires
        q > 0,
        lies_at(p, q, m, false, e),
        power <= e,
        digits == m * pow2((e - power) as nat),
        digits < 2 * SPAN,
        power == 0 || digits >= SPAN,
        power <= 2045,
    ensures
        is_nearest(p, q, power * SPAN as nat + digits),
{
    let span = SPAN as nat;
    let mag = power * span + digits;
    exponents_balance(power, e, power - e);
    put_together(digits, power);
    let a = pow2((e - power) as nat);
    let b = pow2(power);
    assert(m * (a * b) * q == (digits * b) * q) by (nonlinear_arith)
        requires
            digits == m * a,
    ;
    assert(p * 1 == p);
    assert(p == units(mag) * q);
    assert(mag < INFINITY_BITS) by (nonlinear_arith)
        requires
            mag == power * span + digits,
            power <= 2045,
            digits < 2 * span,
            INFINITY_BITS == 2047 * span,
    ;
    exact_values_stay(mag, q);
}

proof fn cut_values_are_nearest(
    p: nat,
    q: nat,
    m: nat,
    more: bool,
    e: int,
    power: nat,
    digits: nat,
    rest: nat,
    goes_up: bool,
)
    requires
        q > 0,
        lies_at(p, q, m, more, e),
        power > e,
        m == digits * pow2((power - e) as nat) + rest,
        rest < pow2((power - e) as nat),
        digits < 2 * SPAN,
        power == 0 || digits >= SPAN,
        power <= 2045,
        goes_up == (2 * rest > pow2((power - e) as nat) || (2 * rest == pow2((power - e) as nat)
            && (more || digits % 2 == 1))),
    ensures
        is_nearest(
            p,
            q,
            power * SPAN as nat + digits + if goes_up {
                1nat
            } else {
                0
            },
        ),
{
    let span = SPAN as nat;
    let low = power * span + digits;
    let cut = pow2((power - e) as nat);
    vstd::arithmetic::power2::lemma_pow2_unfold((power - e) as nat);
    let half = pow2((power - e - 1) as nat);
    exponents_balance(power, e, power - e);
    put_together(digits, power);
    spacing_is_the_step(low);
    assert(low < INFINITY_BITS) by (nonlinear_arith)
        requires
            low == power * span + digits,
            power <= 2045,
            digits < 2 * span,
            INFINITY_BITS == 2047 * span,
    ;
    let n = down(e);
    vstd::arithmetic::power2::lemma_pow2_pos(if -e > 0 {
        (-e) as nat
    } else {
        0
    });
    vstd::arithmetic::power2::lemma_pow2_pos(if e > 0 {
        e as nat
    } else {
        0
    });
    let a = up(e);
    let b = pow2(power);
    // Where the exact value lies, as a multiple of `a * q`.
    let unit = a * q;
    assert(unit > 0) by (nonlinear_arith)
        requires
            a > 0,
            q > 0,
            unit == a * q,
    ;
    let value = p * n;
    assert(m * a * q == m * unit && (m + 1) * a * q == (m + 1) * unit) by (nonlinear_arith)
        requires
            unit == a * q,
    ;
    // The three magnitudes around it, in the same measure.
    let middle = (units(low) + units(low + 1)) * q;
    assert(units(low) == digits * b);
    assert(units(low + 1) == (digits + 1) * b) by (nonlinear_arith)
        requires
            units(low + 1) == digits * b + b,
    ;
    assert(middle * n == (2 * digits + 1) * cut * unit) by (nonlinear_arith)
        requires
            middle == (digits * b + (digits + 1) * b) * q,
            b * n == cut * a,
            unit == a * q,
    {
        assert((digits * b + (digits + 1) * b) * q == (2 * digits + 1) * b * q);
        assert((2 * digits + 1) * b * q * n == (2 * digits + 1) * (b * n) * q);
        assert((2 * digits + 1) * (cut * a) * q == (2 * digits + 1) * cut * (a * q));
    }
    let doubled = 2 * digits + 1;
    // Twice the exact value against twice the midpoint.
    if 2 * rest > cut {
        assert(2 * m > doubled * cut) by (nonlinear_arith)
            requires
                m == digits * cut + rest,
                2 * rest > cut,
                doubled == 2 * digits + 1,
        ;
        assert(2 * p > middle) by (nonlinear_arith)
            requires
                p * n >= m * unit,
                2 * m > doubled * cut,
                middle * n == doubled * cut * unit,
                unit > 0,
                n > 0,
        {
            assert((2 * p) * n >= (2 * m) * unit);
            assert((2 * m) * unit > doubled * cut * unit);
            assert((2 * p) * n > middle * n);
        }
    } else if 2 * rest == cut {
        assert(2 * m == doubled * cut) by (nonlinear_arith)
            requires
                m == digits * cut + rest,
                2 * rest == cut,
                doubled == 2 * digits + 1,
        ;
        if more {
            assert(2 * p > middle) by (nonlinear_arith)
                requires
                    p * n > m * unit,
                    2 * m == doubled * cut,
                    middle * n == doubled * cut * unit,
                    n > 0,
            {
                assert((2 * p) * n > (2 * m) * unit);
                assert((2 * p) * n > middle * n);
            }
        } else {
            assert(2 * p == middle) by (nonlinear_arith)
                requires
                    p * n == m * unit,
                    2 * m == doubled * cut,
                    middle * n == doubled * cut * unit,
                    n > 0,
            {
                assert((2 * p) * n == (2 * m) * unit);
                assert((2 * p) * n == middle * n);
            }
        }
    } else {
        assert(cut == 2 * half);
        assert(2 * (m + 1) <= doubled * cut) by (nonlinear_arith)
            requires
                m == digits * cut + rest,
                2 * rest + 2 <= cut,
                doubled == 2 * digits + 1,
        ;
        assert(2 * p < middle) by (nonlinear_arith)
            requires
                p * n < (m + 1) * unit,
                2 * (m + 1) <= doubled * cut,
                middle * n == doubled * cut * unit,
                unit > 0,
                n > 0,
        {
            assert((2 * p) * n < (2 * (m + 1)) * unit);
            assert((2 * (m + 1)) * unit <= doubled * cut * unit);
            assert((2 * p) * n < middle * n);
        }
    }
    // The value lies between `low` and the magnitude after it.
    assert(m + 1 <= (digits + 1) * cut) by (nonlinear_arith)
        requires
            m == digits * cut + rest,
            rest < cut,
    ;
    assert(p >= units(low) * q) by (nonlinear_arith)
        requires
            p * n >= m * unit,
            m >= digits * cut,
            units(low) == digits * b,
            b * n == cut * a,
            unit == a * q,
            unit > 0,
            n > 0,
    {
        assert(m * unit >= digits * cut * unit);
        assert(digits * cut * (a * q) == digits * (cut * a) * q);
        assert(digits * (b * n) * q == (digits * b * q) * n);
        assert(p * n >= (digits * b * q) * n);
    }
    assert(p < units(low + 1) * q) by (nonlinear_arith)
        requires
            p * n < (m + 1) * unit,
            m + 1 <= (digits + 1) * cut,
            units(low + 1) == (digits + 1) * b,
            b * n == cut * a,
            unit == a * q,
            unit > 0,
            n > 0,
    {
        assert((m + 1) * unit <= (digits + 1) * cut * unit);
        assert((digits + 1) * cut * (a * q) == (digits + 1) * (cut * a) * q);
        assert((digits + 1) * (b * n) * q == ((digits + 1) * b * q) * n);
        assert(p * n < ((digits + 1) * b * q) * n);
    }
    if goes_up {
        let high = low + 1;
        if high < INFINITY_BITS {
            magnitudes_grow(high, high + 1);
            let x = units(high);
            let y = units(high + 1);
            assert(2 * p < (x + y) * q) by (nonlinear_arith)
                requires
                    p < x * q,
                    x < y,
                    q > 0,
            ;
        }
        assert((high - 1) as nat == low);
    } else if low > 0 {
        magnitudes_grow((low - 1) as nat, low);
        let x = units((low - 1) as nat);
        let y = units(low);
        assert(2 * p > (x + y) * q) by (nonlinear_arith)
            requires
                p >= y * q,
                x < y,
                q > 0,
        ;
    }
}

/// The magnitude nearest to a value between `m` and `m + 1` times two to the
/// power of `e`.
fn rounded(m: u128, more: bool, e: i32, Ghost(p): Ghost<nat>, Ghost(q): Ghost<nat>) -> (r: u64)
    requires
        0 < m < 0x8000_0000_0000_0000_0000_0000_0000_0000,
        more ==> m >= 4 * SPAN,
        -10_000 <= e <= 10_000,
        q > 0,
        lies_at(p, q, m as nat, more, e as int),
    ensures
        r <= INFINITY_BITS,
        r == nearest(p, q),
{
    let length: u32 = digits(m);
    let power: i32 = if e + length as i32 > 53 {
        e + length as i32 - 53
    } else {
        0
    };
    proof {
        vstd::arithmetic::power2::lemma2_to64();
        vstd::arithmetic::power2::lemma2_to64_rest();
        assert(pow2(53) == 2 * SPAN && pow2(52) == SPAN && pow2(54) == 4 * SPAN);
    }
    if power > 2045 {
        proof {
            // `m` has its leading digit at `power + 52 - e`.
            let lead = (length - 1) as nat;
            let w = pow2(power as nat);
            vstd::arithmetic::power2::lemma_pow2_pos(power as nat);
            if e >= 0 {
                vstd::arithmetic::power2::lemma_pow2_adds(lead, e as nat);
                vstd::arithmetic::power2::lemma_pow2_adds(52, power as nat);
                assert(lead + e as nat == 52 + power as nat);
                let a = up(e as int);
                assert(m * a >= pow2(lead) * a) by (nonlinear_arith)
                    requires
                        m >= pow2(lead),
                ;
                assert(down(e as int) == 1);
                assert(SPAN * w * 1 == SPAN * w);
            } else {
                // Then `m` would need more digits than it can have.
                assert(length < 128);
            }
            vast_values_overflow(p, q, m as nat, more, e as int, power as nat);
            nearest_found(p, q, INFINITY_BITS as nat);
        }
        return INFINITY_BITS;
    }
    let cut: i32 = power - e;
    if cut <= 0 {
        let lift: u32 = (-cut) as u32;
        proof {
            vstd::arithmetic::power2::lemma_pow2_adds(length as nat, lift as nat);
            assert(length + lift <= 53);
            if length + lift < 53 {
                vstd::arithmetic::power2::lemma_pow2_strictly_increases((length + lift) as nat, 53);
            }
            let x = pow2(lift as nat);
            vstd::arithmetic::power2::lemma_pow2_pos(lift as nat);
            assert(m * x < pow2(length as nat) * x) by (nonlinear_arith)
                requires
                    m < pow2(length as nat),
                    x > 0,
            ;
            if power > 0 {
                vstd::arithmetic::power2::lemma_pow2_adds((length - 1) as nat, lift as nat);
                assert((length - 1) + lift == 52);
                assert(m * x >= pow2((length - 1) as nat) * x) by (nonlinear_arith)
                    requires
                        m >= pow2((length - 1) as nat),
                ;
            }
            if more {
                // So few digits leave no room for a rest.
                vstd::arithmetic::power2::lemma_pow2_adds(0, length as nat);
                if length < 54 {
                    vstd::arithmetic::power2::lemma_pow2_strictly_increases(length as nat, 54);
                }
            }
            assert(lift < 128);
        }
        let kept: u128 = m * two_to(lift);
        let mag: u64 = power as u64 * SPAN + kept as u64;
        proof {
            kept_values_are_nearest(p, q, m as nat, e as int, power as nat, kept as nat);
            nearest_found(p, q, mag as nat);
        }
        return mag;
    }
    if cut as u32 > length {
        proof {
            tiny_values_vanish(p, q, m as nat, more, e as int, length as nat);
            nearest_found(p, q, 0);
        }
        return 0;
    }
    let divisor: u128 = two_to(cut as u32);
    let kept: u128 = m / divisor;
    let rest: u128 = m % divisor;
    proof {
        vstd::arithmetic::div_mod::lemma_fundamental_div_mod(m as int, divisor as int);
        assert(m == kept * divisor + rest) by (nonlinear_arith)
            requires
                m == divisor * kept + rest,
        ;
        vstd::arithmetic::power2::lemma_pow2_adds(cut as nat, 53);
        if length < cut + 53 {
            vstd::arithmetic::power2::lemma_pow2_strictly_increases(
                length as nat,
                (cut + 53) as nat,
            );
        }
        assert(kept < 2 * SPAN) by (nonlinear_arith)
            requires
                m == kept * divisor + rest,
                rest >= 0,
                m < divisor * (2 * SPAN),
                divisor > 0,
        ;
        if power > 0 {
            vstd::arithmetic::power2::lemma_pow2_adds(cut as nat, 52);
            assert(length - 1 == cut + 52);
            assert(kept >= SPAN) by (nonlinear_arith)
                requires
                    m == kept * divisor + rest,
                    rest < divisor,
                    m >= divisor * SPAN,
                    divisor > 0,
            ;
        }
    }
    let half: u128 = two_to(cut as u32 - 1);
    proof {
        vstd::arithmetic::power2::lemma_pow2_unfold(cut as nat);
    }
    let goes_up: bool = rest > half || (rest == half && (more || kept % 2 == 1));
    let low: u64 = power as u64 * SPAN + kept as u64;
    proof {
        cut_values_are_nearest(
            p,
            q,
            m as nat,
            more,
            e as int,
            power as nat,
            kept as nat,
            rest as nat,
            goes_up,
        );
    }
    if goes_up {
        proof {
            nearest_found(p, q, (low + 1) as nat);
        }
        low + 1
    } else {
        proof {
            nearest_found(p, q, low as nat);
        }
        low
    }
}

pub(crate) fn added(a: u64, b: u64) -> (r: u64)
    requires
        b <= a < INFINITY_BITS,
    ensures
        r <= INFINITY_BITS,
        a == 0 ==> r == 0,
        a > 0 ==> r == nearest(units(a as nat) + units(b as nat), 1),
{
    if a == 0 {
        return 0;
    }
    let (m, x) = taken_apart(a);
    let (n, y) = taken_apart(b);
    let ghost p = units(a as nat) + units(b as nat);
    proof {
        ordered_powers(a, b, m, x, n, y);
        vstd::arithmetic::power2::lemma2_to64();
        vstd::arithmetic::power2::lemma2_to64_rest();
    }
    let apart: u32 = x - y;
    if apart <= 64 {
        let lift: u128 = two_to(apart);
        proof {
            powers_within(apart, 64);
            assert(m * lift <= 2 * SPAN * 0x1_0000_0000_0000_0000u128) by (nonlinear_arith)
                requires
                    m <= 2 * SPAN,
                    lift <= 0x1_0000_0000_0000_0000u128,
            ;
            assert(m * lift >= 0) by (nonlinear_arith);
        }
        let total: u128 = m as u128 * lift + n as u128;
        proof {
            vstd::arithmetic::power2::lemma_pow2_adds(apart as nat, y as nat);
            let c = pow2(y as nat);
            vstd::arithmetic::power2::lemma_pow2_pos(y as nat);
            assert(total * c == m * (lift * c) + n * c) by (nonlinear_arith)
                requires
                    total == m * lift + n,
            ;
            assert(m * lift > 0) by (nonlinear_arith)
                requires
                    m > 0,
                    lift > 0,
            ;
            exactly_at(p, total as nat, y);
        }
        rounded(total, false, y as i32, Ghost(p), Ghost(1))
    } else {
        if n == 0 {
            proof {
                values_stay(a as nat);
                assert(n * pow2(y as nat) == 0) by (nonlinear_arith)
                    requires
                        n == 0,
                ;
            }
            return a;
        }
        let raised: u128 = m as u128 * 1024;
        let e: i32 = x as i32 - 10;
        proof {
            far_apart(n as nat, x as nat, y as nat);
            let c = pow2(e as nat);
            vstd::arithmetic::power2::lemma_pow2_adds(10, e as nat);
            assert(pow2(x as nat) == 1024 * c);
            assert(raised * c == m * (1024 * c)) by (nonlinear_arith)
                requires
                    raised == m * 1024,
            ;
            let small = n * pow2(y as nat);
            assert(small > 0) by {
                vstd::arithmetic::power2::lemma_pow2_pos(y as nat);
                assert(n * pow2(y as nat) > 0) by (nonlinear_arith)
                    requires
                        n > 0,
                        pow2(y as nat) > 0,
                ;
            }
            just_above(p, raised as nat, e, small as nat);
        }
        rounded(raised, true, e, Ghost(p), Ghost(1))
    }
}

pub(crate) fn subtracted(a: u64, b: u64) -> (r: u64)
    requires
        b < a < INFINITY_BITS,
    ensures
        r <= INFINITY_BITS,
        r == nearest((units(a as nat) - units(b as nat)) as nat, 1),
{
    let (m, x) = taken_apart(a);
    let (n, y) = taken_apart(b);
    let ghost p = (units(a as nat) - units(b as nat)) as nat;
    proof {
        magnitudes_grow(b as nat, a as nat);
        ordered_powers(a, b, m, x, n, y);
        vstd::arithmetic::power2::lemma2_to64();
        vstd::arithmetic::power2::lemma2_to64_rest();
    }
    let apart: u32 = x - y;
    if apart <= 64 {
        let lift: u128 = two_to(apart);
        proof {
            powers_within(apart, 64);
            assert(m * lift <= 2 * SPAN * 0x1_0000_0000_0000_0000u128) by (nonlinear_arith)
                requires
                    m <= 2 * SPAN,
                    lift <= 0x1_0000_0000_0000_0000u128,
            ;
            assert(m * lift >= 0) by (nonlinear_arith);
            vstd::arithmetic::power2::lemma_pow2_adds(apart as nat, y as nat);
            let c = pow2(y as nat);
            vstd::arithmetic::power2::lemma_pow2_pos(y as nat);
            assert(m * (lift * c) == (m * lift) * c) by (nonlinear_arith);
            assert(m * lift > n) by (nonlinear_arith)
                requires
                    (m * lift) * c > n * c,
                    c > 0,
            ;
        }
        let rest: u128 = m as u128 * lift - n as u128;
        proof {
            let c = pow2(y as nat);
            assert(rest * c == (m * lift) * c - n * c) by (nonlinear_arith)
                requires
                    rest == m * lift - n,
            ;
            exactly_at(p, rest as nat, y);
        }
        rounded(rest, false, y as i32, Ghost(p), Ghost(1))
    } else {
        if n == 0 {
            proof {
                values_stay(a as nat);
                assert(n * pow2(y as nat) == 0) by (nonlinear_arith)
                    requires
                        n == 0,
                ;
            }
            return a;
        }
        let lowered: u128 = m as u128 * 1024 - 1;
        let e: i32 = x as i32 - 10;
        proof {
            far_apart(n as nat, x as nat, y as nat);
            let c = pow2(e as nat);
            vstd::arithmetic::power2::lemma_pow2_adds(10, e as nat);
            assert(pow2(x as nat) == 1024 * c);
            assert(lowered * c + c == m * (1024 * c)) by (nonlinear_arith)
                requires
                    lowered == m * 1024 - 1,
            ;
            let small = n * pow2(y as nat);
            assert(small > 0) by {
                vstd::arithmetic::power2::lemma_pow2_pos(y as nat);
                assert(n * pow2(y as nat) > 0) by (nonlinear_arith)
                    requires
                        n > 0,
                        pow2(y as nat) > 0,
                ;
            }
            just_above(p, lowered as nat, e, (c - small) as nat);
        }
        rounded(lowered, true, e, Ghost(p), Ghost(1))
    }
}

proof fn ordered_powers(a: u64, b: u64, m: u64, x: u32, n: u64, y: u32)
    requires
        b <= a < INFINITY_BITS,
        units(a as nat) == m * pow2(x as nat),
        units(b as nat) == n * pow2(y as nat),
        m < 2 * SPAN,
        n < 2 * SPAN,
        y > 0 ==> n >= SPAN,
    ensures
        y <= x,
{
    if b < a {
        magnitudes_grow(b as nat, a as nat);
    }
    if x < y {
        let c = pow2(x as nat);
        vstd::arithmetic::power2::lemma_pow2_pos(x as nat);
        vstd::arithmetic::power2::lemma_pow2_unfold(y as nat);
        if x < y - 1 {
            vstd::arithmetic::power2::lemma_pow2_strictly_increases(x as nat, (y - 1) as nat);
        }
        let d = pow2(y as nat);
        assert(n * d > m * c) by (nonlinear_arith)
            requires
                d >= 2 * c,
                n >= SPAN,
                m < 2 * SPAN,
                c > 0,
        {
            assert(n * d >= SPAN * (2 * c));
            assert(m * c < (2 * SPAN) * c);
        }
    }
}

proof fn exactly_at(p: nat, m: nat, e: u32)
    requires
        p == m * pow2(e as nat),
    ensures
        lies_at(p, 1, m, false, e as int),
{
    vstd::arithmetic::power2::lemma2_to64();
    let c = pow2(e as nat);
    vstd::arithmetic::power2::lemma_pow2_pos(e as nat);
    assert(up(e as int) == c);
    assert(down(e as int) == 1);
    assert((m + 1) * c == m * c + c) by (nonlinear_arith);
    assert(m * c * 1 == m * c);
    assert((m + 1) * c * 1 == (m + 1) * c);
    assert(p * 1 == p);
}

proof fn just_above(p: nat, m: nat, e: i32, extra: nat)
    requires
        e >= 0,
        p == m * pow2(e as nat) + extra,
        0 < extra < pow2(e as nat),
    ensures
        lies_at(p, 1, m, true, e as int),
{
    vstd::arithmetic::power2::lemma2_to64();
    let c = pow2(e as nat);
    assert(up(e as int) == c);
    assert(down(e as int) == 1);
    assert((m + 1) * c == m * c + c) by (nonlinear_arith);
    assert(m * c * 1 == m * c);
    assert((m + 1) * c * 1 == (m + 1) * c);
    assert(p * 1 == p);
}

proof fn far_apart(n: nat, x: nat, y: nat)
    requires
        n < 2 * SPAN,
        x > y + 64,
    ensures
        n * pow2(y) < pow2((x - 10) as nat),
{
    vstd::arithmetic::power2::lemma2_to64();
    vstd::arithmetic::power2::lemma2_to64_rest();
    let c = pow2(y);
    vstd::arithmetic::power2::lemma_pow2_pos(y);
    vstd::arithmetic::power2::lemma_pow2_adds(53, y);
    vstd::arithmetic::power2::lemma_pow2_strictly_increases(53 + y, (x - 10) as nat);
    assert(n * c <= pow2(53) * c) by (nonlinear_arith)
        requires
            n <= pow2(53),
    ;
}

pub(crate) fn multiplied(a: u64, b: u64) -> (r: u64)
    requires
        a < INFINITY_BITS,
        b < INFINITY_BITS,
    ensures
        r <= INFINITY_BITS,
        r == nearest(units(a as nat) * units(b as nat), one_in_units()),
{
    let ghost p = units(a as nat) * units(b as nat);
    proof {
        vstd::arithmetic::power2::lemma_pow2_pos(UNIT_POWER as nat);
    }
    if a == 0 || b == 0 {
        proof {
            assert(p == 0) by (nonlinear_arith)
                requires
                    units(a as nat) == 0 || units(b as nat) == 0,
                    p == units(a as nat) * units(b as nat),
            ;
            zero_stays_zero(one_in_units());
        }
        return 0;
    }
    let (m, x) = taken_apart(a);
    let (n, y) = taken_apart(b);
    proof {
        assert(0 < m * n < 4 * SPAN * SPAN) by (nonlinear_arith)
            requires
                0 < m < 2 * SPAN,
                0 < n < 2 * SPAN,
        ;
    }
    let all: u128 = m as u128 * n as u128;
    let e: i32 = x as i32 + y as i32 - UNIT_POWER as i32;
    proof {
        vstd::arithmetic::power2::lemma2_to64();
        let w = one_in_units();
        let both = (x + y) as nat;
        vstd::arithmetic::power2::lemma_pow2_adds(x as nat, y as nat);
        let c = pow2(x as nat);
        let d = pow2(y as nat);
        assert(p == all * pow2(both)) by (nonlinear_arith)
            requires
                p == (m * c) * (n * d),
                all == m * n,
                pow2(both) == c * d,
        ;
        if e >= 0 {
            vstd::arithmetic::power2::lemma_pow2_adds(e as nat, UNIT_POWER as nat);
            assert(e as nat + UNIT_POWER as nat == both);
            let f = pow2(e as nat);
            vstd::arithmetic::power2::lemma_pow2_pos(e as nat);
            assert(up(e as int) == f);
            assert(down(e as int) == 1);
            assert(p * 1 == p);
            assert(all * f * w == all * (f * w)) by (nonlinear_arith);
            assert((all + 1) * f * w == all * f * w + f * w) by (nonlinear_arith);
            assert(f * w > 0) by (nonlinear_arith)
                requires
                    f > 0,
                    w > 0,
            ;
        } else {
            vstd::arithmetic::power2::lemma_pow2_adds(both, (-e) as nat);
            assert(both + (-e) as nat == UNIT_POWER as nat);
            let f = pow2((-e) as nat);
            assert(down(e as int) == f);
            assert(up(e as int) == 1);
            assert(p * f == all * w) by (nonlinear_arith)
                requires
                    p == all * pow2(both),
                    w == pow2(both) * f,
            ;
            assert(all * 1 * w == all * w);
            assert((all + 1) * 1 * w == all * w + w) by (nonlinear_arith);
        }
    }
    rounded(all, false, e, Ghost(p), Ghost(one_in_units()))
}

pub(crate) fn divided(a: u64, b: u64) -> (r: u64)
    requires
        a < INFINITY_BITS,
        0 < b < INFINITY_BITS,
    ensures
        r <= INFINITY_BITS,
        r == nearest(units(a as nat) * one_in_units(), units(b as nat)),
{
    let ghost p = units(a as nat) * one_in_units();
    let ghost q = units(b as nat);
    proof {
        magnitudes_grow(0, b as nat);
        vstd::arithmetic::power2::lemma_pow2_pos(UNIT_POWER as nat);
    }
    if a == 0 {
        proof {
            assert(p == 0) by (nonlinear_arith)
                requires
                    units(a as nat) == 0,
                    p == units(a as nat) * one_in_units(),
            ;
            zero_stays_zero(q);
        }
        return 0;
    }
    let (m, x) = taken_apart(a);
    let (n, y) = taken_apart(b);
    // Both with their leading digit in the same place.
    let (top, i) = lifted(m);
    let (bottom, j) = lifted(n);
    let raised: u128 = top as u128 * 0x1_0000_0000_0000_0000;
    let ratio: u128 = raised / bottom as u128;
    let rest: u128 = raised % bottom as u128;
    let e: i32 = x as i32 - i as i32 + UNIT_POWER as i32 - y as i32 + j as i32 - 64;
    proof {
        vstd::arithmetic::power2::lemma2_to64();
        vstd::arithmetic::div_mod::lemma_fundamental_div_mod(raised as int, bottom as int);
        assert(raised == ratio * bottom + rest) by (nonlinear_arith)
            requires
                raised == bottom * ratio + rest,
        ;
        assert(ratio >= 4 * SPAN) by (nonlinear_arith)
            requires
                raised == ratio * bottom + rest,
                rest < bottom,
                raised >= SPAN * 0x1_0000_0000_0000_0000,
                bottom < 2 * SPAN,
                bottom > 0,
        {
            assert((ratio + 1) * bottom > raised);
            assert((ratio + 1) * (2 * SPAN) >= (ratio + 1) * bottom);
        }
        assert(ratio < 0x8000_0000_0000_0000_0000_0000_0000_0000) by (nonlinear_arith)
            requires
                raised == ratio * bottom + rest,
                raised < 2 * SPAN * 0x1_0000_0000_0000_0000,
                bottom >= 1,
                rest >= 0,
        {
            assert(ratio * bottom >= ratio);
        }
        ratio_lies(
            p,
            q,
            m as nat,
            x as nat,
            n as nat,
            y as nat,
            top as nat,
            i as nat,
            bottom as nat,
            j as nat,
            ratio as nat,
            rest as nat,
            e as int,
        );
    }
    rounded(ratio, rest > 0, e, Ghost(p), Ghost(q))
}

/// `m` with its leading digit moved to where `SPAN` has its own, and by how
/// far.
fn lifted(m: u64) -> (r: (u64, u32))
    requires
        0 < m < 2 * SPAN,
    ensures
        SPAN <= r.0 < 2 * SPAN,
        r.0 == m * pow2(r.1 as nat),
        r.1 < 53,
{
    let length: u32 = digits(m as u128);
    proof {
        vstd::arithmetic::power2::lemma2_to64();
        vstd::arithmetic::power2::lemma2_to64_rest();
        assert(pow2(53) == 2 * SPAN && pow2(52) == SPAN);
        if length > 53 {
            powers_within(53, (length - 1) as u32);
        }
    }
    let by: u32 = 53 - length;
    let factor: u128 = two_to(by);
    proof {
        vstd::arithmetic::power2::lemma_pow2_adds(length as nat, by as nat);
        vstd::arithmetic::power2::lemma_pow2_adds((length - 1) as nat, by as nat);
        assert(length - 1 + by == 52);
        let h = pow2(length as nat);
        let l = pow2((length - 1) as nat);
        assert(l * factor <= m * factor < h * factor) by (nonlinear_arith)
            requires
                l <= m < h,
                factor > 0,
        ;
    }
    ((m as u128 * factor) as u64, by)
}

proof fn ratio_lies(
    p: nat,
    q: nat,
    m: nat,
    x: nat,
    n: nat,
    y: nat,
    top: nat,
    i: nat,
    bottom: nat,
    j: nat,
    ratio: nat,
    rest: nat,
    e: int,
)
    requires
        p == (m * pow2(x)) * one_in_units(),
        q == n * pow2(y),
        top == m * pow2(i),
        bottom == n * pow2(j),
        top * 0x1_0000_0000_0000_0000 == ratio * bottom + rest,
        rest < bottom,
        e == x - i + UNIT_POWER - y + j - 64,
    ensures
        lies_at(p, q, ratio, rest > 0, e),
{
    vstd::arithmetic::power2::lemma2_to64();
    let above: nat = if e > 0 {
        e as nat
    } else {
        0
    };
    let under: nat = if e < 0 {
        (-e) as nat
    } else {
        0
    };
    let unit = UNIT_POWER as nat;
    // Everything is measured in `scale`, raised by `i` and `j`.
    let scale = pow2(above + y + i);
    vstd::arithmetic::power2::lemma_pow2_pos(above + y + i);
    let both = pow2(i + j);
    vstd::arithmetic::power2::lemma_pow2_pos(i + j);
    vstd::arithmetic::power2::lemma_pow2_adds(i, j);
    let exact = p * down(e);
    assert(exact * both == (top * 0x1_0000_0000_0000_0000) * scale) by {
        vstd::arithmetic::power2::lemma_pow2_adds(x, unit);
        vstd::arithmetic::power2::lemma_pow2_adds(x + unit, under);
        vstd::arithmetic::power2::lemma_pow2_adds(x + unit + under, j);
        vstd::arithmetic::power2::lemma_pow2_adds(64, above + y + i);
        assert(x + unit + under + j == 64 + (above + y + i));
        let a = pow2(x);
        let b = pow2(unit);
        let c = pow2(under);
        let d = pow2(i);
        let f = pow2(j);
        assert(((m * a) * b) * c * (d * f) == (m * d) * (((a * b) * c) * f)) by (nonlinear_arith);
        assert(top * (0x1_0000_0000_0000_0000 * scale) == (top * 0x1_0000_0000_0000_0000) * scale)
            by (nonlinear_arith);
    }
    let step = up(e) * q;
    assert(step * both == bottom * scale) by {
        vstd::arithmetic::power2::lemma_pow2_adds(above, y);
        vstd::arithmetic::power2::lemma_pow2_adds(above + y, i);
        let a = pow2(above);
        let b = pow2(y);
        let d = pow2(i);
        let f = pow2(j);
        assert((a * (n * b)) * (d * f) == (n * f) * ((a * b) * d)) by (nonlinear_arith);
    }
    let low = ratio * step;
    assert(low * both == ratio * bottom * scale) by (nonlinear_arith)
        requires
            low == ratio * step,
            step * both == bottom * scale,
    ;
    assert(exact * both == low * both + rest * scale) by (nonlinear_arith)
        requires
            exact * both == (top * 0x1_0000_0000_0000_0000) * scale,
            top * 0x1_0000_0000_0000_0000 == ratio * bottom + rest,
            low * both == ratio * bottom * scale,
    ;
    assert(rest * scale < step * both) by (nonlinear_arith)
        requires
            step * both == bottom * scale,
            rest < bottom,
            scale > 0,
    ;
    assert(low <= exact) by (nonlinear_arith)
        requires
            exact * both == low * both + rest * scale,
            both > 0,
            rest * scale >= 0,
    ;
    assert(exact < low + step) by (nonlinear_arith)
        requires
            exact * both == low * both + rest * scale,
            rest * scale < step * both,
            both > 0,
    {
        assert((low + step) * both == low * both + step * both);
    }
    if rest > 0 {
        assert(low < exact) by (nonlinear_arith)
            requires
                exact * both == low * both + rest * scale,
                rest > 0,
                scale > 0,
                both > 0,
        {
            assert(rest * scale > 0);
        }
    } else {
        assert(low == exact) by (nonlinear_arith)
            requires
                exact * both == low * both + rest * scale,
                rest == 0,
                both > 0,
        ;
    }
    let u = up(e);
    assert(ratio * u * q == low) by (nonlinear_arith)
        requires
            low == ratio * step,
            step == u * q,
    ;
    assert((ratio + 1) * u * q == low + step) by (nonlinear_arith)
        requires
            low == ratio * step,
            step == u * q,
    ;
}

proof fn factors_cancel(c: nat, a: nat, b: nat)
    requires
        c > 0,
        b > 0,
    ensures
        (c * a) / (c * b) == a / b,
{
    let k = a / b;
    let r = a % b;
    vstd::arithmetic::div_mod::lemma_fundamental_div_mod(a as int, b as int);
    assert(c * a == k * (c * b) + c * r) by (nonlinear_arith)
        requires
            a == b * k + r,
    ;
    assert(0 <= c * r < c * b) by (nonlinear_arith)
        requires
            0 <= r < b,
            c > 0,
    ;
    vstd::arithmetic::div_mod::lemma_fundamental_div_mod_converse(
        (c * a) as int,
        (c * b) as int,
        k as int,
        (c * r) as int,
    );
}

/// The whole part of a finite magnitude, whether there is more, and whether
/// what is more comes to at least a half.
pub(crate) fn whole_part(mag: u64) -> (r: Option<(u64, bool, bool)>)
    requires
        mag < INFINITY_BITS,
    ensures
        match r {
            Some((n, more, half)) => {
                &&& n < 2 * SPAN
                &&& n == units(mag as nat) / one_in_units()
                &&& more == (units(mag as nat) % one_in_units() > 0)
                &&& half == (2 * (units(mag as nat) % one_in_units()) >= one_in_units())
            },
            None => units(mag as nat) % one_in_units() == 0,
        },
        one_in_units() > 0,
{
    let (m, x) = taken_apart(mag);
    let ghost one = one_in_units();
    let ghost part = pow2(x as nat);
    proof {
        vstd::arithmetic::power2::lemma2_to64();
        vstd::arithmetic::power2::lemma2_to64_rest();
        vstd::arithmetic::power2::lemma_pow2_pos(x as nat);
        vstd::arithmetic::power2::lemma_pow2_pos(UNIT_POWER as nat);
    }
    if x >= UNIT_POWER {
        proof {
            let power = (x - UNIT_POWER) as nat;
            vstd::arithmetic::power2::lemma_pow2_adds(power, UNIT_POWER as nat);
            let lift = pow2(power);
            assert(m * part == (m * lift) * one) by (nonlinear_arith)
                requires
                    part == lift * one,
            ;
            vstd::arithmetic::div_mod::lemma_fundamental_div_mod_converse(
                m * part,
                one as int,
                m * lift,
                0,
            );
        }
        return None;
    }
    let places: u32 = UNIT_POWER - x;
    let ghost cut = pow2(places as nat);
    proof {
        vstd::arithmetic::power2::lemma_pow2_adds(x as nat, places as nat);
        vstd::arithmetic::power2::lemma_pow2_pos(places as nat);
    }
    if places > 60 {
        proof {
            powers_within(60, places);
            assert(2 * (m * part) < one) by (nonlinear_arith)
                requires
                    one == part * cut,
                    2 * m < cut,
                    part > 0,
            ;
            assert(0 <= m * part) by (nonlinear_arith)
                requires
                    part > 0,
            ;
            vstd::arithmetic::div_mod::lemma_fundamental_div_mod_converse(
                m * part,
                one as int,
                0,
                m * part,
            );
            if m > 0 {
                assert(m * part > 0) by (nonlinear_arith)
                    requires
                        m > 0,
                        part > 0,
                ;
            } else {
                assert(0 * part == 0);
            }
        }
        return Some((0, m > 0, false));
    }
    let divisor: u128 = two_to(places);
    let n: u128 = m as u128 / divisor;
    let rest: u128 = m as u128 % divisor;
    proof {
        vstd::arithmetic::div_mod::lemma_fundamental_div_mod(m as int, divisor as int);
        assert(m == n * divisor + rest) by (nonlinear_arith)
            requires
                m == divisor * n + rest,
        ;
        assert(n <= m) by (nonlinear_arith)
            requires
                m == n * divisor + rest,
                divisor >= 1,
                rest >= 0,
        ;
        assert(m * part == n * one + rest * part) by (nonlinear_arith)
            requires
                m == n * divisor + rest,
                one == part * divisor,
        ;
        assert(0 <= rest * part < one) by (nonlinear_arith)
            requires
                0 <= rest < divisor,
                one == part * divisor,
                part > 0,
        ;
        vstd::arithmetic::div_mod::lemma_fundamental_div_mod_converse(
            m * part,
            one as int,
            n as int,
            rest * part,
        );
        if rest > 0 {
            assert(rest * part > 0) by (nonlinear_arith)
                requires
                    rest > 0,
                    part > 0,
            ;
        } else {
            assert(0 * part == 0);
        }
        if 2 * rest >= divisor {
            assert(2 * (rest * part) >= one) by (nonlinear_arith)
                requires
                    2 * rest >= divisor,
                    one == part * divisor,
                    part > 0,
            ;
        } else {
            assert(2 * (rest * part) < one) by (nonlinear_arith)
                requires
                    2 * rest < divisor,
                    one == part * divisor,
                    part > 0,
            ;
        }
    }
    Some((n as u64, rest > 0, 2 * rest >= divisor))
}

pub(crate) proof fn rounding_by_parts(u: nat, one: nat)
    requires
        one > 0,
    ensures
        (2 * u + one) / (2 * one) == u / one + if 2 * (u % one) >= one {
            1int
        } else {
            0
        },
        (u + one - 1) as nat / one == u / one + if u % one > 0 {
            1int
        } else {
            0
        },
{
    let n = u / one;
    let rest = u % one;
    vstd::arithmetic::div_mod::lemma_fundamental_div_mod(u as int, one as int);
    assert(u == n * one + rest) by (nonlinear_arith)
        requires
            u == one * n + rest,
    ;
    if 2 * rest >= one {
        assert(2 * u + one == (n + 1) * (2 * one) + (2 * rest - one)) by (nonlinear_arith)
            requires
                u == n * one + rest,
        ;
        vstd::arithmetic::div_mod::lemma_fundamental_div_mod_converse(
            (2 * u + one) as int,
            (2 * one) as int,
            (n + 1) as int,
            2 * rest - one,
        );
    } else {
        assert(2 * u + one == n * (2 * one) + (2 * rest + one)) by (nonlinear_arith)
            requires
                u == n * one + rest,
        ;
        vstd::arithmetic::div_mod::lemma_fundamental_div_mod_converse(
            (2 * u + one) as int,
            (2 * one) as int,
            n as int,
            (2 * rest + one) as int,
        );
    }
    if rest > 0 {
        assert(u + one - 1 == (n + 1) * one + (rest - 1)) by (nonlinear_arith)
            requires
                u == n * one + rest,
        ;
        vstd::arithmetic::div_mod::lemma_fundamental_div_mod_converse(
            u + one - 1,
            one as int,
            (n + 1) as int,
            rest - 1,
        );
    } else {
        assert(u + one - 1 == n * one + (one - 1)) by (nonlinear_arith)
            requires
                u == n * one + rest,
                rest == 0,
        ;
        vstd::arithmetic::div_mod::lemma_fundamental_div_mod_converse(
            u + one - 1,
            one as int,
            n as int,
            one - 1,
        );
    }
}

/// The magnitude nearest to a whole number.
pub(crate) fn nearest_to_whole(n: u64) -> (r: u64)
    ensures
        r <= INFINITY_BITS,
        r == nearest(n as nat * one_in_units(), 1),
{
    if n == 0 {
        proof {
            zero_stays_zero(1);
            assert(0 * one_in_units() == 0);
        }
        return 0;
    }
    let ghost p = (n * one_in_units()) as nat;
    proof {
        exactly_at(p, n as nat, UNIT_POWER);
    }
    rounded(n as u128, false, UNIT_POWER as i32, Ghost(p), Ghost(1))
}

/// A finite magnitude rounded to a whole number, halves upwards, and held
/// within `max`.
pub(crate) fn rounded_whole(mag: u64, max: u32) -> (r: u32)
    requires
        mag < INFINITY_BITS,
    ensures
        ({
            let n = (2 * units(mag as nat) + one_in_units()) / (2 * one_in_units());
            r == if n > max {
                max as nat
            } else {
                n
            }
        }),
{
    let (m, x) = taken_apart(mag);
    let ghost one = one_in_units();
    let ghost part = pow2(x as nat);
    proof {
        vstd::arithmetic::power2::lemma2_to64();
        vstd::arithmetic::power2::lemma2_to64_rest();
        vstd::arithmetic::power2::lemma_pow2_pos(x as nat);
        vstd::arithmetic::power2::lemma_pow2_pos(UNIT_POWER as nat);
    }
    if x >= UNIT_POWER {
        let power: u32 = x - UNIT_POWER;
        let ghost lift = pow2(power as nat);
        proof {
            vstd::arithmetic::power2::lemma_pow2_adds(power as nat, UNIT_POWER as nat);
            // A whole number plus a half.
            let all = 2 * (m * part) + one;
            assert(all == (m * lift) * (2 * one) + one) by (nonlinear_arith)
                requires
                    all == 2 * (m * part) + one,
                    part == lift * one,
            ;
            vstd::arithmetic::div_mod::lemma_fundamental_div_mod_converse(
                all as int,
                (2 * one) as int,
                (m * lift) as int,
                one as int,
            );
        }
        if power >= 32 {
            proof {
                powers_within(32, power);
                assert(m * lift > u32::MAX) by (nonlinear_arith)
                    requires
                        m >= SPAN,
                        lift >= 1,
                ;
            }
            return max;
        }
        let factor: u128 = two_to(power);
        proof {
            powers_within(power, 32);
            assert(0 <= m * factor <= 2 * SPAN * 0x1_0000_0000) by (nonlinear_arith)
                requires
                    0 <= m <= 2 * SPAN,
                    0 < factor <= 0x1_0000_0000,
            ;
        }
        let n: u128 = m as u128 * factor;
        if n > max as u128 {
            max
        } else {
            n as u32
        }
    } else {
        let places: u32 = UNIT_POWER - x;
        let ghost cut = pow2(places as nat);
        proof {
            vstd::arithmetic::power2::lemma_pow2_adds(x as nat, places as nat);
            vstd::arithmetic::power2::lemma_pow2_pos(places as nat);
            assert(2 * (m * part) + one == part * (2 * m + cut)) by (nonlinear_arith)
                requires
                    one == part * cut,
            ;
            assert(2 * one == part * (2 * cut)) by (nonlinear_arith)
                requires
                    one == part * cut,
            ;
            factors_cancel(part, (2 * m + cut) as nat, 2 * cut);
        }
        if places > 60 {
            proof {
                powers_within(60, places);
                vstd::arithmetic::div_mod::lemma_fundamental_div_mod_converse(
                    2 * m + cut,
                    2 * cut as int,
                    0,
                    2 * m + cut,
                );
            }
            return 0;
        }
        let divisor: u128 = two_to(places);
        proof {
            powers_within(places, 60);
        }
        let n: u128 = (2 * m as u128 + divisor) / (2 * divisor);
        if n > max as u128 {
            max
        } else {
            n as u32
        }
    }
}

} // verus!
