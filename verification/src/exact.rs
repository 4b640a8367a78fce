//! Whole numbers below two to the power of 53: sums, differences, products
//! and whole quotients of them come out exactly.

use crate::quantity::Quantity;
use vstd::prelude::*;

verus! {

use crate::binary::{
    difference, exact_values_stay, is_finite, is_negative, negated, one_in_units,
    only_zeros_have_no_size, product, quotient, size, small_wholes_are_exact, sum, value, whole,
    with_sign,
};
use crate::folds::extent;

/// Whether a quantity is the whole number `n`.
pub open spec fn is_at(q: Quantity, n: int) -> bool {
    is_finite(q) && value(q) == n * one_in_units()
}

/// Whether a whole number is small enough to be told from its neighbours.
pub open spec fn is_small(n: int) -> bool {
    extent(n) < 0x20_0000_0000_0000
}

/// Small whole numbers are written as they are.
pub proof fn wholes_are_at(n: nat)
    requires
        is_small(n as int),
    ensures
        is_at(whole(n), n as int),
        !is_negative(whole(n)),
{
    small_wholes_are_exact(n);
}

/// So are negative ones.
pub proof fn signed_wholes_are_at(n: int)
    requires
        is_small(n),
    ensures
        is_at(crate::binary::signed_whole(n), n),
{
    let one = one_in_units() as int;
    wholes_are_at(extent(n) as nat);
    assert((-n) * one == -(n * one)) by (nonlinear_arith);
}

/// The size of a whole number.
pub proof fn sizes_at(q: Quantity, n: int)
    requires
        is_at(q, n),
    ensures
        size(q) == extent(n) * one_in_units(),
        one_in_units() > 0,
        n > 0 ==> !is_negative(q) && size(q) > 0,
        n < 0 ==> is_negative(q) && size(q) > 0,
        n == 0 ==> size(q) == 0,
{
    let one = one_in_units() as int;
    small_wholes_are_exact(1);
    assert((-n) * one == -(n * one)) by (nonlinear_arith);
    assert(n > 0 ==> n * one > 0) by (nonlinear_arith)
        requires
            one > 0,
    ;
    assert(n < 0 ==> n * one < 0) by (nonlinear_arith)
        requires
            one > 0,
    ;
    assert(0 * one == 0);
}

/// What rounds to a small whole number of units is that number.
proof fn small_values_are_at(q: Quantity, negative: bool, n: nat)
    requires
        is_small(n as int),
        q == with_sign(negative, crate::binary::nearest(n * one_in_units(), 1)),
    ensures
        is_at(
            q,
            if negative {
                -(n as int)
            } else {
                n as int
            },
        ),
{
    let one = one_in_units() as int;
    small_wholes_are_exact(n);
    let w = whole(n);
    crate::binary::nearest_exists(n * one_in_units(), 1);
    assert(q.magnitude() == w.magnitude());
    assert((-(n as int)) * one == -(n * one)) by (nonlinear_arith);
}

/// A sum of whole numbers.
pub proof fn sums_at(a: Quantity, b: Quantity, m: int, n: int)
    requires
        is_at(a, m),
        is_at(b, n),
        is_small(m + n),
    ensures
        is_at(sum(a, b), m + n),
{
    let one = one_in_units() as int;
    small_wholes_are_exact(1);
    assert(m * one + n * one == (m + n) * one) by (nonlinear_arith);
    let exact = value(a) + value(b);
    let k = extent(m + n) as nat;
    assert((-(m + n)) * one == -((m + n) * one)) by (nonlinear_arith);
    if m + n == 0 {
        assert(0 * one == 0);
    } else if m + n > 0 {
        assert((m + n) * one > 0) by (nonlinear_arith)
            requires
                m + n > 0,
                one > 0,
        ;
        small_values_are_at(sum(a, b), false, k);
    } else {
        assert((m + n) * one < 0) by (nonlinear_arith)
            requires
                m + n < 0,
                one > 0,
        ;
        small_values_are_at(sum(a, b), true, k);
    }
}

/// A difference of whole numbers.
pub proof fn differences_at(a: Quantity, b: Quantity, m: int, n: int)
    requires
        is_at(a, m),
        is_at(b, n),
        is_small(m - n),
    ensures
        is_at(difference(a, b), m - n),
{
    let one = one_in_units() as int;
    assert((-n) * one == -(n * one)) by (nonlinear_arith);
    assert(is_at(negated(b), -n));
    sums_at(a, negated(b), m, -n);
}

/// A product of whole numbers.
pub proof fn products_at(a: Quantity, b: Quantity, m: int, n: int)
    requires
        is_at(a, m),
        is_at(b, n),
        is_small(m * n),
    ensures
        is_at(product(a, b), m * n),
{
    let one = one_in_units() as int;
    sizes_at(a, m);
    sizes_at(b, n);
    let k = extent(m * n) as nat;
    assert(k == extent(m) * extent(n)) by (nonlinear_arith)
        requires
            k == extent(m * n),
    ;
    small_wholes_are_exact(k);
    exact_values_stay(whole(k).magnitude() as nat, one_in_units());
    let (x, y) = (extent(m), extent(n));
    assert((x * one) * (y * one) == (k * one) * one) by (nonlinear_arith)
        requires
            k == x * y,
    ;
    let p = product(a, b);
    assert(p.magnitude() == whole(k).magnitude());
    assert((-(m * n)) * one == -((m * n) * one)) by (nonlinear_arith);
    if m * n == 0 {
        assert(0 * one == 0);
        only_zeros_have_no_size(p);
    } else {
        assert(m != 0 && n != 0) by (nonlinear_arith)
            requires
                m * n != 0,
        ;
        assert((m * n > 0) == ((m > 0) == (n > 0))) by (nonlinear_arith)
            requires
                m != 0,
                n != 0,
        ;
    }
}

/// A quotient of whole numbers that comes out whole.
pub proof fn quotients_at(a: Quantity, b: Quantity, k: int, n: int)
    requires
        is_at(a, k * n),
        is_at(b, n),
        n != 0,
        is_small(k),
    ensures
        is_at(quotient(a, b), k),
{
    let one = one_in_units() as int;
    sizes_at(a, k * n);
    sizes_at(b, n);
    let x = extent(k) as nat;
    assert(extent(k * n) == x * extent(n)) by (nonlinear_arith)
        requires
            x == extent(k),
    ;
    small_wholes_are_exact(x);
    only_zeros_have_no_size(b);
    exact_values_stay(whole(x).magnitude() as nat, size(b));
    let y = extent(n);
    assert(((x * y) * one) * one == (x * one) * (y * one)) by (nonlinear_arith);
    let q = quotient(a, b);
    assert(q.magnitude() == whole(x).magnitude());
    assert((-k) * one == -(k * one)) by (nonlinear_arith);
    if k == 0 {
        assert(0 * one == 0);
        only_zeros_have_no_size(q);
    } else {
        assert((k > 0) == ((k * n > 0) == (n > 0))) by (nonlinear_arith)
            requires
                k != 0,
                n != 0,
        ;
        assert(k * n != 0) by (nonlinear_arith)
            requires
                k != 0,
                n != 0,
        ;
    }
}

/// Whole numbers compare as they should.
pub proof fn orders_at(a: Quantity, b: Quantity, m: int, n: int)
    requires
        is_at(a, m),
        is_at(b, n),
    ensures
        a.less(b) <==> m < n,
        a.at_most(b) <==> m <= n,
{
    let one = one_in_units() as int;
    small_wholes_are_exact(1);
    crate::binary::order_is_that_of_values(a, b);
    assert((m < n) == (m * one < n * one)) by (nonlinear_arith)
        requires
            one > 0,
    ;
    assert((m <= n) == (m * one <= n * one)) by (nonlinear_arith)
        requires
            one > 0,
    ;
}

/// The nearest whole number is at most half away, and a half goes away from
/// zero.
pub proof fn nearest_wholes_are_half_away(a: Quantity) -> (k: int)
    requires
        is_finite(a),
        size(a) < 0x10_0000_0000_0000 * one_in_units(),
    ensures
        is_at(crate::binary::whole_near(a), k),
        2 * extent(value(a) - k * one_in_units()) <= one_in_units(),
        2 * size(a) < (2 * extent(k) + 1) * one_in_units(),
        k != 0 ==> (k < 0) == is_negative(a),
{
    let one = one_in_units() as int;
    small_wholes_are_exact(1);
    let s = size(a) as int;
    let n = ((2 * s + one) / (2 * one)) as nat;
    assert(n >= 0 && 2 * s < (2 * n + 1) * one && (2 * n - 1) * one <= 2 * s) by (nonlinear_arith)
        requires
            n == (2 * s + one) / (2 * one),
            s >= 0,
            one > 0,
    ;
    assert(n <= 0x10_0000_0000_0000) by (nonlinear_arith)
        requires
            (2 * n - 1) * one <= 2 * s,
            s < 0x10_0000_0000_0000 * one,
            one > 0,
    ;
    assert((2 * n + 1) * one == 2 * (n * one) + one && (2 * n - 1) * one == 2 * (n * one) - one)
        by (nonlinear_arith);
    small_wholes_are_exact(n);
    crate::binary::nearest_exists(n * one_in_units(), 1);
    small_values_are_at(crate::binary::whole_near(a), is_negative(a), n);
    assert((-(n as int)) * one == -(n * one)) by (nonlinear_arith);
    if is_negative(a) {
        -(n as int)
    } else {
        n as int
    }
}

/// What is held within bounds lies within them, and is left as it is where it
/// already did.
pub proof fn bounds_hold(a: Quantity, low: Quantity, high: Quantity)
    requires
        is_finite(a),
        is_finite(low),
        is_finite(high),
        value(low) <= value(high),
    ensures
        value(low) <= value(crate::binary::clamped(a, low, high)) <= value(high),
        value(low) <= value(a) <= value(high) ==> crate::binary::clamped(a, low, high) == a,
        value(a) < value(low) ==> crate::binary::clamped(a, low, high) == low,
        value(a) > value(high) ==> crate::binary::clamped(a, low, high) == high,
{
    crate::binary::order_is_that_of_values(a, low);
    crate::binary::order_is_that_of_values(high, a);
}

/// The lesser of two is no more than either, the greater no less.
pub proof fn lesser_and_greater_are_ordered(a: Quantity, b: Quantity)
    requires
        is_finite(a),
        is_finite(b),
    ensures
        ({
            let (x, y) = (crate::binary::lesser(a, b), crate::binary::greater(a, b));
            &&& value(x) <= value(a) && value(x) <= value(b) && (x == a || x == b)
            &&& value(y) >= value(a) && value(y) >= value(b) && (y == a || y == b)
        }),
{
    crate::binary::order_is_that_of_values(a, b);
    crate::binary::order_is_that_of_values(b, a);
}

/// What a bit pattern writes: its digits, doubled `j` times, against 52
/// doublings.
pub(crate) proof fn patterns_are_at(bits: u64, digits: nat, j: nat, n: nat)
    requires
        j <= 64,
        crate::binary::SPAN <= digits < 2 * crate::binary::SPAN,
        bits == (1022 + j) * crate::binary::SPAN + digits,
        digits * vstd::arithmetic::power2::pow2(j) == n * crate::binary::SPAN,
    ensures
        is_at(Quantity { bits }, n as int),
{
    let span = crate::binary::SPAN as nat;
    crate::binary::put_together(digits, 1022 + j);
    crate::binary::one_is_one();
    crate::binary::put_together(span, 1022);
    assert(crate::quantity::ONE_BITS == 1022 * span + span);
    vstd::arithmetic::power2::lemma_pow2_adds(j, 1022);
    let (a, t) = (vstd::arithmetic::power2::pow2(1022), vstd::arithmetic::power2::pow2(j));
    assert(digits * (t * a) == n * (span * a)) by (nonlinear_arith)
        requires
            digits * t == n * span,
    ;
}

} // verus!
