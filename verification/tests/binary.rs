use raven_power::quantity::Quantity;

fn q(x: f64) -> Quantity {
    Quantity::from_bits(x.to_bits())
}

fn f(x: Quantity) -> f64 {
    f64::from_bits(x.bits)
}

fn agree(ours: Quantity, theirs: f64, what: &str) {
    if theirs.is_nan() {
        assert!(f(ours).is_nan(), "{what}: {} is a number", f(ours));
    } else {
        assert_eq!(ours.bits, theirs.to_bits(), "{what}: {} is not {theirs}", f(ours));
    }
}

fn check(a: f64, b: f64) {
    agree(q(a).plus(q(b)), a + b, &format!("{a:e} + {b:e}"));
    agree(q(a).minus(q(b)), a - b, &format!("{a:e} - {b:e}"));
    agree(q(a).times(q(b)), a * b, &format!("{a:e} * {b:e}"));
    agree(q(a).over(q(b)), a / b, &format!("{a:e} / {b:e}"));
    assert_eq!(q(a).is_less(q(b)), a < b);
    assert_eq!(q(a).is_at_most(q(b)), a <= b);
    agree(q(a).rounded(), a.round(), &format!("{a:e} rounded"));
    agree(q(a).ceil(), a.ceil(), &format!("{a:e} rounded up"));
    assert_eq!(q(a).round(u32::MAX), a.round() as u32, "{a:e} rounded");
    assert_eq!(q(a).round(255) as u8, a.round() as u8, "{a:e} rounded to a byte");
}

fn random(seed: &mut u64) -> u64 {
    *seed ^= *seed << 13;
    *seed ^= *seed >> 7;
    *seed ^= *seed << 17;
    *seed
}

fn with_exponent(bits: u64, exponent: u64) -> f64 {
    f64::from_bits((bits & 0x800F_FFFF_FFFF_FFFF) | (exponent << 52))
}

#[test]
fn arithmetic_agrees_on_edges() {
    let edges = [
        0.0,
        -0.0,
        0.1,
        0.2,
        0.5,
        1.0,
        -1.0,
        1.5,
        2.5,
        3.0,
        1e-310,
        4.9e-324,
        -4.9e-324,
        2.2250738585072014e-308,
        2.225073858507201e-308,
        f64::MAX,
        f64::MIN,
        f64::EPSILON,
        f64::INFINITY,
        f64::NEG_INFINITY,
        f64::NAN,
        9007199254740992.0,
        9007199254740993.0,
        4503599627370497.5,
        1e16,
        1e300,
        1e-300,
        4294967295.0,
        4294967295.5,
        67.2,
        60.5,
    ];
    for a in edges {
        for b in edges {
            check(a, b);
        }
    }
}

#[test]
fn arithmetic_agrees_on_any_bits() {
    let mut seed: u64 = 0x9E37_79B9_7F4A_7C15;
    for _ in 0..40_000 {
        let a = f64::from_bits(random(&mut seed));
        let b = f64::from_bits(random(&mut seed));
        check(a, b);
    }
}

#[test]
fn arithmetic_agrees_on_close_exponents() {
    let mut seed: u64 = 0x0123_4567_89AB_CDEF;
    for i in 0..40_000u64 {
        let a = with_exponent(random(&mut seed), 1000 + i % 64);
        let b = with_exponent(random(&mut seed), 1000 + i % 7);
        check(a, b);
    }
}

#[test]
fn arithmetic_agrees_near_nothing() {
    let mut seed: u64 = 0xFEDC_BA98_7654_3210;
    for i in 0..20_000u64 {
        let a = f64::from_bits(random(&mut seed) >> (12 + i % 40));
        let b = with_exponent(random(&mut seed), 960 + i % 120);
        check(a, b);
        check(b, a);
    }
}

#[test]
fn whole_numbers_agree() {
    let mut seed: u64 = 0xA5A5_5A5A_1234_4321;
    for n in [0u64, 1, 2, 60, 3600, 1_000_000, u64::MAX, u64::MAX - 1, 1 << 53, (1 << 53) + 1] {
        assert_eq!(Quantity::of(n).bits, (n as f64).to_bits());
    }
    for i in 0..20_000u64 {
        let n = random(&mut seed) >> (i % 64);
        assert_eq!(Quantity::of(n).bits, (n as f64).to_bits());
    }
}

#[test]
fn bounds_agree() {
    for a in [-1.0, 0.0, 0.4, 0.5, 1.0, 2.0, 2.1, f64::INFINITY] {
        assert_eq!(q(a).clamp(q(0.5), q(2.0)).bits, a.clamp(0.5, 2.0).to_bits());
        for b in [-1.0, 0.1, 0.5, 3.0, f64::NAN] {
            assert_eq!(q(a).min(q(b)).bits, a.min(b).to_bits());
            assert_eq!(q(a).max(q(b)).bits, a.max(b).to_bits());
        }
    }
    assert_eq!(q(f64::NAN).max(q(2.0)).bits, q(2.0).bits);
    assert_eq!(q(1.5).opposite().bits, q(-1.5).bits);
}

#[test]
fn signed_wholes_agree() {
    for n in [0i64, 1, -1, 90, -90, 4_294_967_295, -4_294_967_295, i64::MAX, -i64::MAX] {
        assert_eq!(Quantity::of_signed(n).bits, (n as f64).to_bits());
    }
}
