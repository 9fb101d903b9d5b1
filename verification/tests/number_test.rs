use dax_rust::number::{
    equal, from_count, greater, is_infinite, is_nan, is_sign_positive, is_zero, same,
    NEGATIVE_INFINITY, POSITIVE_INFINITY, POSITIVE_ZERO, SIGN_BIT,
};

fn samples() -> Vec<f64> {
    vec![
        0.0,
        -0.0,
        1.0,
        -1.0,
        1.5,
        -1.5,
        2.0,
        100.0,
        -100.0,
        1e300,
        -1e300,
        f64::MIN_POSITIVE,
        -f64::MIN_POSITIVE,
        5e-324,
        -5e-324,
        f64::MAX,
        f64::MIN,
        f64::INFINITY,
        f64::NEG_INFINITY,
        f64::NAN,
        -f64::NAN,
        f64::from_bits(0x7FF0_0000_0000_0001),
        f64::from_bits(0xFFFF_FFFF_FFFF_FFFF),
    ]
}

#[test]
fn constants_are_the_patterns_of_the_numbers() {
    assert_eq!(POSITIVE_ZERO, 0.0f64.to_bits());
    assert_eq!(SIGN_BIT, (-0.0f64).to_bits());
    assert_eq!(POSITIVE_INFINITY, f64::INFINITY.to_bits());
    assert_eq!(NEGATIVE_INFINITY, f64::NEG_INFINITY.to_bits());
}

#[test]
fn classification_agrees_with_the_machine() {
    for x in samples() {
        let bits = x.to_bits();
        assert_eq!(is_nan(bits), x.is_nan(), "is_nan of {:#x}", bits);
        assert_eq!(is_infinite(bits), x.is_infinite(), "is_infinite of {:#x}", bits);
        assert_eq!(is_zero(bits), x == 0.0, "is_zero of {:#x}", bits);
        assert_eq!(
            is_sign_positive(bits),
            x.is_sign_positive(),
            "is_sign_positive of {:#x}",
            bits
        );
    }
}

#[test]
fn comparison_agrees_with_the_machine() {
    for x in samples() {
        for y in samples() {
            let (a, b) = (x.to_bits(), y.to_bits());
            assert_eq!(equal(a, b), x == y, "{:#x} == {:#x}", a, b);
            assert_eq!(greater(a, b), x > y, "{:#x} > {:#x}", a, b);
            assert_eq!(
                same(a, b),
                (x.is_nan() && y.is_nan()) || x == y,
                "{:#x} same as {:#x}",
                a,
                b
            );
        }
    }
}

#[test]
fn zeros_of_either_sign_are_equal() {
    assert!(equal(0.0f64.to_bits(), (-0.0f64).to_bits()));
    assert!(same(0.0f64.to_bits(), (-0.0f64).to_bits()));
    assert!(!greater(0.0f64.to_bits(), (-0.0f64).to_bits()));
}

#[test]
fn nan_is_the_same_as_nan_but_equal_to_nothing() {
    let a = f64::NAN.to_bits();
    let b = 0x7FF0_0000_0000_0001u64;
    assert!(same(a, b));
    assert!(same(a, a));
    assert!(!equal(a, a));
    assert!(!same(a, 1.0f64.to_bits()));
}

#[test]
fn small_counts_convert_exactly() {
    assert_eq!(from_count(0), 0.0f64.to_bits());
    assert_eq!(from_count(1), 1.0f64.to_bits());
    assert_eq!(from_count(2), 2.0f64.to_bits());
    assert_eq!(from_count(3), 3.0f64.to_bits());
    assert_eq!(from_count(3), 0x4008_0000_0000_0000);
    assert_eq!(from_count(1000), 1000.0f64.to_bits());
    for n in 0..5000usize {
        assert_eq!(from_count(n), (n as f64).to_bits(), "count {}", n);
    }
}

#[test]
fn counts_convert_as_the_machine_converts_them() {
    let mut counts: Vec<u64> = Vec::new();
    for e in 0..64u32 {
        let p = 1u64 << e;
        for d in 0..6u64 {
            counts.push(p.wrapping_add(d));
            counts.push(p.wrapping_sub(d));
        }
        counts.push(p | (p >> 1));
        counts.push(p | (p >> 53));
        counts.push(p | (p >> 54));
        counts.push(p | (p >> 53) | 1);
    }
    counts.push(u64::MAX);
    counts.push(u64::MAX - 1);
    counts.push(u64::MAX - 1023);
    counts.push(u64::MAX - 1024);
    counts.push(u64::MAX - 2047);
    counts.push(u64::MAX - 2048);
    let mut x: u64 = 0x9E37_79B9_7F4A_7C15;
    for _ in 0..20000 {
        x ^= x << 13;
        x ^= x >> 7;
        x ^= x << 17;
        counts.push(x);
        counts.push(x >> (x % 64));
    }
    for n in counts {
        if n <= usize::MAX as u64 {
            assert_eq!(from_count(n as usize), (n as f64).to_bits(), "count {}", n);
        }
    }
}

#[test]
fn ties_round_to_the_even_significand() {
    let two_53: u64 = 1 << 53;
    assert_eq!(f64::from_bits(from_count(two_53 as usize)), 9007199254740992.0);
    assert_eq!(f64::from_bits(from_count((two_53 + 1) as usize)), 9007199254740992.0);
    assert_eq!(f64::from_bits(from_count((two_53 + 2) as usize)), 9007199254740994.0);
    assert_eq!(f64::from_bits(from_count((two_53 + 3) as usize)), 9007199254740996.0);
    assert_eq!(f64::from_bits(from_count(u64::MAX as usize)), 18446744073709551616.0);
}
