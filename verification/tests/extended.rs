use astro_float::BigFloat;
use xinterp::extended::F80;
use xinterp::schemes::Ordered;

/// The extended-precision value of a double.
fn widen(v: f64) -> F80 {
    assert!(v.is_finite());
    let big = BigFloat::from_f64(v, 64);
    let (m, _, s, e, _) = big.as_raw_parts().unwrap();
    F80::from_parts(s.is_negative(), e, m.last().copied().unwrap_or(0))
}

/// The double that an extended-precision value is cut down to.
fn shorten(x: F80) -> f64 {
    f64::from_bits(x.to_f64_bits())
}

#[test]
fn test_u64_conversion() {
    let cases: [u64; 7] = [0, 1, 2, u64::MAX / 2, u64::MAX - 2, u64::MAX - 1, u64::MAX];
    for expected in cases.iter() {
        let result: u64 = F80::from(*expected).to_u64();
        assert_eq!(result, *expected);
    }
    let cases: [(f64, u64); 4] = [(-1.0, 0), (0.5, 0), (1.5, 1), (1e32, u64::MAX)];
    for (input, expected) in cases.iter() {
        let result: u64 = widen(*input).to_u64();
        assert_eq!(result, *expected);
    }
}

#[test]
fn test_f64_conversion() {
    let cases: [f64; 11] = [
        0.0, 0.5, -0.5, 1.0, -1.0, 1.5, -1.5, 1e307, -1e307, 1e-307, -1e-307,
    ];
    for expected in cases.iter() {
        let result: f64 = shorten(widen(*expected));
        assert_eq!(result, *expected);
    }
}

#[test]
fn test_rounding() {
    let cases: [(f64, u64); 13] = [
        (0.0, 0),
        (0.1, 0),
        (0.4, 0),
        (0.5, 0),
        (0.6, 1),
        (0.9, 1),
        (1.0, 1),
        (1.1, 1),
        (1.4, 1),
        (1.5, 2),
        (1.6, 2),
        (1.9, 2),
        (2.0, 2),
    ];
    for (input, expected) in cases {
        let result: u64 = widen(input).round().to_u64();
        assert_eq!(result, expected)
    }
}

#[test]
fn order_agrees_with_the_doubles() {
    let values: [f64; 15] = [
        -1e300, -65536.5, -3.0, -2.5, -1.0, -0.75, -1e-300, 0.0, 1e-300, 0.1, 0.5, 1.0, 2.5,
        1.8446744073709552e19, 1e300,
    ];
    for a in values.iter() {
        for b in values.iter() {
            assert_eq!(widen(*a).less(&widen(*b)), a < b, "{} and {}", a, b);
            assert_eq!(widen(*a) == widen(*b), a == b, "{} and {}", a, b);
        }
    }
    assert_eq!(widen(-0.0), widen(0.0));
}

#[test]
fn doubles_come_back_unchanged() {
    let mut bits: u64 = 0x3ff0_0000_0000_0001;
    for _ in 0..2000 {
        // a multiplicative generator walks over the bit patterns
        bits = bits.wrapping_mul(6364136223846793005).wrapping_add(1442695040888963407);
        let exponent = (bits >> 52) & 0x7ff;
        if exponent == 0 || exponent >= 0x7fe {
            continue;
        }
        let value = f64::from_bits(bits);
        assert_eq!(shorten(widen(value)).to_bits(), bits);
    }
}

#[test]
fn integers_agree_with_the_doubles() {
    for v in [0u64, 1, 2, 3, 1000, 1 << 52, (1 << 53) - 1, 1 << 63] {
        assert_eq!(F80::from(v), widen(v as f64));
        assert_eq!(shorten(F80::from(v)), v as f64);
    }
}
