use xinterp::divop::Method;
use xinterp::extended::{Parts, F80};
use xinterp::piecewise::{Interp, InterpError};
use xinterp::schemes::{Distance, Forward, Inverse, Ordered, Zero};

const TOP: u64 = 1 << 63;

fn half() -> F80 {
    F80::from_parts(false, 0, TOP)
}

fn not_a_number() -> F80 {
    F80::from(1u64).div(&F80::from(0u64))
}

#[test]
fn integers_are_held_exactly() {
    assert_eq!(
        F80::from(5u64).parts(),
        Some(Parts { negative: false, exponent: 3, mantissa: 5 << 61 })
    );
    assert_eq!(
        F80::from(0u64).parts(),
        Some(Parts { negative: false, exponent: 0, mantissa: 0 })
    );
    assert_eq!(
        F80::from(u64::MAX).parts(),
        Some(Parts { negative: false, exponent: 64, mantissa: u64::MAX })
    );
    assert_eq!(F80::from(1u64), F80::from_parts(false, 1, TOP));
    for v in [0u64, 1, 2, 3, 1 << 53, (1 << 53) + 1, u64::MAX - 1, u64::MAX] {
        assert!(F80::from(v).is_finite());
        assert_eq!(F80::from(v).to_u64(), v);
    }
}

#[test]
fn parts_are_kept_in_one_form() {
    assert_eq!(F80::from_parts(true, 17, 0), F80::from(0u64));
    assert_eq!(F80::from_parts(true, 17, 0), <F80 as Zero>::zero());
    assert!(!F80::from_parts(false, 0, 1).is_finite());
    assert!(!F80::from_parts(false, 5, TOP - 1).is_finite());
    assert_eq!(F80::from_parts(false, 0, 1).parts(), None);
    assert_eq!(
        F80::from_parts(true, -3, TOP + 1).parts(),
        Some(Parts { negative: true, exponent: -3, mantissa: TOP + 1 })
    );
}

#[test]
fn arithmetic_goes_through_the_big_floats() {
    let one = F80::from(1u64);
    let two = F80::from(2u64);
    let three = F80::from(3u64);
    let four = F80::from(4u64);
    let seven = F80::from(7u64);
    let twelve = F80::from(12u64);
    assert_eq!(one.add(&two), three);
    assert_eq!(seven.sub(&three), four);
    assert_eq!(three.mul(&four), twelve);
    assert_eq!(twelve.div(&four), three);
    assert_eq!(seven.rem(&four), three);
    assert_eq!(one.div(&two), half());
    assert_eq!(three.sub(&seven), F80::from_parts(true, 3, TOP));
    assert_eq!(three.sub(&three), F80::from(0u64));
    assert_eq!(three.sub(&seven).abs(), four);
    assert_eq!(four.abs(), four);
}

#[test]
fn floor_ceil_and_round() {
    let two = F80::from(2u64);
    let five_halves = F80::from(5u64).div(&two);
    let seven_halves = F80::from(7u64).div(&two);
    assert_eq!(five_halves.floor(), two);
    assert_eq!(five_halves.ceil(), F80::from(3u64));
    assert_eq!(five_halves.round(), two);
    assert_eq!(seven_halves.round(), F80::from(4u64));
    assert_eq!(half().floor(), F80::from(0u64));
    assert_eq!(half().ceil(), F80::from(1u64));
    assert_eq!(half().round(), F80::from(0u64));
    let minus_half = F80::from_parts(true, 0, TOP);
    assert_eq!(minus_half.floor(), F80::from_parts(true, 1, TOP));
    assert_eq!(minus_half.ceil(), F80::from(0u64));
    assert_eq!(two.floor(), two);
    assert_eq!(two.ceil(), two);
    assert_eq!(two.round(), two);
    let nine_quarters = F80::from(9u64).div(&F80::from(4u64));
    assert_eq!(nine_quarters.round(), two);
    let eleven_quarters = F80::from(11u64).div(&F80::from(4u64));
    assert_eq!(eleven_quarters.round(), F80::from(3u64));
}

#[test]
fn what_is_not_finite_stays_so() {
    let nan = not_a_number();
    let one = F80::from(1u64);
    assert!(!nan.is_finite());
    assert_eq!(nan.parts(), None);
    assert!(!F80::from(0u64).div(&F80::from(0u64)).is_finite());
    assert!(!one.rem(&F80::from(0u64)).is_finite());
    assert!(!nan.add(&one).is_finite());
    assert!(!one.sub(&nan).is_finite());
    assert!(!nan.mul(&one).is_finite());
    assert!(!one.div(&nan).is_finite());
    assert!(!nan.rem(&one).is_finite());
    assert!(!nan.floor().is_finite());
    assert!(!nan.ceil().is_finite());
    assert!(!nan.round().is_finite());
    assert!(!nan.abs().is_finite());
    assert_eq!(nan, F80::from_parts(false, 0, 1));
    let huge = F80::from_parts(false, i32::MAX, TOP);
    assert!(huge.is_finite());
    assert!(!huge.mul(&huge).is_finite());
}

#[test]
fn values_are_ordered_along_the_number_line() {
    let ordered = [
        F80::from_parts(true, 70, TOP),
        F80::from_parts(true, 2, TOP + 1),
        F80::from_parts(true, 2, TOP),
        F80::from_parts(true, -40, TOP),
        F80::from(0u64),
        F80::from_parts(false, -40, TOP),
        half(),
        F80::from(1u64),
        F80::from(3u64),
        F80::from(u64::MAX),
        F80::from_parts(false, 65, TOP),
        not_a_number(),
    ];
    for i in 0..ordered.len() {
        for j in 0..ordered.len() {
            assert_eq!(ordered[i].less(&ordered[j]), i < j, "{} and {}", i, j);
        }
    }
}

#[test]
fn integer_part_within_the_range() {
    assert_eq!(half().to_u64(), 0);
    assert_eq!(F80::from_parts(true, 3, TOP).to_u64(), 0);
    assert_eq!(F80::from(7u64).div(&F80::from(2u64)).to_u64(), 3);
    assert_eq!(F80::from_parts(false, 64, TOP).to_u64(), TOP);
    assert_eq!(F80::from_parts(false, 65, TOP).to_u64(), u64::MAX);
    assert_eq!(F80::from_parts(false, i32::MAX, u64::MAX).to_u64(), u64::MAX);
    assert_eq!(F80::from_parts(false, i32::MIN, TOP).to_u64(), 0);
}

#[test]
fn bits_of_the_double() {
    assert_eq!(F80::from(0u64).to_f64_bits(), 0);
    assert_eq!(F80::from(1u64).to_f64_bits(), 0x3ff0_0000_0000_0000);
    assert_eq!(F80::from(3u64).to_f64_bits(), 0x4008_0000_0000_0000);
    assert_eq!(half().to_f64_bits(), 0x3fe0_0000_0000_0000);
    assert_eq!(F80::from_parts(true, 1, TOP).to_f64_bits(), 0xbff0_0000_0000_0000);
    assert_eq!(f64::from_bits(F80::from(1u64 << 60).to_f64_bits()), (1u64 << 60) as f64);
    // the bits below the 53rd are dropped, not rounded
    assert_eq!(F80::from(u64::MAX).to_f64_bits(), 0x43ef_ffff_ffff_ffff);
    assert_eq!(F80::from_parts(false, 1023, u64::MAX).to_f64_bits(), 0x7fdf_ffff_ffff_ffff);
    assert_eq!(F80::from_parts(false, 1024, TOP).to_f64_bits(), 0x7ff0_0000_0000_0000);
    assert_eq!(F80::from_parts(true, 1025, TOP).to_f64_bits(), 0xfff0_0000_0000_0000);
    assert_eq!(F80::from_parts(false, -1022, TOP).to_f64_bits(), 0);
    assert_eq!(
        F80::from_parts(false, -1022, TOP + (1 << 62)).to_f64_bits(),
        0x0008_0000_0000_0000
    );
    assert_eq!(F80::from_parts(true, -1023, TOP).to_f64_bits(), 0x8008_0000_0000_0000);
    assert_eq!(F80::from_parts(false, -1030, u64::MAX).to_f64_bits(), 0x0000_1fff_ffff_ffff);
    assert_eq!(F80::from_parts(false, -1074, TOP).to_f64_bits(), 1);
    assert_eq!(F80::from_parts(false, -1075, TOP).to_f64_bits(), 0);
    assert_eq!(F80::from_parts(true, -2000, TOP).to_f64_bits(), 0);
}

#[test]
fn distance_and_zero() {
    let three = F80::from(3u64);
    let seven = F80::from(7u64);
    assert_eq!(three.distance(seven), F80::from(4u64));
    assert_eq!(seven.distance(three), F80::from(4u64));
    assert_eq!(<F80 as Zero>::zero(), F80::from(0u64));
    assert!(<F80 as Distance>::exceeds(&seven, &three));
    assert!(!<F80 as Distance>::exceeds(&three, &three));
    assert!(<F80 as Distance>::exceeds(&not_a_number(), &seven));
}

#[test]
fn schemes_in_extended_precision() {
    let twenty = F80::from(20u64);
    let thirty = F80::from(30u64);
    // (20 * 3 + 30 * 2) / 5 = 24
    assert_eq!(2u64.forward(0, 5, twenty, thirty), F80::from(24u64));
    // (20 * 7 + 30 * 1) / 8 = 21.25
    assert_eq!(
        1u64.forward(0, 8, twenty, thirty),
        F80::from(85u64).div(&F80::from(4u64))
    );
    let f = F80::from(23u64);
    // (0 * 7 + 5 * 3) / 10 = 1.5
    assert_eq!(f.inverse(0, 5, twenty, thirty, Method::Exact), None);
    assert_eq!(f.inverse(0, 5, twenty, thirty, Method::Nearest), Some(2));
    assert_eq!(f.inverse(0, 5, twenty, thirty, Method::ForwardFill), Some(1));
    assert_eq!(f.inverse(0, 5, twenty, thirty, Method::BackwardFill), Some(2));
    let f = F80::from(24u64);
    for method in [Method::Exact, Method::Nearest, Method::ForwardFill, Method::BackwardFill] {
        assert_eq!(f.inverse(0, 5, twenty, thirty, method), Some(2));
    }
}

#[test]
fn large_indices_keep_their_last_bit() {
    let base: u64 = 1 << 62;
    let interp: Interp<u64, F80> =
        Interp::new(vec![base, base + 4], vec![F80::from(0u64), F80::from(4u64)]);
    for step in 0..=4u64 {
        assert_eq!(interp.forward(base + step), Ok(F80::from(step)));
        assert_eq!(interp.inverse(F80::from(step), Method::Exact), Ok(base + step));
    }
}

#[test]
fn a_knot_that_is_not_finite_lies_after_all_others() {
    let interp: Interp<u64, F80> =
        Interp::new(vec![0, 5], vec![F80::from(20u64), not_a_number()]);
    assert!(interp.inversable());
    assert_eq!(interp.inverse(F80::from(20u64), Method::Exact), Ok(0));
    assert_eq!(interp.inverse(not_a_number(), Method::Exact), Ok(5));
    assert_eq!(
        interp.inverse(F80::from(25u64), Method::Nearest),
        Err(InterpError::NotFound)
    );
    assert_eq!(interp.forward(2).map(|f| f.is_finite()), Ok(false));
}

#[test]
fn simplification_in_extended_precision() {
    let fp: Vec<F80> = [0u64, 1, 10, 16, 20].iter().map(|v| F80::from(*v)).collect();
    let interp: Interp<u64, F80> = Interp::new(vec![0, 2, 4, 6, 8], fp);
    let simplified = interp.simplify(F80::from(2u64));
    assert_eq!(*simplified.xp(), vec![0, 2, 4, 8]);
    let simplified = interp.simplify(F80::from(10u64));
    assert_eq!(*simplified.xp(), vec![0, 8]);
    assert_eq!(*simplified.fp(), vec![F80::from(0u64), F80::from(20u64)]);
}
