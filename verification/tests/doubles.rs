use ieee754::Ieee754;
use whitenoise::snapping::{clamp_to_bound, snapping_precision};
use whitenoise::truncated::Truncation;
use whitenoise::{Double, Error};

fn double(value: f64) -> Double {
    Double { bits: value.to_bits() }
}

fn samples() -> Vec<f64> {
    let mut samples = vec![
        0.0,
        f64::from_bits(1),
        f64::from_bits((1 << 52) - 1),
        f64::MIN_POSITIVE,
        1e-300,
        0.192,
        0.5,
        1.0 - f64::EPSILON,
        1.0,
        1.0 + f64::EPSILON,
        3.7,
        1e300,
        f64::MAX,
        f64::INFINITY,
        f64::NAN,
    ];
    let negative: Vec<f64> = samples.iter().map(|x| -x).collect();
    samples.extend(negative);
    samples
}

#[test]
fn parts_of_a_double() {
    for x in samples() {
        let (sign, exponent, mantissa) = double(x).decompose_raw();
        assert_eq!((sign, exponent, mantissa), x.decompose_raw());
        assert_eq!(Double::recompose_raw(sign, exponent, mantissa).bits, x.to_bits());
        assert_eq!(double(x).nan(), x.is_nan());
        assert_eq!(double(x).abs().bits, Ieee754::abs(x).to_bits());
        assert_eq!(double(x).negate().bits, (-x).to_bits());
    }
    assert_eq!(
        Double::recompose(false, -3, 0x8_0000_0000_0000).bits,
        f64::recompose(false, -3, 0x8_0000_0000_0000).to_bits()
    );
    assert_eq!(Double::recompose(false, -1023, 5).bits, 5);
}

#[test]
fn order_of_doubles() {
    for x in samples() {
        for y in samples() {
            assert_eq!(double(x) < double(y), x < y);
            assert_eq!(double(x) <= double(y), x <= y);
            assert_eq!(double(x) > double(y), x > y);
            assert_eq!(double(x) >= double(y), x >= y);
            assert_eq!(double(x) == double(y), x == y);
        }
    }
    assert!(double(0.0) == Double::zero());
    assert!(double(1.0) == Double::one());
}

#[test]
fn truncation_checks_its_parameters() {
    let fails = |min, max, scale| Truncation::new(double(min), double(max), double(scale)).err();
    assert_eq!(fails(1.0, 0.0, 1.0), Some(Error::LowerAboveUpper));
    assert_eq!(fails(1.0, 0.0, -1.0), Some(Error::LowerAboveUpper));
    assert_eq!(fails(0.0, 2.0, 0.0), Some(Error::ScaleNotPositive));
    assert_eq!(fails(0.0, 2.0, -1.0), Some(Error::ScaleNotPositive));
    assert_eq!(fails(0.0, 2.0, 1.0), None);
    assert_eq!(fails(f64::NAN, 2.0, 1.0), None);
}

#[test]
fn truncation_rejects_what_lies_outside() {
    let truncation = Truncation::new(double(0.0), double(2.0), double(1.0)).unwrap();
    for (draw, accepted) in [
        (-0.5, false),
        (-0.0, true),
        (0.0, true),
        (1.25, true),
        (2.0, true),
        (2.0000001, false),
        (f64::NAN, false),
    ] {
        let answer = truncation.accept(double(draw));
        assert_eq!(answer.is_some(), accepted);
        if let Some(kept) = answer {
            assert_eq!(kept.bits, draw.to_bits());
        }
    }
}

#[test]
fn snapping_works_with_bounded_precision() {
    assert_eq!(snapping_precision(64, 1 << 30), Ok(64));
    assert_eq!(snapping_precision(118, 1 << 30), Ok(118));
    assert_eq!(snapping_precision(500, 1 << 30), Ok(118));
    assert_eq!(snapping_precision(64, 63), Err(Error::PrecisionUnsupported));
    assert_eq!(snapping_precision(500, 118), Ok(118));
    assert_eq!(snapping_precision(500, 117), Err(Error::PrecisionUnsupported));
}

#[test]
fn values_are_clamped_to_a_bound() {
    let clamp = |input, bound| f64::from_bits(clamp_to_bound(double(input), double(bound)).bits);
    assert_eq!(clamp(3.0, 2.5), 2.5);
    assert_eq!(clamp(3.0, -2.5), 2.5);
    assert_eq!(clamp(-3.0, 2.5), -2.5);
    assert_eq!(clamp(-3.0, -2.5), -2.5);
    assert_eq!(clamp(1.5, 2.5), 1.5);
    assert_eq!(clamp(f64::NEG_INFINITY, 2.5), -2.5);
    assert!(clamp(f64::NAN, 2.5).is_nan());
}
