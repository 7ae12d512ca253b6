use ieee754::Ieee754;
use whitenoise::{
    censored_specific_geom, sample_bit, sample_bit_prob, sample_geometric_censored,
    sample_simple_geometric_mechanism, sample_uniform, sample_uniform_int, Double, Error,
};

fn double(value: f64) -> Double {
    Double { bits: value.to_bits() }
}

fn uniform(min: f64, max: f64) -> f64 {
    let draw = sample_uniform(double(min), double(max), false).unwrap();
    f64::from_bits(draw.unit.bits) * (max - min) + min
}

fn check_bit_vs_string_equal(value: f64) {
    let (_sign, _exponent, mut mantissa) = double(value).decompose_raw();
    assert_eq!(mantissa, value.decompose_raw().2);
    let mantissa_string = format!("1{:052b}", mantissa); // add implicit 1 to mantissa
    let mantissa_vec: Vec<i64> = mantissa_string
        .chars()
        .map(|x| x.to_digit(2).unwrap() as i64)
        .collect();

    let to_str = |v| if v { "1" } else { "0" };

    let vec_bits = (0..mantissa_string.len())
        .map(|idx| mantissa_vec[idx] != 0)
        .map(to_str)
        .collect::<Vec<&str>>()
        .join("");

    // set the implicit 1
    mantissa |= 1u64 << 52;

    let log_bits = (0..mantissa_string.len())
        .map(|idx| mantissa & (1u64 << (52 - idx)) != 0u64)
        .map(to_str)
        .collect::<Vec<&str>>()
        .join("");

    assert_eq!(vec_bits, log_bits);
}

#[test]
fn random_bit_vs_string() {
    for _ in 0..1000 {
        let prob = uniform(0., 1.);
        check_bit_vs_string_equal(prob)
    }
}

#[test]
fn sample_bit_prob_random() {
    let trials = 10_000;
    (0..=100)
        .map(|i| 0.01 * i as f64)
        .map(|prob| {
            (
                prob,
                (0..trials).fold(1, |sum, _| {
                    sum + sample_bit_prob(double(prob), false).unwrap() as i32
                }) as f64
                    / trials as f64,
            )
        })
        .map(|(prob, actual)| (prob, actual - prob))
        .filter(|(_, bias)| bias.abs() > 0.01)
        .for_each(|(prob, bias)| println!("expected: {:?}, bias: {:?}", prob, bias));
}

#[test]
fn sample_bit_prob_edge() {
    for _ in 0..10_000 {
        assert!(!sample_bit_prob(double(0.), false).unwrap());
        assert!(sample_bit_prob(double(1.), false).unwrap());
    }
}

#[test]
fn edge_cases_bit_vs_string() {
    check_bit_vs_string_equal(0.);
    check_bit_vs_string_equal(1.);
    check_bit_vs_string_equal(f64::MAX);
    check_bit_vs_string_equal(f64::MIN)
}

#[test]
fn test_sample_bit() {
    (0..100).for_each(|_| {
        println!("{:?}", sample_bit());
    });
}

#[test]
fn noise_test_sample_bit() {
    (0..1_000).for_each(|_| {
        println!("{:?}", sample_uniform_int(0, 100).unwrap());
    });
}

#[test]
fn test_uniform() {
    let min = 0.;
    let max = 1.;
    if !(0..1000).all(|_| {
        let sample = uniform(min, max);
        let within = min <= sample && max >= sample;
        if !within {
            println!("value outside of range: {:?}", sample);
        }
        within
    }) {
        panic!("not all numbers are within the range")
    }
}

#[test]
fn test_endian() {
    let old_mantissa = 0.192f64.decompose().2;
    let mut buffer = old_mantissa.to_be_bytes();
    // from str_radix ignores these extra bits, but reconstruction from_be_bytes uses them
    buffer[1] = buffer[1] + 32;
    println!("{:?}", buffer);

    let new_buffer = buffer
        .iter()
        .map(|v| format!("{:08b}", v))
        .collect::<Vec<String>>();
    println!("{:?}", new_buffer);
    let new_mantissa = u64::from_str_radix(&new_buffer.concat(), 2).unwrap();
    println!("{:?} {:?}", old_mantissa, new_mantissa);
    assert_eq!(whitenoise::bytes::from_be_bytes(&buffer), new_mantissa);

    let int_bytes = 12i64.to_le_bytes();
    println!("{:?}", int_bytes);
    assert_eq!(whitenoise::bytes::from_le_bytes(&int_bytes), 12);
}

#[test]
fn a_probability_lies_between_zero_and_one() {
    for constant_time in [false, true] {
        assert!(sample_bit_prob(double(0.7), constant_time).is_ok());
        assert_eq!(
            sample_bit_prob(double(1.3), constant_time),
            Err(Error::ProbabilityOutOfRange)
        );
        assert_eq!(
            sample_bit_prob(double(-0.3), constant_time),
            Err(Error::ProbabilityOutOfRange)
        );
        assert_eq!(sample_bit_prob(double(-0.), constant_time), Ok(false));
        assert_eq!(sample_bit_prob(double(f64::NAN), constant_time), Ok(false));
        assert_eq!(
            sample_bit_prob(double(f64::INFINITY), constant_time),
            Err(Error::ProbabilityOutOfRange)
        );
        assert_eq!(
            sample_geometric_censored(double(1.3), 20, constant_time),
            Err(Error::ProbabilityOutOfRange)
        );
    }
}

#[test]
fn bounds_of_whole_numbers() {
    for _ in 0..200 {
        let n = sample_uniform_int(0, 2).unwrap();
        assert!(n == 0 || n == 1 || n == 2);
        let wide = sample_uniform_int(-5, i64::MAX - 6).unwrap();
        assert!(wide >= -5 && wide <= i64::MAX - 6);
    }
    assert_eq!(sample_uniform_int(2, 0), Err(Error::MinAboveMax));
    assert_eq!(sample_uniform_int(7, 7), Ok(7));
    assert_eq!(sample_uniform_int(i64::MIN, i64::MIN), Ok(i64::MIN));
}

#[test]
fn bounds_of_doubles() {
    let draw = uniform(0.0, 2.0);
    assert!(0.0 <= draw && draw < 2.0);
    assert_eq!(
        sample_uniform(double(2.0), double(0.0), false).err(),
        Some(Error::MinAboveMax)
    );
}

#[test]
fn both_modes_of_the_index_draw() {
    for _ in 0..200 {
        let early = censored_specific_geom(false).unwrap();
        let constant = censored_specific_geom(true).unwrap();
        assert!((0..=1022).contains(&early));
        assert!((0..=1022).contains(&constant));
    }
}

#[test]
fn random_bytes_vary() {
    let draws: Vec<i64> = (0..20)
        .map(|_| sample_uniform_int(0, i64::MAX - 1).unwrap())
        .collect();
    assert!(draws.iter().any(|draw| *draw != draws[0]));
}

#[test]
fn geometric_draws_are_censored() {
    for _ in 0..50 {
        let geom = sample_geometric_censored(double(0.1), 20, false).unwrap();
        assert!((1..=20).contains(&geom));
    }
    assert_eq!(sample_geometric_censored(double(1.), 20, true), Ok(1));
    assert_eq!(sample_geometric_censored(double(0.), 20, true), Ok(20));
    assert_eq!(sample_geometric_censored(double(0.), 20, false), Ok(20));
    assert_eq!(sample_geometric_censored(double(0.5), 0, false), Ok(0));
    assert_eq!(sample_geometric_censored(double(0.5), -3, true), Ok(-3));
}

#[test]
fn mechanism_noise_is_bounded() {
    let alpha = std::f64::consts::E.powf(-1.);
    for _ in 0..200 {
        let noise = sample_simple_geometric_mechanism(
            double((1. - alpha) / (1. + alpha)),
            double(1. - alpha),
            0,
            100,
            false,
        )
        .unwrap();
        assert!(-100 <= noise && noise <= 100);
    }
    assert_eq!(
        sample_simple_geometric_mechanism(double(1.), double(2.), 0, 100, true),
        Ok(0)
    );
    assert_eq!(
        sample_simple_geometric_mechanism(double(0.), double(2.), 0, 100, true),
        Err(Error::ProbabilityOutOfRange)
    );
}
