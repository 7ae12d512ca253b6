use whitenoise::generator::GeneratorOpenSSL;
use whitenoise::source::delivered;
use whitenoise::{ByteSource, Double, Error};

fn double(value: f64) -> Double {
    Double { bits: value.to_bits() }
}

fn value(double: Double) -> f64 {
    f64::from_bits(double.bits)
}

#[test]
fn a_script_runs_out() {
    let mut source = ByteSource::replay(vec![1, 2, 3]);
    assert_eq!(source.fill_bytes(2), Ok(vec![1, 2]));
    assert_eq!(source.fill_bytes(2), Err(Error::Entropy));
    assert_eq!(source.fill_bytes(1), Ok(vec![3]));
    assert_eq!(source.sample_bit(), Err(Error::Entropy));
}

#[test]
fn fair_coins_are_low_bits() {
    let mut source = ByteSource::replay(vec![0, 1, 254, 255]);
    let bits: Vec<bool> = (0..4).map(|_| source.sample_bit().unwrap()).collect();
    assert_eq!(bits, vec![false, true, false, true]);
}

fn both_modes(script: &[u8], expected: i16) {
    let mut early = ByteSource::replay(script.to_vec());
    assert_eq!(early.censored_specific_geom(false), Ok(expected));
    let mut padded = script.to_vec();
    padded.resize(128, 0);
    let mut constant = ByteSource::replay(padded);
    assert_eq!(constant.censored_specific_geom(true), Ok(expected));
}

#[test]
fn index_of_the_first_heads() {
    both_modes(&[0x80], 0);
    both_modes(&[0x01], 7);
    both_modes(&[0x00, 0x20], 10);
    let mut late = vec![0u8; 127];
    late.push(4);
    both_modes(&late, 1021);
    late[127] = 2;
    both_modes(&late, 1022);
    late[127] = 1;
    both_modes(&late, 1022);
    late[127] = 0;
    both_modes(&late, 1022);
}

#[test]
fn the_search_takes_its_bytes() {
    let mut source = ByteSource::replay(vec![0, 3, 9]);
    assert_eq!(source.censored_specific_geom(false), Ok(14));
    assert_eq!(source.fill_bytes(1), Ok(vec![9]));
    let mut short = ByteSource::replay(vec![255; 127]);
    assert_eq!(short.censored_specific_geom(true), Err(Error::Entropy));
    let mut zeros = ByteSource::replay(vec![0; 127]);
    assert_eq!(zeros.censored_specific_geom(false), Err(Error::Entropy));
}

/// A script that makes the first heads fall on `index`.
fn heads_at(index: usize) -> Vec<u8> {
    let mut script = vec![0u8; index / 8];
    script.push(0x80 >> (index % 8));
    script
}

#[test]
fn a_biased_coin_shows_the_digits_of_its_bias() {
    // 0.6875 is 0.1011 in binary
    for (index, digit) in [true, false, true, true, false, false].iter().enumerate() {
        let mut source = ByteSource::replay(heads_at(index));
        assert_eq!(source.sample_bit_prob(double(0.6875), false), Ok(*digit));
    }
    // 0.1 starts with 0.0001 1001 1001
    let digits = "000110011001";
    for (index, digit) in digits.chars().enumerate() {
        let mut source = ByteSource::replay(heads_at(index));
        assert_eq!(source.sample_bit_prob(double(0.1), false), Ok(digit == '1'));
    }
    let last = 0.1f64.to_bits() & 1 == 1;
    let mut source = ByteSource::replay(heads_at(3 + 52));
    assert_eq!(source.sample_bit_prob(double(0.1), false), Ok(last));
    let mut source = ByteSource::replay(heads_at(3 + 53));
    assert_eq!(source.sample_bit_prob(double(0.1), false), Ok(false));
}

#[test]
fn digits_of_the_smallest_biases() {
    let smallest_normal = f64::from_bits(1 << 52);
    let mut source = ByteSource::replay(heads_at(1021));
    assert_eq!(source.sample_bit_prob(double(smallest_normal), false), Ok(true));
    let subnormal = f64::from_bits(1 << 51);
    let mut source = ByteSource::replay(heads_at(1022));
    assert_eq!(source.sample_bit_prob(double(subnormal), false), Ok(false));
}

#[test]
fn whole_numbers_reject_what_is_too_large() {
    let mut source = ByteSource::replay(vec![200, 10, 7, 99]);
    assert_eq!(source.sample_uniform_int(10, 19), Ok(17));
    assert_eq!(source.fill_bytes(1), Ok(vec![99]));
    let mut never = ByteSource::replay(vec![250; 9]);
    assert_eq!(never.sample_uniform_int(0, 9), Err(Error::Entropy));
}

#[test]
fn whole_numbers_take_as_many_bytes_as_they_need() {
    // 128 numbers are told apart by seven bits: one byte
    let mut source = ByteSource::replay(vec![127, 5]);
    assert_eq!(source.sample_uniform_int(0, 127), Ok(127));
    assert_eq!(source.fill_bytes(1), Ok(vec![5]));
    // 129 of them take eight bits, for which two bytes are drawn
    let mut source = ByteSource::replay(vec![128, 0, 5]);
    assert_eq!(source.sample_uniform_int(0, 128), Ok(128));
    assert_eq!(source.fill_bytes(1), Ok(vec![5]));
    let mut source = ByteSource::replay(vec![0x34, 0x12]);
    assert_eq!(source.sample_uniform_int(-1, 0x3fff), Ok(0x1233));
}

#[test]
fn wide_ranges_stay_within_their_bounds() {
    // the highest bit does not make the number negative
    let mut script = vec![0xff; 8];
    script.extend_from_slice(&[1, 0, 0, 0, 0, 0, 0, 0]);
    let mut source = ByteSource::replay(script);
    assert_eq!(source.sample_uniform_int(0, i64::MAX - 1), Ok(1));
}

#[test]
fn unit_draws_are_put_together() {
    let mut script = vec![0xf8, 0, 0, 0, 0, 0, 0];
    script.push(0x80);
    let mut source = ByteSource::replay(script);
    let draw = source.sample_uniform(double(-1.), double(3.), false).unwrap();
    // mantissa 0x8000000000000 in the band of one half: 1.5 / 2
    assert_eq!(value(draw.unit), 0.75);
    assert_eq!(value(draw.min), -1.);
    assert_eq!(value(draw.max), 3.);
    let mut script = vec![0, 0, 0, 0, 0, 0, 1];
    script.push(0x01);
    let mut source = ByteSource::replay(script);
    let draw = source.sample_uniform(double(0.), double(1.), false).unwrap();
    assert_eq!(value(draw.unit), (1.0 + f64::EPSILON) / 256.);
}

#[test]
fn the_last_band_is_subnormal() {
    let mut script = vec![0, 0, 0, 0, 0, 0, 9];
    script.extend_from_slice(&[0; 128]);
    for constant_time in [false, true] {
        let mut source = ByteSource::replay(script.clone());
        let draw = source.sample_uniform(double(0.), double(1.), constant_time).unwrap();
        assert_eq!(draw.unit.bits, 9);
    }
}

#[test]
fn geometric_draws_count_to_the_first_success() {
    // heads at once show the first digit of one half, any later index a zero
    let script = vec![0x40, 0x20, 0x80, 0x80];
    let mut source = ByteSource::replay(script.clone());
    assert_eq!(source.sample_geometric_censored(double(0.5), 10, false), Ok(3));
    assert_eq!(source.fill_bytes(1), Ok(vec![0x80]));
    let mut source = ByteSource::replay(script);
    assert_eq!(source.sample_geometric_censored(double(0.5), 2, false), Ok(2));
}

#[test]
fn constant_time_makes_all_trials() {
    let mut script = vec![0u8; 3 * 128];
    script[0] = 0x40;
    script[128] = 0x80;
    script[256] = 0x80;
    script.push(77);
    let mut source = ByteSource::replay(script);
    assert_eq!(source.sample_geometric_censored(double(0.5), 3, true), Ok(2));
    assert_eq!(source.fill_bytes(1), Ok(vec![77]));
}

fn mechanism(unit_index: u8, sign: u8) -> Result<i64, Error> {
    let mut script = vec![0u8; 7];
    script.push(0x80 >> unit_index);
    script.push(sign);
    script.extend_from_slice(&[0x40, 0x40, 0x80]);
    let mut source = ByteSource::replay(script);
    source.sample_simple_geometric_mechanism(double(0.5), double(0.5), 0, 10, false)
}

#[test]
fn mechanism_noise_has_a_sign() {
    // the unit draw is 0.5, which is not below one half
    assert_eq!(mechanism(0, 1), Ok(3));
    assert_eq!(mechanism(0, 2), Ok(-3));
    // and then 0.25, which is
    assert_eq!(mechanism(1, 1), Ok(0));
}

#[test]
fn mechanism_refuses_after_the_sign() {
    let script = vec![0, 0, 0, 0, 0, 0, 0, 0x80, 1, 42];
    let mut source = ByteSource::replay(script);
    assert_eq!(
        source.sample_simple_geometric_mechanism(double(0.5), double(-1.), 0, 10, false),
        Err(Error::ProbabilityOutOfRange)
    );
    assert_eq!(source.fill_bytes(1), Ok(vec![42]));
}

#[test]
fn words_are_read_as_the_machine_stores_them() {
    let mut source = ByteSource::replay(vec![1, 2, 3, 4]);
    assert_eq!(source.next_word(), Ok(u32::from_ne_bytes([1, 2, 3, 4])));
    assert_eq!(source.next_word(), Err(Error::Entropy));
    let words: Vec<u32> = (0..8).map(|_| GeneratorOpenSSL.gen().unwrap()).collect();
    assert!(words.iter().any(|word| *word != words[0]));
}

#[test]
fn digits_make_up_the_bias() {
    for prob in [0.1, 0.25, 0.6875, 1.0 / 3.0, 0.999] {
        let mut weight = 0.0;
        let mut place = 0.5;
        for index in 0..60 {
            let mut source = ByteSource::replay(heads_at(index));
            if source.sample_bit_prob(double(prob), false).unwrap() {
                weight += place;
            }
            place /= 2.0;
        }
        assert_eq!(weight, prob);
    }
}

#[test]
fn certain_coins() {
    for index in [0, 1, 52, 53, 500, 1021, 1022] {
        for (prob, side) in [(0.0, false), (1.0, true)] {
            let mut source = ByteSource::replay(heads_at(index));
            assert_eq!(source.sample_bit_prob(double(prob), false), Ok(side));
        }
    }
}

#[test]
fn the_index_changes_at_powers_of_two() {
    for index in [0usize, 1, 7, 8, 100, 1021] {
        let lowest = {
            let mut buffer = heads_at(index);
            buffer.resize(128, 0);
            buffer
        };
        let mut source = ByteSource::replay(lowest.clone());
        assert_eq!(source.censored_specific_geom(true), Ok(index as i16));
        // one less than the lowest number of this index belongs to the next
        let mut below = lowest;
        for byte in below.iter_mut().rev() {
            *byte = byte.wrapping_sub(1);
            if *byte != 255 {
                break;
            }
        }
        let mut source = ByteSource::replay(below);
        assert_eq!(source.censored_specific_geom(true), Ok(index as i16 + 1));
    }
}

#[test]
fn each_number_has_one_buffer() {
    let mut picked = vec![0; 10];
    for byte in 0..=255u8 {
        let mut source = ByteSource::replay(vec![byte]);
        if let Ok(number) = source.sample_uniform_int(-4, 5) {
            picked[(number + 4) as usize] += 1;
        }
    }
    assert_eq!(picked, vec![1; 10]);
}

#[test]
fn unit_draws_fall_into_their_bands() {
    for index in [0i32, 1, 5, 60] {
        for word in [0u8, 0x0f, 0xff] {
            let mut script = vec![word; 7];
            script.extend(heads_at(index as usize));
            let mut source = ByteSource::replay(script);
            let draw = source.sample_uniform(double(0.), double(1.), false).unwrap();
            let unit = value(draw.unit);
            assert!(2f64.powi(-(index + 1)) <= unit && unit < 2f64.powi(-index));
        }
    }
}

#[test]
fn the_bias_does_not_change_what_is_drawn() {
    for prob in [0.0, 0.3, 1.0] {
        let mut source = ByteSource::replay(vec![0, 16, 5]);
        assert!(source.sample_bit_prob(double(prob), false).is_ok());
        assert_eq!(source.fill_bytes(1), Ok(vec![5]));
        let mut script = vec![9; 128];
        script.push(6);
        let mut source = ByteSource::replay(script);
        assert!(source.sample_bit_prob(double(prob), true).is_ok());
        assert_eq!(source.fill_bytes(1), Ok(vec![6]));
    }
}

#[test]
fn numbers_written_as_bytes() {
    assert_eq!(whitenoise::bytes::from_le_bytes(&[]), 0);
    assert_eq!(whitenoise::bytes::from_le_bytes(&[0x34, 0x12]), 0x1234);
    assert_eq!(whitenoise::bytes::from_be_bytes(&[0x12, 0x34]), 0x1234);
    assert_eq!(whitenoise::bytes::from_le_bytes(&[255; 8]), u64::MAX);
    assert_eq!(whitenoise::bytes::from_be_bytes(&[255; 8]), u64::MAX);
}

#[test]
fn unit_draws_are_uniform() {
    // sixteenths of the bands, which the four highest bits of the mantissa tell apart
    let threshold = 0.6875;
    let mut weight = 2f64.powi(-20);
    for index in 0..20usize {
        for nibble in 0..16u8 {
            let mut script = vec![nibble; 1];
            script.extend_from_slice(&[0; 6]);
            script.extend(heads_at(index));
            let mut source = ByteSource::replay(script);
            let draw = source.sample_uniform(double(0.), double(1.), false).unwrap();
            if value(draw.unit) < threshold {
                weight += 2f64.powi(-(index as i32 + 1)) / 16.0;
            }
        }
    }
    assert_eq!(weight, threshold);
}

#[test]
fn the_upper_end_is_excluded() {
    let mut script = vec![0xff; 7];
    script.push(0x80);
    let mut source = ByteSource::replay(script);
    let draw = source.sample_uniform(double(1.), double(2.), false).unwrap();
    let spread = value(draw.unit) * (2. - 1.) + 1.;
    assert_eq!(spread, 2.);
    assert!(draw.accept(double(spread)).is_none());
    assert_eq!(draw.accept(double(1.5)).map(value), Some(1.5));
    assert_eq!(draw.accept(double(1.)).map(value), Some(1.));
    let mut source = ByteSource::replay(vec![0, 0, 0, 0, 0, 0, 0, 0x80, 0, 0, 0, 0, 0, 0, 0, 0x80]);
    let point = source.sample_uniform(double(3.), double(3.), false).unwrap();
    assert_eq!(point.accept(double(3.)).map(value), Some(3.));
    let endless = source.sample_uniform(double(0.), double(f64::INFINITY), false).unwrap();
    assert_eq!(endless.accept(double(f64::INFINITY)).map(value), Some(f64::INFINITY));
}

#[test]
fn a_failed_request_delivers_nothing() {
    assert_eq!(delivered(Ok(()), vec![7, 8]), Ok(vec![7, 8]));
    assert_eq!(
        delivered(Err(openssl::error::ErrorStack::get()), vec![0, 0]),
        Err(Error::Entropy)
    );
}

#[test]
fn the_index_tells_the_bytes() {
    for index in [0usize, 7, 8, 9, 500, 1021, 1022] {
        let mut script = heads_at(index);
        script.push(99);
        let mut source = ByteSource::replay(script);
        assert_eq!(source.censored_specific_geom(false), Ok(index as i16));
        assert_eq!(heads_at(index).len(), index / 8 + 1);
        assert_eq!(source.fill_bytes(1), Ok(vec![99]));
    }
}

#[test]
fn no_trials_take_no_bytes() {
    for constant_time in [false, true] {
        let mut source = ByteSource::replay(vec![]);
        assert_eq!(source.sample_geometric_censored(double(0.5), 0, constant_time), Ok(0));
        assert_eq!(source.sample_geometric_censored(double(0.5), -7, constant_time), Ok(-7));
    }
}

/// The bytes that are drawn to pick one of `n` numbers.
fn drawn_for(n: i64) -> usize {
    let mut source = ByteSource::replay(vec![0; 16]);
    assert_eq!(source.sample_uniform_int(0, n - 1), Ok(0));
    let mut left = 0;
    while source.sample_bit().is_ok() {
        left += 1;
    }
    16 - left
}

#[test]
fn the_width_follows_the_double_precision_logarithm() {
    for exponent in 0..63u32 {
        let power = 1i64 << exponent;
        for offset in -200..201i64 {
            let n = power.saturating_add(offset);
            if n > 0 && n < i64::MAX {
                let width = ((n as f64).log2()).ceil() as usize / 8 + 1;
                assert_eq!(drawn_for(n), width, "{}", n);
            }
        }
    }
    assert_eq!(drawn_for(1 << 55), 7);
    assert_eq!(drawn_for((1 << 55) + 91), 7);
    assert_eq!(drawn_for((1 << 55) + 92), 8);
    assert_eq!(drawn_for(i64::MAX), 8);
}

/// The script of a row of trials that find the given indices.
fn trials_at(row: &[usize], constant_time: bool) -> Vec<u8> {
    let mut script = vec![];
    for index in row {
        let mut run = heads_at(*index);
        if constant_time {
            run.resize(128, 0);
        }
        script.extend(run);
    }
    script
}

#[test]
fn results_have_the_weights_of_a_geometric_distribution() {
    // 0.75 has two digits; the indices behind them share the weight of the third
    let weights = [2u32, 1, 1];
    for constant_time in [false, true] {
        let mut found = [0u32; 4];
        for row in 0..27usize {
            let row = [row % 3, row / 3 % 3, row / 9];
            let mut source = ByteSource::replay(trials_at(&row, constant_time));
            let result = source.sample_geometric_censored(double(0.75), 3, constant_time);
            let weight: u32 = row.iter().map(|index| weights[*index]).product();
            found[result.unwrap() as usize] += weight;
        }
        // out of 4^3: 3/4, then 1/4 * 3/4, and the rest
        assert_eq!(found, [0, 48, 12, 4]);
    }
}

#[test]
fn noise_has_the_weights_of_a_two_sided_geometric_distribution() {
    let weights = [2u32, 1, 1];
    for constant_time in [false, true] {
        let mut found = [0u32; 7];
        for unit in 0..3usize {
            for sign in 0..2u8 {
                for row in 0..27usize {
                    let row = [row % 3, row / 3 % 3, row / 9];
                    let mut script = vec![0u8; 7];
                    script.extend(trials_at(&[unit], constant_time));
                    script.push(sign);
                    script.extend(trials_at(&row, constant_time));
                    let mut source = ByteSource::replay(script);
                    let noise = source.sample_simple_geometric_mechanism(
                        double(0.25),
                        double(0.75),
                        -1,
                        2,
                        constant_time,
                    );
                    let weight: u32 = row.iter().map(|index| weights[*index]).product();
                    found[(noise.unwrap() + 3) as usize] += weights[unit] * weight;
                }
            }
        }
        // out of 4 * 2 * 4^3: a quarter has no noise
        assert_eq!(found, [12, 36, 144, 128, 144, 36, 12]);
    }
}
