use sovits_svc::lengths::{converted_length, hops_in, nearest_indices, samples_in, scaled_length};
use sovits_svc::names::{append_list, append_number, append_signed, joined, numbered, starts_with};
use sovits_svc::rounding::{
    ceiling_capped, divide, floor_capped, floor_negated, multiply, round_ratio, round_signed,
    Dyadic, Precision,
};
use sovits_svc::single::Single;

fn single(value: f32) -> Single {
    Single {
        bits: value.to_bits(),
    }
}

fn value(number: Dyadic) -> f64 {
    number.mantissa as f64 * 2.0_f64.powi(number.exponent)
}

#[test]
fn ratios_are_rounded_like_doubles() {
    for (num, den) in [(1_u128, 3_u128), (2, 3), (10, 7), (44100, 48000), (1, 1000), (99, 100)] {
        let rounded = round_ratio(num, den, Precision::Double);
        assert_eq!(value(rounded), num as f64 / den as f64);
    }
}

#[test]
fn ratios_are_rounded_like_singles() {
    for (num, den) in [(1_u128, 3_u128), (16_777_217, 1), (16_777_219, 1), (7, 5), (1, 10)] {
        let rounded = round_ratio(num, den, Precision::Single);
        assert_eq!(value(rounded), (num as f32 / den as f32) as f64);
    }
}

#[test]
fn products_and_quotients_are_rounded() {
    let third = round_ratio(1, 3, Precision::Double);
    let seven = Dyadic {
        mantissa: 7,
        exponent: 0,
    };
    assert_eq!(value(multiply(third, seven, Precision::Double)), (1.0 / 3.0) * 7.0);
    assert_eq!(value(divide(third, seven, Precision::Double)), (1.0 / 3.0) / 7.0);
}

#[test]
fn integer_parts_are_limited() {
    let number = |mantissa: u64, exponent: i32| Dyadic { mantissa, exponent };
    assert_eq!(floor_capped(number(7, -1)), 3);
    assert_eq!(floor_capped(number(1, 40)), i32::MAX);
    assert_eq!(floor_negated(number(7, -1)), -3);
    assert_eq!(floor_negated(number(1, 40)), i32::MIN);
    assert_eq!(ceiling_capped(number(7, -1)), 4);
    assert_eq!(ceiling_capped(number(8, -1)), 4);
    assert_eq!(ceiling_capped(number(1, 40)), i32::MAX);
    assert_eq!(round_signed(number(5, -1), false), 3);
    assert_eq!(round_signed(number(5, -1), true), -3);
    assert_eq!(round_signed(number(9, -2), false), 2);
    assert_eq!(round_signed(number(1, 31), true), i32::MIN);
    assert_eq!(round_signed(number(1, 31), false), i32::MAX);
}

#[test]
fn converted_lengths() {
    assert_eq!(converted_length(48000, 48000, 44100), 44100);
    assert_eq!(converted_length(1000, 48000, 44100), 919);
    assert_eq!(converted_length(12345, 22050, 44100), 24690);
    assert_eq!(converted_length(7, 3, 44100), 102900);
    assert_eq!(converted_length(0, 48000, 44100), 0);
    assert_eq!(converted_length(i32::MAX, 1, 44100), i32::MAX);
}

#[test]
fn converted_lengths_follow_double_arithmetic() {
    for length in [1, 2, 3, 441, 442, 1001, 99_999, 1_234_567, 2_000_000_000] {
        for rate in [8000, 11025, 16000, 22050, 32000, 44100, 48000, 96000] {
            let expected = (length as f64 / rate as f64 * 44100_f64).ceil() as i32;
            assert_eq!(converted_length(length, rate, 44100), expected);
        }
    }
}

#[test]
fn scaled_lengths() {
    assert_eq!(scaled_length(512, 160, 441), 186);
    assert_eq!(scaled_length(44100, 160, 441), 16000);
    assert_eq!(scaled_length(1000, 147, 160), 919);
    assert_eq!(scaled_length(2_000_000_000, 147, 160), 1_837_500_000);
    for count in [1, 7, 1000, 123_457, 1_999_999_999] {
        let expected = ((147_f64 * count as f64) / 160_f64).ceil() as i32;
        assert_eq!(scaled_length(count, 147, 160), expected);
    }
}

#[test]
fn durations_in_samples_and_hops() {
    assert_eq!(samples_in(44100, 20), 882);
    assert_eq!(samples_in(44100, 300), 13230);
    assert_eq!(samples_in(25, 20), 1);
    assert_eq!(samples_in(24, 20), 0);
    assert_eq!(samples_in(1, 20), 0);
    assert_eq!(samples_in(1000, -5), -5);
    assert_eq!(hops_in(44100, 5000, 882), 250);
    assert_eq!(hops_in(44100, 300, 882), 15);
    assert_eq!(hops_in(10, 5000, 0), i32::MAX);
    assert_eq!(hops_in(10, -5000, 0), i32::MIN);
    assert_eq!(hops_in(10, 0, 0), 0);
    assert_eq!(samples_in(i32::MAX, 20), 42_949_673);
}

#[test]
fn nearest_frames() {
    assert_eq!(nearest_indices(7, 10), [0, 0, 1, 2, 2, 3, 4, 4, 5, 6]);
    assert_eq!(nearest_indices(3, 7), [0, 0, 0, 1, 1, 2, 2]);
    assert_eq!(nearest_indices(10, 4), [0, 2, 5, 7]);
    assert_eq!(nearest_indices(5, 5), [0, 1, 2, 3, 4]);
    assert_eq!(nearest_indices(0, 3), [0, 0, 0]);
}

#[test]
fn nearest_frames_are_there() {
    for source in [1, 2, 3, 50, 999, 4321] {
        for target in [1, 2, 7, 86, 1000, 5001] {
            let indices = nearest_indices(source, target);
            assert_eq!(indices.len() as i32, target);
            for (i, &index) in indices.iter().enumerate() {
                let expected = (i as f32 * source as f32 / target as f32).floor() as i32;
                assert_eq!(index, expected);
                assert!(0 <= index && index < source);
            }
        }
    }
}

#[test]
fn singles_are_compared_by_value() {
    let numbers = [
        f32::NEG_INFINITY,
        -40.0,
        -0.0,
        0.0,
        1.0e-40,
        0.4,
        0.75,
        1.0,
        44100.0,
        f32::INFINITY,
        f32::NAN,
    ];
    for a in numbers {
        assert_eq!(single(a).not_a_number(), a.is_nan());
        for b in numbers {
            assert_eq!(single(a).less_than(single(b)), a < b);
            assert_eq!(single(a).not_less_than(single(b)), a >= b);
            assert_eq!(single(a).same_number(single(b)), a == b);
        }
    }
}

#[test]
fn durations_times_rates() {
    assert_eq!(single(0.5).times_count(44100), 22050);
    assert_eq!(single(0.1).times_count(44100), 4410);
    assert_eq!(single(2.5).times_count(48000), 120000);
    assert_eq!(single(0.75).times_count(1001), 750);
    assert_eq!(single(f32::INFINITY).times_count(1), i32::MAX);
    assert_eq!(single(f32::NEG_INFINITY).times_count(1), i32::MIN);
    assert_eq!(single(f32::NAN).times_count(44100), 0);
    assert_eq!(single(-1.5).times_count(3), -4);
    assert_eq!(single(1.0e30).times_count(2), i32::MAX);
    for seconds in [0.0_f32, 0.3, 1.0 / 3.0, 1.7, 29.99, 1.0e-40, 100000.0] {
        for rate in [1, 7, 16000, 44100, 48000, 16_777_219] {
            assert_eq!(single(seconds).times_count(rate), (seconds * rate as f32) as i32);
        }
    }
}

#[test]
fn shares_stay_below_the_whole() {
    for count in [0, 1, 999, 22050, 16_777_216] {
        assert_eq!(single(1.0).times_count(count), count);
        for share in [0.0_f32, 0.25, 0.75, 0.999_999_94] {
            assert!(single(share).times_count(count) <= count);
        }
    }
}

#[test]
fn names_are_put_together() {
    assert_eq!(numbered("ups.", 0, ""), "ups.0");
    assert_eq!(numbered("flow.flows.", 16, ".pre"), "flow.flows.16.pre");
    assert_eq!(joined("conv_pre", ".weight"), "conv_pre.weight");
    let mut text = String::from("n=");
    append_number(&mut text, 18_446_744_073_709_551_615);
    assert_eq!(text, "n=18446744073709551615");
    let mut text = String::new();
    append_signed(&mut text, i32::MIN);
    assert_eq!(text, "-2147483648");
    let mut text = String::from("shape ");
    append_list(&mut text, &vec![1, -20, 300]);
    assert_eq!(text, "shape [1, -20, 300]");
    let mut text = String::new();
    append_list(&mut text, &vec![]);
    assert_eq!(text, "[]");
    assert!(starts_with("enc_q.pre.weight", "enc_q."));
    assert!(!starts_with("enc_p.pre.weight", "enc_q."));
    assert!(!starts_with("enc", "enc_q."));
    assert!(starts_with("anything", ""));
}

#[test]
fn source_frames_are_whole_parts() {
    for (source, target) in [(49, 86), (1, 7), (4095, 4096), (4096, 4095), (1000, 3)] {
        let expected: Vec<i32> = (0..target).map(|index| index * source / target).collect();
        assert_eq!(nearest_indices(source, target), expected);
    }
}
