use telemetry_export::channel::Channel;
use telemetry_export::error::ExportError;
use telemetry_export::instant::{decode_instants, decode_stamps, micros_from_seconds, stamp_from_seconds};

fn micros(seconds: f64) -> Option<i64> {
    micros_from_seconds(seconds.to_bits())
}

#[test]
fn whole_and_fractional_seconds_become_microseconds() {
    assert_eq!(micros(0.0), Some(0));
    assert_eq!(micros(1.0), Some(1_000_000));
    assert_eq!(micros(0.4), Some(400_000));
    assert_eq!(micros(1.6), Some(1_600_000));
    assert_eq!(micros(201.243), Some(201_243_000));
    assert_eq!(micros(-2.5), Some(-2_500_000));
}

#[test]
fn negative_zero_is_the_instant_zero() {
    assert_eq!(micros(-0.0), Some(0));
}

#[test]
fn a_half_microsecond_rounds_away_from_zero() {
    // 1/128 s is 7812.5 microseconds, exactly.
    assert_eq!(micros(0.0078125), Some(7_813));
    assert_eq!(micros(-0.0078125), Some(-7_813));
}

#[test]
fn less_than_half_a_microsecond_rounds_to_zero() {
    assert_eq!(micros(0.000_000_4), Some(0));
    assert_eq!(micros(-0.000_000_4), Some(0));
    assert_eq!(micros(f64::MIN_POSITIVE), Some(0));
    assert_eq!(micros(5e-324), Some(0));
}

#[test]
fn more_than_half_a_microsecond_rounds_to_one() {
    assert_eq!(micros(0.000_000_6), Some(1));
}

#[test]
fn decoding_agrees_with_rounding_in_floating_point() {
    let mut k: i64 = -5_000;
    while k <= 5_000 {
        let seconds = k as f64 * 0.125;
        assert_eq!(micros(seconds), Some((seconds * 1e6).round() as i64));
        let seconds = k as f64 / 1000.0;
        assert_eq!(micros(seconds), Some(k * 1000));
        k += 1;
    }
}

#[test]
fn what_is_no_number_is_refused() {
    assert_eq!(micros(f64::NAN), None);
    assert_eq!(micros(-f64::NAN), None);
    assert_eq!(micros_from_seconds(0x7ff0_0000_0000_0001), None);
}

#[test]
fn the_infinite_is_refused() {
    assert_eq!(micros(f64::INFINITY), None);
    assert_eq!(micros(f64::NEG_INFINITY), None);
}

#[test]
fn seconds_beyond_the_count_are_refused() {
    assert_eq!(micros(1e300), None);
    assert_eq!(micros(-1e300), None);
    assert_eq!(micros(f64::MAX), None);
    assert_eq!(micros(9_300_000_000_000.0), None);
    assert_eq!(micros(-9_300_000_000_000.0), None);
    assert_eq!(micros(4_503_599_627_370_496.0), None);
}

#[test]
fn the_largest_seconds_that_fit_are_taken() {
    assert_eq!(micros(9_000_000_000_000.0), Some(9_000_000_000_000_000_000));
    assert_eq!(micros(-9_000_000_000_000.0), Some(-9_000_000_000_000_000_000));
}

#[test]
fn a_series_is_decoded_in_order() {
    let seconds: Vec<u64> = vec![0.0f64.to_bits(), 0.5f64.to_bits(), 0.25f64.to_bits()];
    assert_eq!(decode_instants(&seconds), Ok(vec![0, 500_000, 250_000]));
    assert_eq!(decode_instants(&Vec::new()), Ok(Vec::new()));
}

#[test]
fn a_series_names_its_first_invalid_entry() {
    let seconds: Vec<u64> =
        vec![0.0f64.to_bits(), f64::NAN.to_bits(), 1.0f64.to_bits(), f64::INFINITY.to_bits()];
    assert_eq!(decode_instants(&seconds), Err(1));
}

#[test]
fn a_channel_is_built_from_seconds() {
    let seconds: Vec<u64> = vec![0.4f64.to_bits(), 1.6f64.to_bits()];
    let channel = Channel::from_seconds(
        "S".to_string(),
        "bar".to_string(),
        &seconds,
        vec!["100".to_string(), "200".to_string()],
    )
    .unwrap();
    assert_eq!(channel.name, "S");
    assert_eq!(channel.unit, "bar");
    assert_eq!(channel.times, vec![400_000, 1_600_000]);
    assert_eq!(channel.stamps, vec!["0.400".to_string(), "1.600".to_string()]);
    assert_eq!(channel.values, vec!["100".to_string(), "200".to_string()]);
    assert_eq!(channel.sample_count(), 2);
}

#[test]
fn a_channel_with_an_invalid_instant_is_refused_by_name_and_sample() {
    let seconds: Vec<u64> = vec![0.0f64.to_bits(), 1.0f64.to_bits(), f64::NAN.to_bits()];
    let values: Vec<String> = vec!["1".to_string(), "2".to_string(), "3".to_string()];
    match Channel::from_seconds("pBrakeF".to_string(), "bar".to_string(), &seconds, values) {
        Err(e) => assert_eq!(e, ExportError::InvalidTimestamp { channel: "pBrakeF".to_string(), sample: 2 }),
        Ok(_) => panic!("an invalid instant was taken"),
    }
}

fn stamp(seconds: f64) -> Option<String> {
    stamp_from_seconds(seconds.to_bits())
}

#[test]
fn a_stamp_is_the_double_with_three_decimals() {
    assert_eq!(stamp(0.0).unwrap(), "0.000");
    assert_eq!(stamp(1.0).unwrap(), "1.000");
    assert_eq!(stamp(201.243).unwrap(), "201.243");
    assert_eq!(stamp(12.3456).unwrap(), "12.346");
    assert_eq!(stamp(60.05).unwrap(), "60.050");
    assert_eq!(stamp(-2.5).unwrap(), "-2.500");
}

#[test]
fn a_stamp_is_rounded_once() {
    // The double nearest to 1.2345 lies below it: microseconds round up, the stamp
    // rounds down.
    assert_eq!(f64::from_bits(0x3ff3c083126e978d), 1.2345);
    assert_eq!(micros_from_seconds(0x3ff3c083126e978d), Some(1_234_500));
    assert_eq!(stamp_from_seconds(0x3ff3c083126e978d).unwrap(), "1.234");
    assert_eq!(stamp(1.2345).unwrap(), format!("{:.3}", 1.2345f64));
}

#[test]
fn a_stamp_halfway_between_two_goes_to_the_even_one() {
    // 1/16 is 62.5 thousandths and 3/16 is 187.5 thousandths, exactly.
    assert_eq!(stamp(0.0625).unwrap(), "0.062");
    assert_eq!(stamp(0.1875).unwrap(), "0.188");
    assert_eq!(stamp(-0.0625).unwrap(), "-0.062");
    assert_eq!(stamp(0.0005).unwrap(), format!("{:.3}", 0.0005f64));
    assert_eq!(stamp(0.5).unwrap(), "0.500");
}

#[test]
fn a_stamp_keeps_the_sign_of_the_double() {
    assert_eq!(stamp(-0.0).unwrap(), "-0.000");
    assert_eq!(stamp(-0.0004).unwrap(), "-0.000");
    assert_eq!(stamp(-0.0006).unwrap(), "-0.001");
    assert_eq!(stamp(0.0004).unwrap(), "0.000");
}

#[test]
fn stamps_agree_with_floating_point_formatting() {
    let mut k: i64 = -40_000;
    while k <= 40_000 {
        for seconds in [k as f64 / 10_000.0, k as f64 / 16_384.0, k as f64 * 0.000_37, k as f64 * 1.000_5] {
            assert_eq!(stamp(seconds).unwrap(), format!("{:.3}", seconds));
        }
        k += 1;
    }
    for seconds in [5e-324, f64::MIN_POSITIVE, 1e-7, 4.9e-4, 5.1e-4, 9_000_000_000_000.0, 123_456_789.987_65] {
        assert_eq!(stamp(seconds).unwrap(), format!("{:.3}", seconds));
        assert_eq!(stamp(-seconds).unwrap(), format!("{:.3}", -seconds));
    }
}

#[test]
fn only_an_instant_has_a_stamp() {
    assert_eq!(stamp(f64::NAN), None);
    assert_eq!(stamp(f64::INFINITY), None);
    assert_eq!(stamp(1e300), None);
    assert_eq!(stamp(9_300_000_000_000.0), None);
    assert_eq!(
        decode_stamps(&vec![0.25f64.to_bits(), 1.0005f64.to_bits()]),
        Ok(vec!["0.250".to_string(), format!("{:.3}", 1.0005f64)])
    );
    assert_eq!(decode_stamps(&vec![0.25f64.to_bits(), f64::NAN.to_bits()]), Err(1));
}
