use timeseries_lib::errors::TimeSeriesError;
use timeseries_lib::series::TimeSeries;
use timeseries_lib::fixed::{decode, encode, fixed_from_bits};

fn fx(x: f64) -> i128 {
    (x * 1e18).round() as i128
}

fn to_f64(v: i128) -> f64 {
    (v as f64) / 1e18
}

#[test]
fn constant_series_has_mean_c_and_zero_std_dev() {
    let ts = TimeSeries::new(vec![1, 2, 3, 4, 5], vec![fx(7.5); 5]).unwrap();
    assert_eq!(to_f64(ts.mean()), 7.5);
    assert_eq!(ts.std_dev(), 0);
}

#[test]
fn negative_constant_series_has_mean_c_and_zero_std_dev() {
    let ts = TimeSeries::new(vec![1, 2, 3], vec![fx(-3.25); 3]).unwrap();
    assert_eq!(to_f64(ts.mean()), -3.25);
    assert_eq!(ts.std_dev(), 0);
}

#[test]
fn median_of_odd_count() {
    let ts = TimeSeries::new(vec![1, 2, 3], vec![fx(3.0), fx(1.0), fx(2.0)]).unwrap();
    assert_eq!(to_f64(ts.median()), 2.0);
}

#[test]
fn median_of_even_count_with_negatives() {
    let ts = TimeSeries::new(
        vec![1, 2, 3, 4],
        vec![fx(-4.0), fx(2.0), fx(-1.0), fx(3.0)],
    )
    .unwrap();
    assert_eq!(to_f64(ts.median()), 0.5);
}

#[test]
fn mean_of_negative_values() {
    let ts = TimeSeries::new(vec![1, 2, 3], vec![fx(-1.0), fx(-2.0), fx(-3.0)]).unwrap();
    assert_eq!(to_f64(ts.mean()), -2.0);
}

#[test]
fn ema_with_uneven_alpha_is_exact() {
    let ts = TimeSeries::new(vec![1, 2], vec![fx(1.0), fx(2.0)]).unwrap();
    let ema = ts.exponential_moving_average(300_000_000).unwrap();
    assert_eq!(to_f64(ema.values()[1]), 1.3);
}

#[test]
fn codec_round_trip_is_close_for_nonnegative_values() {
    for &x in &[0.0f64, 1.0, 0.1, 2.5, 123.456, 1e-9, 999_999.875, 54321.000000001] {
        let back = (decode(&encode(fx(x))) as f64) / 1e18;
        assert!((x - back).abs() < 1e-9);
    }
}

#[test]
fn codec_drops_the_sign_deterministically() {
    for &x in &[1.0f64, 0.25, 77.125, 1234.5] {
        let pos = decode(&encode(fx(x)));
        let neg = decode(&encode(fx(-x)));
        assert_eq!(pos, neg);
    }
}

#[test]
fn encode_pads_to_32_big_endian_bytes() {
    let fp = encode(1);
    assert_eq!(fp.bytes.len(), 32);
    assert_eq!(&fp.bytes[..31], &[0u8; 31]);
    assert_eq!(fp.bytes[31], 1);
}

#[test]
fn moving_average_output_length_equals_input_length() {
    let vals: Vec<i128> = vec![fx(1.0), fx(2.0), fx(3.0), fx(4.0), fx(5.0)];
    let ts = TimeSeries::new(vec![1, 2, 3, 4, 5], vals).unwrap();
    for w in 1..=5usize {
        let ma = ts.moving_average(w).unwrap();
        assert_eq!(ma.values().len(), 5);
        assert_eq!(ma.timestamps(), vec![1, 2, 3, 4, 5]);
    }
}

#[test]
fn mismatched_lengths_are_rejected() {
    let r = TimeSeries::new(vec![1, 2, 3], vec![fx(1.0), fx(2.0)]);
    assert_eq!(r.unwrap_err(), TimeSeriesError::LengthMismatch);
}

#[test]
fn empty_input_is_rejected() {
    let r = TimeSeries::new(vec![], vec![]);
    assert_eq!(r.unwrap_err(), TimeSeriesError::EmptySeries);
}

#[test]
fn unsorted_timestamps_are_rejected() {
    let r = TimeSeries::new(vec![3, 1], vec![fx(1.0), fx(2.0)]);
    assert_eq!(r.unwrap_err(), TimeSeriesError::UnsortedTimestamps);
}

#[test]
fn out_of_range_value_is_rejected() {
    let limit: i128 = 10_000_000_000_000_000_000_000_000;
    let r = TimeSeries::new(vec![1], vec![limit + 1]);
    assert_eq!(r.unwrap_err(), TimeSeriesError::EncodingOverflow);
}

#[test]
fn zero_window_is_rejected() {
    let ts = TimeSeries::new(vec![1, 2], vec![fx(1.0), fx(2.0)]).unwrap();
    assert_eq!(ts.moving_average(0).unwrap_err(), TimeSeriesError::InvalidParameter);
}

#[test]
fn alpha_above_one_is_rejected() {
    let ts = TimeSeries::new(vec![1, 2], vec![fx(1.0), fx(2.0)]).unwrap();
    assert_eq!(
        ts.exponential_moving_average(1_000_000_001).unwrap_err(),
        TimeSeriesError::InvalidParameter
    );
    assert_eq!(
        ts.simple_exponential_smoothing(1_000_000_001, 1).unwrap_err(),
        TimeSeriesError::InvalidParameter
    );
}

#[test]
fn non_finite_bits_are_rejected() {
    assert_eq!(
        fixed_from_bits(f64::NAN.to_bits()).unwrap_err(),
        TimeSeriesError::NonFiniteValue
    );
    assert_eq!(
        fixed_from_bits(f64::INFINITY.to_bits()).unwrap_err(),
        TimeSeriesError::NonFiniteValue
    );
    assert_eq!(
        fixed_from_bits(f64::NEG_INFINITY.to_bits()).unwrap_err(),
        TimeSeriesError::NonFiniteValue
    );
}

#[test]
fn oversized_magnitude_bits_are_rejected() {
    assert_eq!(
        fixed_from_bits(20_000_000.0f64.to_bits()).unwrap_err(),
        TimeSeriesError::EncodingOverflow
    );
    assert_eq!(
        fixed_from_bits(1e300f64.to_bits()).unwrap_err(),
        TimeSeriesError::EncodingOverflow
    );
}

#[test]
fn bits_decode_to_exact_fixed_point() {
    assert_eq!(fixed_from_bits(1.0f64.to_bits()).unwrap(), fx(1.0));
    assert_eq!(fixed_from_bits(2.5f64.to_bits()).unwrap(), fx(2.5));
    assert_eq!(fixed_from_bits((-2.5f64).to_bits()).unwrap(), fx(-2.5));
    assert_eq!(fixed_from_bits(0.0f64.to_bits()).unwrap(), 0);
    assert_eq!(fixed_from_bits((-0.0f64).to_bits()).unwrap(), 0);
    // A subnormal is far below one fixed-point unit and scales to zero.
    assert_eq!(fixed_from_bits(1u64).unwrap(), 0);
}

#[test]
fn single_point_forecast_steps_by_one() {
    let ts = TimeSeries::new(vec![5], vec![fx(2.0)]).unwrap();
    let ses = ts.simple_exponential_smoothing(500_000_000, 2).unwrap();
    assert_eq!(ses.timestamps(), vec![5, 6, 7]);
    assert_eq!(ses.timestamp_at(2), 7);
    assert_eq!(ses.value_at(0), fx(2.0));
    assert_eq!(ses.values(), vec![fx(2.0), fx(2.0), fx(2.0)]);
}

#[test]
fn ema_with_alpha_one_follows_the_input() {
    let ts = TimeSeries::new(vec![1, 2, 3], vec![fx(4.0), fx(9.0), fx(1.0)]).unwrap();
    let ema = ts.exponential_moving_average(1_000_000_000).unwrap();
    assert_eq!(ema.values(), vec![fx(4.0), fx(9.0), fx(1.0)]);
}

#[test]
fn ema_with_alpha_zero_holds_the_first_value() {
    let ts = TimeSeries::new(vec![1, 2, 3], vec![fx(4.0), fx(9.0), fx(1.0)]).unwrap();
    let ema = ts.exponential_moving_average(0).unwrap();
    assert_eq!(ema.values(), vec![fx(4.0), fx(4.0), fx(4.0)]);
}
