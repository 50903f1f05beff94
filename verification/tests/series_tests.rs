use timeseries_lib::series::TimeSeries;
use timeseries_lib::fixed::{decode, encode};

fn fx(x: f64) -> i128 {
    (x * 1e18).round() as i128
}

fn to_f64(v: i128) -> f64 {
    (v as f64) / 1e18
}

fn series(timestamps: Vec<u64>, values: Vec<f64>) -> TimeSeries {
    let fixed: Vec<i128> = values.iter().map(|&v| fx(v)).collect();
    TimeSeries::new(timestamps, fixed).unwrap()
}

#[test]
fn test_time_series_creation() {
    let ts = series(vec![1, 2, 3], vec![1.0, 2.0, 3.0]);
    assert_eq!(ts.timestamps(), vec![1, 2, 3]);
    assert_eq!(ts.values(), vec![fx(1.0), fx(2.0), fx(3.0)]);
}

#[test]
fn test_mean() {
    let ts = series(vec![1, 2, 3], vec![1.0, 2.0, 3.0]);
    assert_eq!(to_f64(ts.mean()), 2.0);
}

#[test]
fn test_median() {
    let ts = series(vec![1, 2, 3, 4], vec![1.0, 2.0, 3.0, 4.0]);
    assert_eq!(to_f64(ts.median()), 2.5);
}

#[test]
fn test_std_dev() {
    let ts = series(vec![1, 2, 3], vec![1.0, 2.0, 3.0]);
    let sd = (ts.std_dev() as f64) / 1e18;
    assert!((sd - 0.816496580927726).abs() < 1e-10);
}

#[test]
fn test_moving_average() {
    let ts = series(vec![1, 2, 3, 4, 5], vec![1.0, 2.0, 3.0, 4.0, 5.0]);
    let ma = ts.moving_average(3).unwrap();
    assert_eq!(ma.values(), vec![fx(1.0), fx(1.5), fx(2.0), fx(3.0), fx(4.0)]);
}

#[test]
fn test_exponential_moving_average() {
    let ts = series(vec![1, 2, 3, 4, 5], vec![1.0, 2.0, 3.0, 4.0, 5.0]);
    let ema = ts.exponential_moving_average(500_000_000).unwrap();
    assert_eq!(ema.values()[0], fx(1.0));
    // The recurrence gives 1, 1.5, 2.25, 3.125, 4.0625.
    assert!((to_f64(ema.values()[4]) - 4.0625).abs() < 1e-10);
}

#[test]
fn test_simple_exponential_smoothing() {
    let ts = series(vec![1, 2, 3, 4, 5], vec![1.0, 2.0, 3.0, 4.0, 5.0]);
    let ses = ts.simple_exponential_smoothing(500_000_000, 2).unwrap();
    assert_eq!(ses.timestamps(), vec![1, 2, 3, 4, 5, 6, 7]);
    // The flat continuation repeats the last smoothed value, 4.0625.
    assert!((to_f64(ses.values()[6]) - 4.0625).abs() < 1e-10);
}

#[test]
fn test_f64_to_u256_conversion() {
    let value = std::f64::consts::PI;
    let converted = encode(fx(value));
    let back = (decode(&converted) as f64) / 1e18;
    assert!((value - back).abs() < 1e-10);
}
