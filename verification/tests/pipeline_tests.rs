use sha3::{Digest, Keccak256};
use timeseries_lib::commitment::commit;
use timeseries_lib::errors::TimeSeriesError;
use timeseries_lib::fixed::decode;
use timeseries_lib::records::{
    compute_public_values, to_moving_average_public_values, to_public_values, AnalysisRequest,
    PublicValues,
};

fn fx(x: f64) -> i128 {
    (x * 1e18).round() as i128
}

fn bits_of(values: &[f64]) -> Vec<u64> {
    values.iter().map(|v| v.to_bits()).collect()
}

fn reference_digest(timestamps: &[u64], value_bits: &[u64]) -> Vec<u8> {
    let mut hasher = Keccak256::new();
    for (t, b) in timestamps.iter().zip(value_bits.iter()) {
        hasher.update(t.to_be_bytes());
        hasher.update(b.to_be_bytes());
    }
    hasher.finalize().to_vec()
}

#[test]
fn commit_matches_an_independent_keccak_fold() {
    let timestamps = vec![1u64, 2, 3];
    let bits = bits_of(&[1.0, 2.0, 3.0]);
    let digest = commit(&timestamps, &bits);
    assert_eq!(digest.bytes, reference_digest(&timestamps, &bits));
}

#[test]
fn commit_is_deterministic_across_calls() {
    let timestamps = vec![10u64, 20, 30];
    let bits = bits_of(&[0.5, -1.5, 42.0]);
    let first = commit(&timestamps, &bits);
    let second = commit(&timestamps, &bits);
    assert_eq!(first.bytes, second.bytes);
}

#[test]
fn commit_changes_when_any_bit_changes() {
    let timestamps = vec![10u64, 20, 30];
    let bits = bits_of(&[0.5, -1.5, 42.0]);
    let base = commit(&timestamps, &bits);

    let mut flipped_value = bits.clone();
    flipped_value[1] ^= 1;
    assert_ne!(base.bytes, commit(&timestamps, &flipped_value).bytes);

    let mut flipped_ts = timestamps.clone();
    flipped_ts[2] ^= 1;
    assert_ne!(base.bytes, commit(&flipped_ts, &bits).bytes);
}

#[test]
fn summary_record_carries_span_hash_and_statistics() {
    let timestamps = vec![1u64, 2, 3];
    let bits = bits_of(&[1.0, 2.0, 3.0]);
    let record = to_public_values(&timestamps, &bits).unwrap();
    assert_eq!(record.start_timestamp, 1);
    assert_eq!(record.end_timestamp, 3);
    assert_eq!(record.values_hash.bytes, reference_digest(&timestamps, &bits));
    assert_eq!(decode(&record.mean) as i128, fx(2.0));
    assert_eq!(decode(&record.median) as i128, fx(2.0));
    let sd = (decode(&record.std_dev) as f64) / 1e18;
    assert!((sd - 0.816496580927726).abs() < 1e-10);
}

#[test]
fn moving_average_record_encodes_every_point() {
    let timestamps = vec![1u64, 2, 3, 4, 5];
    let bits = bits_of(&[1.0, 2.0, 3.0, 4.0, 5.0]);
    let record = to_moving_average_public_values(&timestamps, &bits, 3).unwrap();
    assert_eq!(record.start_timestamp, 1);
    assert_eq!(record.end_timestamp, 5);
    assert_eq!(record.window_size, 3);
    assert_eq!(record.values_hash.bytes, reference_digest(&timestamps, &bits));
    let decoded: Vec<i128> = record.moving_averages.iter().map(|v| decode(v) as i128).collect();
    assert_eq!(decoded, vec![fx(1.0), fx(1.5), fx(2.0), fx(3.0), fx(4.0)]);
}

#[test]
fn hash_binds_the_input_not_the_transform() {
    let timestamps = vec![1u64, 2, 3, 4, 5];
    let bits = bits_of(&[1.0, 2.0, 3.0, 4.0, 5.0]);
    let summary = to_public_values(&timestamps, &bits).unwrap();
    let averaged = to_moving_average_public_values(&timestamps, &bits, 2).unwrap();
    assert_eq!(summary.values_hash.bytes, averaged.values_hash.bytes);
}

#[test]
fn pipeline_dispatches_on_the_request() {
    let timestamps = vec![1u64, 2, 3];
    let bits = bits_of(&[1.0, 2.0, 3.0]);
    match compute_public_values(&timestamps, &bits, AnalysisRequest::Summary).unwrap() {
        PublicValues::Summary(s) => assert_eq!(s.start_timestamp, 1),
        PublicValues::MovingAverage(_) => panic!("wrong record kind"),
    }
    match compute_public_values(
        &timestamps,
        &bits,
        AnalysisRequest::MovingAverage { window_size: 2 },
    )
    .unwrap()
    {
        PublicValues::MovingAverage(m) => assert_eq!(m.window_size, 2),
        PublicValues::Summary(_) => panic!("wrong record kind"),
    }
}

#[test]
fn pipeline_surfaces_validation_errors() {
    let bits = bits_of(&[1.0, 2.0]);
    assert_eq!(
        to_public_values(&vec![1u64], &bits).unwrap_err(),
        TimeSeriesError::LengthMismatch
    );
    assert_eq!(
        to_public_values(&vec![], &vec![]).unwrap_err(),
        TimeSeriesError::EmptySeries
    );
    assert_eq!(
        to_public_values(&vec![1u64, 2], &bits_of(&[1.0, f64::NAN])).unwrap_err(),
        TimeSeriesError::NonFiniteValue
    );
    assert_eq!(
        to_moving_average_public_values(&vec![1u64, 2], &bits, 0).unwrap_err(),
        TimeSeriesError::InvalidParameter
    );
}
