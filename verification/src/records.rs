use vstd::prelude::*;
use crate::errors::TimeSeriesError;
use crate::fixed::FixedPointValue;
use crate::fixed::encode;
use crate::fixed::be_of;
use crate::fixed::abs_int;
use crate::fixed::fixed_of_bits;
use crate::fixed::MAX_SERIES_LEN;
use crate::series::TimeSeries;
use crate::series::input_ok;
use crate::series::input_error_is;
use crate::series::mean_spec;
use crate::series::median_spec;
use crate::series::variance_spec;
use crate::series::ma_at;
use crate::commitment::CommitmentDigest;
use crate::commitment::commit;
use crate::commitment::keccak256_of;
use crate::commitment::message_of;

verus! {

/// The fixed-point values a sequence of bit patterns decodes to.
pub open spec fn values_of_bits(bits: Seq<u64>) -> Seq<i128> {
    Seq::new(bits.len(), |i: int| fixed_of_bits(bits[i]) as i128)
}

/// What a well-formed summary record of a raw input says: the input's
/// timestamp span, its commitment digest, and the encoded statistics of
/// its decoded values, the standard deviation pinned by its bracketing
/// squares.
pub open spec fn summary_record_ok(s: SummaryPublicValues, ts: Seq<u64>, bits: Seq<u64>) -> bool {
    let vals = values_of_bits(bits);
    &&& s.start_timestamp == ts[0]
    &&& s.end_timestamp == ts[ts.len() - 1]
    &&& s.values_hash.bytes@ == keccak256_of(message_of(ts, bits))
    &&& s.mean.bytes@ == be_of(abs_int(mean_spec(vals)), 32)
    &&& s.median.bytes@ == be_of(abs_int(median_spec(vals)), 32)
    &&& exists|sd: int|
        0 <= sd && #[trigger] (sd * sd) <= variance_spec(vals) && variance_spec(vals) < (sd + 1) * (
        sd + 1) && s.std_dev.bytes@ == be_of(sd, 32)
}

/// What a well-formed moving-average record of a raw input says: the
/// input's timestamp span, its commitment digest, the window, and one
/// encoded trailing-window average per input point.
pub open spec fn ma_record_ok(
    m: MovingAveragePublicValues,
    ts: Seq<u64>,
    bits: Seq<u64>,
    window_size: usize,
) -> bool {
    let vals = values_of_bits(bits);
    &&& m.start_timestamp == ts[0]
    &&& m.end_timestamp == ts[ts.len() - 1]
    &&& m.values_hash.bytes@ == keccak256_of(message_of(ts, bits))
    &&& m.window_size == window_size
    &&& m.moving_averages@.len() == bits.len()
    &&& forall|i: int|
        0 <= i < bits.len() ==> (#[trigger] m.moving_averages@[i]).bytes@ == be_of(
            abs_int(ma_at(vals, i, window_size as int)),
            32,
        )
}

/// Canonical summary record: the raw series' first and last timestamp,
/// its commitment digest, and the codec-encoded mean, median and
/// standard deviation.  Field order is part of the wire contract.
#[derive(Debug)]
pub struct SummaryPublicValues {
    pub start_timestamp: u64,
    pub end_timestamp: u64,
    pub values_hash: CommitmentDigest,
    pub mean: FixedPointValue,
    pub median: FixedPointValue,
    pub std_dev: FixedPointValue,
}

/// Canonical moving-average record: the raw series' first and last
/// timestamp, its commitment digest, the window width as a raw
/// integer, and one codec-encoded average per input point.  Field
/// order is part of the wire contract.
#[derive(Debug)]
pub struct MovingAveragePublicValues {
    pub start_timestamp: u64,
    pub end_timestamp: u64,
    pub values_hash: CommitmentDigest,
    pub window_size: usize,
    pub moving_averages: Vec<FixedPointValue>,
}

/// The one tagged output type of the pipeline.
pub enum PublicValues {
    Summary(SummaryPublicValues),
    MovingAverage(MovingAveragePublicValues),
}

/// Which of the two canonical records a caller asks for.
pub enum AnalysisRequest {
    Summary,
    MovingAverage { window_size: usize },
}

/// Runs the summary pipeline over raw input: validate, compute the
/// statistics, encode them, commit to the raw series, and assemble the
/// record.
pub fn to_public_values(timestamps: &Vec<u64>, value_bits: &Vec<u64>) -> (r: Result<
    SummaryPublicValues,
    TimeSeriesError,
>)
    requires
        timestamps@.len() <= MAX_SERIES_LEN,
    ensures
        r.is_ok() <==> input_ok(timestamps@, value_bits@),
        match r {
            Ok(s) => summary_record_ok(s, timestamps@, value_bits@),
            Err(e) => input_error_is(timestamps@, value_bits@, e),
        },
{
    let series = match TimeSeries::from_bits(timestamps, value_bits) {
        Ok(s) => s,
        Err(e) => {
            return Err(e);
        },
    };
    proof {
        assert(series.val_seq() =~= values_of_bits(value_bits@));
    }
    let start = timestamps[0];
    let end = timestamps[timestamps.len() - 1];
    let hash = commit(timestamps, value_bits);
    let mean_v = series.mean();
    let median_v = series.median();
    let sd = series.std_dev();
    let sd_i: i128 = sd as i128;
    Ok(
        SummaryPublicValues {
            start_timestamp: start,
            end_timestamp: end,
            values_hash: hash,
            mean: encode(mean_v),
            median: encode(median_v),
            std_dev: encode(sd_i),
        },
    )
}

/// Runs the moving-average pipeline over raw input: validate, average
/// with the requested window, encode every averaged point, commit to
/// the raw series, and assemble the record.
#[verifier::loop_isolation(false)]
pub fn to_moving_average_public_values(
    timestamps: &Vec<u64>,
    value_bits: &Vec<u64>,
    window_size: usize,
) -> (r: Result<MovingAveragePublicValues, TimeSeriesError>)
    requires
        timestamps@.len() <= MAX_SERIES_LEN,
    ensures
        r.is_ok() <==> input_ok(timestamps@, value_bits@) && window_size >= 1,
        match r {
            Ok(v) => ma_record_ok(v, timestamps@, value_bits@, window_size),
            Err(e) => {
                &&& (input_ok(timestamps@, value_bits@) ==> e == TimeSeriesError::InvalidParameter
                    && window_size == 0)
                &&& (!input_ok(timestamps@, value_bits@) ==> input_error_is(
                    timestamps@,
                    value_bits@,
                    e,
                ))
            },
        },
{
    let series = match TimeSeries::from_bits(timestamps, value_bits) {
        Ok(s) => s,
        Err(e) => {
            return Err(e);
        },
    };
    proof {
        assert(series.val_seq() =~= values_of_bits(value_bits@));
    }
    let ma = match series.moving_average(window_size) {
        Ok(m) => m,
        Err(e) => {
            return Err(e);
        },
    };
    let start = timestamps[0];
    let end = timestamps[timestamps.len() - 1];
    let hash = commit(timestamps, value_bits);
    let n = ma.len();
    let mut encoded: Vec<FixedPointValue> = Vec::new();
    let mut i: usize = 0;
    while i < n
        invariant
            i <= n,
            n == ma.val_seq().len(),
            ma.wf(),
            encoded@.len() == i,
            forall|k: int|
                0 <= k < i ==> (#[trigger] encoded@[k]).bytes@ == be_of(
                    abs_int(ma.val_seq()[k] as int),
                    32,
                ),
        decreases n - i,
    {
        let v = ma.value_at(i);
        encoded.push(encode(v));
        i += 1;
    }
    Ok(
        MovingAveragePublicValues {
            start_timestamp: start,
            end_timestamp: end,
            values_hash: hash,
            window_size,
            moving_averages: encoded,
        },
    )
}

/// Computes whichever canonical record the request names.  Both modes
/// share the commitment and the timestamp span of the raw input.
pub fn compute_public_values(
    timestamps: &Vec<u64>,
    value_bits: &Vec<u64>,
    request: AnalysisRequest,
) -> (r: Result<PublicValues, TimeSeriesError>)
    requires
        timestamps@.len() <= MAX_SERIES_LEN,
    ensures
        match request {
            AnalysisRequest::Summary => {
                &&& r.is_ok() <==> input_ok(timestamps@, value_bits@)
                &&& match r {
                    Ok(v) => v matches PublicValues::Summary(s) && summary_record_ok(
                        s,
                        timestamps@,
                        value_bits@,
                    ),
                    Err(e) => input_error_is(timestamps@, value_bits@, e),
                }
            },
            AnalysisRequest::MovingAverage { window_size } => {
                &&& r.is_ok() <==> input_ok(timestamps@, value_bits@) && window_size >= 1
                &&& match r {
                    Ok(v) => v matches PublicValues::MovingAverage(m) && ma_record_ok(
                        m,
                        timestamps@,
                        value_bits@,
                        window_size,
                    ),
                    Err(e) => {
                        &&& (input_ok(timestamps@, value_bits@) ==> e
                            == TimeSeriesError::InvalidParameter && window_size == 0)
                        &&& (!input_ok(timestamps@, value_bits@) ==> input_error_is(
                            timestamps@,
                            value_bits@,
                            e,
                        ))
                    },
                }
            },
        },
{
    match request {
        AnalysisRequest::Summary => {
            match to_public_values(timestamps, value_bits) {
                Ok(s) => Ok(PublicValues::Summary(s)),
                Err(e) => Err(e),
            }
        },
        AnalysisRequest::MovingAverage { window_size } => {
            match to_moving_average_public_values(timestamps, value_bits, window_size) {
                Ok(m) => Ok(PublicValues::MovingAverage(m)),
                Err(e) => Err(e),
            }
        },
    }
}

} // verus!
