//! The values that the request handlers exchange with their callers, and the
//! summaries that they compute.

use crate::series::{max_timestamp_of, min_timestamp_of, point_views, DataPoint};
use vstd::prelude::*;

verus! {

/// The window of a range query.
#[derive(Debug, Clone, Copy, PartialEq, Eq, Structural)]
pub struct QueryRequest {
    pub start_time: Option<u64>,
    pub end_time: Option<u64>,
    pub limit: Option<usize>,
}

/// A request to compact.
#[derive(Debug, Clone, Copy, PartialEq, Eq, Structural)]
pub struct CompactRequest {
    pub force: Option<bool>,
}

/// The envelope of every response.
#[derive(Debug)]
pub struct ApiResponse<T> {
    pub success: bool,
    pub message: String,
    pub data: Option<T>,
    pub timestamp: i64,
}

impl<T> ApiResponse<T> {
    /// The response to a request that succeeded with `data`, made at
    /// `timestamp` seconds.
    pub fn success(data: T, timestamp: i64) -> (response: Self)
        ensures
            response.success,
            response.message@ == "操作成功"@,
            response.data == Some(data),
            response.timestamp == timestamp,
    {
        Self { success: true, message: "操作成功".to_owned(), data: Some(data), timestamp }
    }

    /// The response to a request that failed with `message`, made at
    /// `timestamp` seconds.
    pub fn error(message: String, timestamp: i64) -> (response: Self)
        ensures
            !response.success,
            response.message == message,
            response.data is None,
            response.timestamp == timestamp,
    {
        Self { success: false, message, data: None, timestamp }
    }
}

/// The list of all series keys with its length.
#[derive(Debug)]
pub struct SeriesListResponse {
    pub series: Vec<String>,
    pub count: usize,
}

impl SeriesListResponse {
    /// The list `series` with its length.
    pub fn new(series: Vec<String>) -> (response: Self)
        ensures
            response.series == series,
            response.count == series.len(),
    {
        let count = series.len();
        Self { series, count }
    }
}

/// An error with its status code.
#[derive(Debug)]
pub struct ErrorResponse {
    pub error: String,
    pub code: u16,
    pub timestamp: i64,
}

impl ErrorResponse {
    /// The error `error` with the status `code`, made at `timestamp`
    /// seconds.
    pub fn new(error: String, code: u16, timestamp: i64) -> (response: Self)
        ensures
            response.error == error,
            response.code == code,
            response.timestamp == timestamp,
    {
        Self { error, code, timestamp }
    }
}

/// How many of a batch of inserts succeeded and how many failed.
#[derive(Debug, Clone, Copy, PartialEq, Eq, Structural)]
pub struct BatchOutcome {
    pub succeeded: usize,
    pub failed: usize,
}

/// How many of `results` are `wanted`.
pub open spec fn count_of(results: Seq<bool>, wanted: bool) -> nat
    decreases results.len(),
{
    if results.len() == 0 {
        0
    } else {
        count_of(results.drop_last(), wanted) + if results.last() == wanted {
            1nat
        } else {
            0nat
        }
    }
}

/// No more results are counted than there are.
proof fn lemma_count_of_bound(results: Seq<bool>, wanted: bool)
    ensures
        count_of(results, wanted) <= results.len(),
    decreases results.len(),
{
    if results.len() > 0 {
        lemma_count_of_bound(results.drop_last(), wanted);
    }
}

/// Counts the inserts of a batch that succeeded and those that failed.
pub fn tally_batch(results: &Vec<bool>) -> (outcome: BatchOutcome)
    ensures
        outcome.succeeded == count_of(results@, true),
        outcome.failed == count_of(results@, false),
{
    let mut succeeded: usize = 0;
    let mut failed: usize = 0;
    let mut i: usize = 0;
    while i < results.len()
        invariant
            i <= results.len(),
            succeeded == count_of(results@.take(i as int), true),
            failed == count_of(results@.take(i as int), false),
        decreases results.len() - i,
    {
        proof {
            assert(results@.take(i + 1).drop_last() =~= results@.take(i as int));
            lemma_count_of_bound(results@.take(i as int), true);
            lemma_count_of_bound(results@.take(i as int), false);
        }
        if results[i] {
            succeeded = succeeded + 1;
        } else {
            failed = failed + 1;
        }
        i = i + 1;
    }
    assert(results@.take(i as int) =~= results@);
    BatchOutcome { succeeded, failed }
}

/// The summary of a series: how many samples it has, and the least and the
/// greatest of their timestamps.
#[derive(Debug, Clone, Copy, PartialEq, Eq, Structural)]
pub struct SeriesSummary {
    pub count: usize,
    pub min_timestamp: Option<u64>,
    pub max_timestamp: Option<u64>,
}

/// Summarizes the samples of a series.
pub fn summarize(points: &Vec<DataPoint>) -> (summary: SeriesSummary)
    ensures
        summary.count == points.len(),
        points.len() == 0 ==> summary.min_timestamp is None && summary.max_timestamp is None,
        points.len() > 0 ==> summary.min_timestamp == Some(min_timestamp_of(point_views(points@)))
            && summary.max_timestamp == Some(max_timestamp_of(point_views(points@))),
{
    if points.len() == 0 {
        return SeriesSummary { count: 0, min_timestamp: None, max_timestamp: None };
    }
    let ghost all = point_views(points@);
    let mut least: u64 = u64::MAX;
    let mut greatest: u64 = 0;
    let mut i: usize = 0;
    while i < points.len()
        invariant
            i <= points.len(),
            all == point_views(points@),
            least == min_timestamp_of(all.take(i as int)),
            greatest == max_timestamp_of(all.take(i as int)),
        decreases points.len() - i,
    {
        proof {
            assert(all.take(i + 1).drop_last() =~= all.take(i as int));
            assert(all.take(i + 1).last() == points[i as int]@);
        }
        if points[i].timestamp < least {
            least = points[i].timestamp;
        }
        if points[i].timestamp > greatest {
            greatest = points[i].timestamp;
        }
        i = i + 1;
    }
    assert(all.take(i as int) =~= all);
    SeriesSummary { count: points.len(), min_timestamp: Some(least), max_timestamp: Some(greatest) }
}

} // verus!
