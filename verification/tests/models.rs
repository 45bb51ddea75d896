use std::collections::BTreeMap;
use timeseries_db::{
    summarize, tally_batch, ApiResponse, CompactRequest, DataPoint, ErrorResponse, QueryRequest,
    SeriesListResponse,
};

#[test]
fn success_response_carries_the_data() {
    let response = ApiResponse::success(7u32, 1700000000);
    assert!(response.success);
    assert_eq!(response.data, Some(7));
    assert_eq!(response.timestamp, 1700000000);
    assert_eq!(response.message, "操作成功");
}

#[test]
fn error_response_carries_the_message() {
    let response: ApiResponse<u32> = ApiResponse::error("no such series".to_string(), 5);
    assert!(!response.success);
    assert_eq!(response.data, None);
    assert_eq!(response.message, "no such series");
    assert_eq!(response.timestamp, 5);
}

#[test]
fn series_list_counts_its_keys() {
    let response = SeriesListResponse::new(vec!["a".to_string(), "b".to_string()]);
    assert_eq!(response.count, 2);
    assert_eq!(response.series, vec!["a".to_string(), "b".to_string()]);
    assert_eq!(SeriesListResponse::new(Vec::new()).count, 0);
}

#[test]
fn error_response_keeps_its_fields() {
    let response = ErrorResponse::new("bad".to_string(), 404, 9);
    assert_eq!(response.error, "bad");
    assert_eq!(response.code, 404);
    assert_eq!(response.timestamp, 9);
}

#[test]
fn requests_hold_their_fields() {
    let query = QueryRequest { start_time: Some(1), end_time: None, limit: Some(10) };
    assert_eq!(query.start_time, Some(1));
    assert_eq!(query.end_time, None);
    assert_eq!(query.limit, Some(10));
    assert_eq!(CompactRequest { force: Some(true) }.force, Some(true));
}

#[test]
fn batch_tally_counts_both_outcomes() {
    let outcome = tally_batch(&vec![true, false, true, true]);
    assert_eq!(outcome.succeeded, 3);
    assert_eq!(outcome.failed, 1);
    let none = tally_batch(&Vec::new());
    assert_eq!(none.succeeded, 0);
    assert_eq!(none.failed, 0);
}

#[test]
fn summary_has_count_and_bounds() {
    let points: Vec<DataPoint> = [30u64, 10, 20]
        .iter()
        .map(|t| DataPoint { timestamp: *t, value_bits: 0, tags: BTreeMap::new() })
        .collect();
    let summary = summarize(&points);
    assert_eq!(summary.count, 3);
    assert_eq!(summary.min_timestamp, Some(10));
    assert_eq!(summary.max_timestamp, Some(30));
    let empty = summarize(&Vec::new());
    assert_eq!(empty.count, 0);
    assert_eq!(empty.min_timestamp, None);
    assert_eq!(empty.max_timestamp, None);
}
