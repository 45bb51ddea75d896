use std::collections::BTreeMap;
use timeseries_db::{
    blocks_of_rows, compress_samples, decode_segment, encode_segment, rows_of_blocks, BlockRow,
    DataPoint, SSTable, SegmentError, SeriesData, WireError,
};

fn tags(pairs: &[(&str, &str)]) -> BTreeMap<String, String> {
    pairs.iter().map(|(k, v)| (k.to_string(), v.to_string())).collect()
}

fn points(key_tags: &BTreeMap<String, String>, samples: &[(u64, f64)]) -> Vec<DataPoint> {
    samples
        .iter()
        .map(|s| DataPoint { timestamp: s.0, value_bits: s.1.to_bits(), tags: key_tags.clone() })
        .collect()
}

fn block(key: &str, samples: &[(u64, f64)]) -> SeriesData {
    SeriesData::from_points(key.to_string(), &points(&tags(&[("unit", "c")]), samples))
}

fn values(points: &[DataPoint]) -> Vec<(u64, f64)> {
    points.iter().map(|p| (p.timestamp, f64::from_bits(p.value_bits))).collect()
}

fn table(blocks: &[SeriesData]) -> SSTable {
    let mut table = SSTable::new("dir/sstable_1.data".to_string());
    table.write_data(blocks);
    table
}

#[test]
fn block_of_points_has_bounds_count_and_first_tags() {
    let mut all = points(&tags(&[("unit", "c")]), &[(30, 1.0), (10, 2.0)]);
    all.extend(points(&tags(&[("unit", "f")]), &[(20, 3.0)]));
    let block = SeriesData::from_points("s".to_string(), &all);
    assert_eq!(block.series_key, "s");
    assert_eq!(block.min_timestamp, 10);
    assert_eq!(block.max_timestamp, 30);
    assert_eq!(block.count, 3);
    assert_eq!(block.tags, tags(&[("unit", "c")]));
    assert_eq!(
        block.compressed_data,
        compress_samples(&vec![
            (30, 1.0f64.to_bits()),
            (10, 2.0f64.to_bits()),
            (20, 3.0f64.to_bits())
        ])
    );
    assert_eq!(
        block.samples(),
        vec![(30, 1.0f64.to_bits()), (10, 2.0f64.to_bits()), (20, 3.0f64.to_bits())]
    );
}

#[test]
fn block_of_no_points_has_empty_bounds() {
    let block = SeriesData::from_points("s".to_string(), &Vec::new());
    assert_eq!(block.min_timestamp, u64::MAX);
    assert_eq!(block.max_timestamp, 0);
    assert_eq!(block.count, 0);
    assert_eq!(block.compressed_data, vec![0xFF]);
    assert!(block.tags.is_empty());
}

#[test]
fn block_query_attaches_the_tags_of_the_block() {
    let block = block("s", &[(10, 1.0), (20, 2.0), (30, 3.0)]);
    let found = block.query(Some(15), Some(30));
    assert_eq!(values(&found), vec![(20, 2.0), (30, 3.0)]);
    assert!(found.iter().all(|p| p.tags == tags(&[("unit", "c")])));
}

#[test]
fn block_query_is_pruned_by_the_summaries() {
    let mut block = block("s", &[(10, 1.0), (20, 2.0)]);
    assert_eq!(block.query(Some(21), None).len(), 0);
    assert_eq!(block.query(None, Some(9)).len(), 0);
    // With summaries that exclude the window the payload is not read at all.
    block.min_timestamp = 100;
    block.max_timestamp = 200;
    assert_eq!(block.query(Some(10), Some(20)).len(), 0);
    assert_eq!(block.query(Some(10), Some(150)).len(), 2);
}

#[test]
fn file_format_is_a_length_prefixed_list_of_blocks() {
    let block = SeriesData {
        series_key: "a".to_string(),
        compressed_data: vec![0xFF],
        tags: tags(&[("k", "vw")]),
        min_timestamp: 1,
        max_timestamp: 2,
        count: 3,
    };
    let bytes = encode_segment(&vec![block]);
    let mut expected: Vec<u8> = Vec::new();
    expected.extend(1u64.to_le_bytes());
    expected.extend(1u64.to_le_bytes());
    expected.push(b'a');
    expected.extend(1u64.to_le_bytes());
    expected.push(0xFF);
    expected.extend(1u64.to_le_bytes());
    expected.extend(1u64.to_le_bytes());
    expected.push(b'k');
    expected.extend(2u64.to_le_bytes());
    expected.extend(b"vw");
    expected.extend(1u64.to_le_bytes());
    expected.extend(2u64.to_le_bytes());
    expected.extend(3u64.to_le_bytes());
    assert_eq!(bytes, expected);
}

#[test]
fn segment_bytes_are_read_back() {
    let blocks = vec![block("a", &[(1, 1.0), (2, 2.0)]), block("b", &[(5, 5.0)])];
    let bytes = encode_segment(&blocks);
    let decoded = decode_segment(&bytes).unwrap();
    assert_eq!(decoded.len(), 2);
    for i in 0..2 {
        assert_eq!(decoded[i].series_key, blocks[i].series_key);
        assert_eq!(decoded[i].compressed_data, blocks[i].compressed_data);
        assert_eq!(decoded[i].tags, blocks[i].tags);
        assert_eq!(decoded[i].min_timestamp, blocks[i].min_timestamp);
        assert_eq!(decoded[i].max_timestamp, blocks[i].max_timestamp);
        assert_eq!(decoded[i].count, blocks[i].count);
    }
}

#[test]
fn malformed_bytes_are_rejected() {
    assert!(matches!(decode_segment(&[1, 2, 3]), Err(WireError::Malformed)));
    assert!(matches!(decode_segment(&[]), Err(WireError::Malformed)));
}

#[test]
fn new_segment_has_no_file() {
    let mut table = SSTable::new("p".to_string());
    assert_eq!(table.file_path(), "p");
    assert!(!table.has_file());
    assert_eq!(table.query_series("s", None, None).len(), 0);
    assert_eq!(table.get_all_series_keys().len(), 0);
    assert_eq!(table.block_count(), 0);
    assert_eq!(table.update_datapoint("s", 1, 0), Err(SegmentError::Missing));
    assert_eq!(table.delete_datapoint("s", None), Ok(false));
    assert_eq!(table.to_bytes(), Err(SegmentError::Missing));
}

#[test]
fn empty_file_holds_no_block() {
    let mut table = SSTable::open("p".to_string(), &[]);
    assert!(table.has_file());
    assert_eq!(table.get_all_series_keys().len(), 0);
    assert_eq!(table.query_series("s", None, None).len(), 0);
    assert_eq!(table.update_datapoint("s", 1, 0), Ok(false));
    assert_eq!(table.delete_datapoint("s", Some(1)), Ok(false));
    assert!(table.has_file());
}

#[test]
fn corrupt_file_reads_as_empty_and_fails_writes() {
    let mut table = SSTable::open("p".to_string(), &[9, 9, 9]);
    assert!(table.has_file());
    assert_eq!(table.query_series("s", None, None).len(), 0);
    assert_eq!(table.get_all_series_keys().len(), 0);
    assert_eq!(table.update_datapoint("s", 1, 0), Err(SegmentError::Corrupt));
    assert_eq!(table.delete_datapoint("s", Some(1)), Err(SegmentError::Corrupt));
    assert_eq!(table.delete_datapoint("s", None), Err(SegmentError::Corrupt));
    assert_eq!(table.to_bytes(), Err(SegmentError::Corrupt));
}

#[test]
fn segment_is_opened_from_its_own_bytes() {
    let written = table(&[block("a", &[(1, 1.0), (2, 2.0)]), block("b", &[(5, 5.0)])]);
    let reopened = SSTable::open("q".to_string(), &written.to_bytes().unwrap());
    assert_eq!(reopened.get_all_series_keys(), vec!["a".to_string(), "b".to_string()]);
    assert_eq!(values(&reopened.query_series("a", None, None)), vec![(1, 1.0), (2, 2.0)]);
}

#[test]
fn segment_query_scans_the_blocks_of_the_series() {
    let table =
        table(&[block("a", &[(1, 1.0), (2, 2.0)]), block("b", &[(5, 5.0)]), block("a", &[(3, 3.0)])]);
    assert_eq!(values(&table.query_series("a", None, None)), vec![(1, 1.0), (2, 2.0), (3, 3.0)]);
    assert_eq!(values(&table.query_series("a", Some(2), Some(2))), vec![(2, 2.0)]);
    assert_eq!(values(&table.query_series("b", None, None)), vec![(5, 5.0)]);
    assert_eq!(table.query_series("c", None, None).len(), 0);
    assert_eq!(table.block_count(), 3);
}

#[test]
fn segment_update_rewrites_the_block() {
    let mut table = table(&[block("a", &[(1, 1.0), (2, 2.0)]), block("b", &[(2, 5.0)])]);
    assert_eq!(table.update_datapoint("a", 2, 9.0f64.to_bits()), Ok(true));
    assert_eq!(values(&table.query_series("a", None, None)), vec![(1, 1.0), (2, 9.0)]);
    assert_eq!(values(&table.query_series("b", None, None)), vec![(2, 5.0)]);
    assert_eq!(table.update_datapoint("a", 3, 9.0f64.to_bits()), Ok(false));
    assert_eq!(table.update_datapoint("c", 1, 9.0f64.to_bits()), Ok(false));
    let blocks = table.snapshot();
    assert_eq!(blocks[0].count, 2);
    assert_eq!(blocks[0].min_timestamp, 1);
    assert_eq!(blocks[0].max_timestamp, 2);
}

#[test]
fn segment_delete_of_a_sample_decrements_the_count() {
    let mut table = table(&[block("a", &[(1, 1.0), (2, 2.0), (3, 3.0)])]);
    assert_eq!(table.delete_datapoint("a", Some(2)), Ok(true));
    assert_eq!(values(&table.query_series("a", None, None)), vec![(1, 1.0), (3, 3.0)]);
    assert_eq!(table.snapshot()[0].count, 2);
    assert_eq!(table.delete_datapoint("a", Some(2)), Ok(false));
    assert!(table.has_file());
}

#[test]
fn segment_delete_of_the_last_sample_drops_the_block() {
    let mut table = table(&[block("a", &[(1, 1.0)]), block("b", &[(1, 1.0)])]);
    assert_eq!(table.delete_datapoint("a", Some(1)), Ok(true));
    assert_eq!(table.get_all_series_keys(), vec!["b".to_string()]);
    assert!(table.has_file());
    assert_eq!(table.delete_datapoint("b", Some(1)), Ok(true));
    assert!(!table.has_file());
    assert_eq!(table.get_all_series_keys().len(), 0);
}

#[test]
fn segment_delete_of_a_series_drops_its_blocks() {
    let mut table = table(&[block("a", &[(1, 1.0)]), block("b", &[(1, 1.0)]), block("a", &[(2, 1.0)])]);
    assert_eq!(table.delete_datapoint("a", None), Ok(true));
    assert_eq!(table.get_all_series_keys(), vec!["b".to_string()]);
    assert_eq!(table.delete_datapoint("a", None), Ok(false));
    assert_eq!(table.delete_datapoint("b", None), Ok(true));
    assert!(!table.has_file());
}

#[test]
fn delete_file_leaves_no_file() {
    let mut table = table(&[block("a", &[(1, 1.0)])]);
    table.delete_file();
    assert!(!table.has_file());
    assert_eq!(table.query_series("a", None, None).len(), 0);
}

#[test]
fn error_messages_name_the_failure() {
    assert_eq!(SegmentError::Missing.message(), "segment file is missing");
    assert_eq!(SegmentError::Corrupt.message(), "segment file is corrupt");
}

#[test]
fn rows_hold_the_fields_of_the_blocks_in_order() {
    let blocks = vec![block("a", &[(1, 1.0), (2, 2.0)])];
    let rows = rows_of_blocks(&blocks);
    assert_eq!(rows.len(), 1);
    let expected: BlockRow = (
        "a".to_string(),
        blocks[0].compressed_data.clone(),
        tags(&[("unit", "c")]),
        1,
        2,
        2,
    );
    assert_eq!(rows[0], expected);
    let back = blocks_of_rows(rows).unwrap();
    assert_eq!(back.len(), 1);
    assert_eq!(back[0].series_key, "a");
    assert_eq!(back[0].compressed_data, blocks[0].compressed_data);
    assert_eq!(back[0].tags, blocks[0].tags);
    assert_eq!(back[0].min_timestamp, 1);
    assert_eq!(back[0].max_timestamp, 2);
    assert_eq!(back[0].count, 2);
    assert_eq!(blocks_of_rows(Vec::new()).unwrap().len(), 0);
}

#[test]
fn segment_with_content_reads_its_blocks() {
    let table = SSTable::with_content("p".to_string(), Some(vec![block("a", &[(1, 1.0)])]));
    assert!(table.has_file());
    assert_eq!(table.get_all_series_keys(), vec!["a".to_string()]);
    let mut bad = SSTable::with_content("p".to_string(), None);
    assert!(bad.has_file());
    assert_eq!(bad.get_all_series_keys().len(), 0);
    assert_eq!(bad.update_datapoint("a", 1, 0), Err(SegmentError::Corrupt));
}
