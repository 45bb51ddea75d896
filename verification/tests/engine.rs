use std::collections::BTreeMap;
use timeseries_db::{
    keep_last_copies, merge_by_timestamp, segment_path, DataPoint, FileAction, SSTable,
    SegmentError, SeriesData, TimeSeriesDB,
};

fn point(timestamp: u64, value: f64) -> DataPoint {
    DataPoint { timestamp, value_bits: value.to_bits(), tags: BTreeMap::new() }
}

fn values(points: &[DataPoint]) -> Vec<(u64, f64)> {
    points.iter().map(|p| (p.timestamp, f64::from_bits(p.value_bits))).collect()
}

fn timestamps(points: &[DataPoint]) -> Vec<u64> {
    points.iter().map(|p| p.timestamp).collect()
}

#[test]
fn test_full_crud_operations() {
    let mut db = TimeSeriesDB::new("tsdb_data".to_string(), 1000);

    let mut tags = BTreeMap::new();
    tags.insert("sensor".to_string(), "temperature".to_string());
    tags.insert("location".to_string(), "room1".to_string());

    for i in 0..10u64 {
        let dp = DataPoint {
            timestamp: 1609459200 + i * 60,
            value_bits: (20.0 + (i as f64) * 0.5).to_bits(),
            tags: tags.clone(),
        };
        db.insert("temp_sensor_1".to_string(), dp, 1);
    }

    let all_results = db.query_range("temp_sensor_1", None, None);
    println!("queried {} samples", all_results.len());
    assert_eq!(all_results.len(), 10, "ten samples were inserted");

    let updated = db.update("temp_sensor_1", 1609459200, 25.0f64.to_bits()).unwrap();
    println!("update result: {}", updated);

    let updated_results = db.query_range("temp_sensor_1", None, None);
    let first_point = updated_results.iter().find(|dp| dp.timestamp == 1609459200);
    assert!(first_point.is_some(), "the sample at 1609459200 is found");
    if let Some(point) = first_point {
        assert_eq!(f64::from_bits(point.value_bits), 25.0, "the value after the update is 25.0");
    }

    let deleted = db.delete("temp_sensor_1", Some(1609459200)).unwrap();
    println!("delete result: {}", deleted);

    let after_delete = db.query_range("temp_sensor_1", None, None);
    let deleted_point = after_delete.iter().find(|dp| dp.timestamp == 1609459200);
    assert!(deleted_point.is_none(), "the deleted sample is gone");
    assert_eq!(after_delete.len(), 9, "nine samples are left");

    let series = db.get_all_series();
    assert!(series.contains(&"temp_sensor_1".to_string()));

    let series_deleted = db.delete("temp_sensor_1", None).unwrap();
    assert!(series_deleted);
}

#[test]
fn test_compaction() {
    let mut db = TimeSeriesDB::new("tsdb_data".to_string(), 15);

    for i in 0..20u64 {
        let dp = DataPoint {
            timestamp: 1609459200 + i * 60,
            value_bits: (20.0 + (i as f64)).to_bits(),
            tags: BTreeMap::new(),
        };
        db.insert("test_series".to_string(), dp, 1700000000);
    }

    let before_compact = db.query_range("test_series", None, None);
    println!("before compaction: {} samples", before_compact.len());
    assert_eq!(before_compact.len(), 20, "twenty samples were inserted");

    db.compact(1700000001);

    let results = db.query_range("test_series", None, None);
    println!("after compaction: {} samples", results.len());
    for (i, dp) in results.iter().enumerate() {
        println!(
            "  sample {}: timestamp={}, value={}",
            i + 1,
            dp.timestamp,
            f64::from_bits(dp.value_bits)
        );
    }

    assert_eq!(results.len(), 20, "compaction keeps all twenty samples");
}

#[test]
fn update_is_seen_exactly_once() {
    let mut db = TimeSeriesDB::new("d".to_string(), 1000);
    for i in 0..10u64 {
        db.insert("temp_sensor_1".to_string(), point(1609459200 + 60 * i, 20.0 + 0.5 * i as f64), 1);
    }
    assert_eq!(db.update("temp_sensor_1", 1609459200, 25.0f64.to_bits()), Ok(true));
    let found = db.query_range("temp_sensor_1", None, None);
    let at: Vec<&DataPoint> = found.iter().filter(|p| p.timestamp == 1609459200).collect();
    assert_eq!(at.len(), 1);
    assert_eq!(f64::from_bits(at[0].value_bits), 25.0);
    assert_eq!(found.iter().filter(|p| f64::from_bits(p.value_bits) == 25.0).count(), 1);
}

#[test]
fn delete_of_a_sample_leaves_the_others() {
    let mut db = TimeSeriesDB::new("d".to_string(), 1000);
    for i in 0..10u64 {
        db.insert("temp_sensor_1".to_string(), point(1609459200 + 60 * i, 20.0 + 0.5 * i as f64), 1);
    }
    assert_eq!(db.update("temp_sensor_1", 1609459200, 25.0f64.to_bits()), Ok(true));
    assert_eq!(db.delete("temp_sensor_1", Some(1609459200)), Ok(true));
    let found = db.query_range("temp_sensor_1", None, None);
    assert_eq!(found.len(), 9);
    assert!(found.iter().all(|p| p.timestamp != 1609459200));
}

#[test]
fn flush_and_compaction_keep_the_values() {
    let mut db = TimeSeriesDB::new("d".to_string(), 15);
    let mut expected = Vec::new();
    for i in 0..20u64 {
        db.insert("test_series".to_string(), point(1609459200 + 60 * i, 20.0 + i as f64), 7);
        expected.push((1609459200 + 60 * i, 20.0 + i as f64));
    }
    let stats = db.get_stats();
    assert_eq!(stats.sstable_count, 1);
    assert_eq!(stats.memtable_size, 1);
    assert_eq!(stats.total_series, 1);
    db.compact(8);
    assert_eq!(db.get_stats().sstable_count, 1);
    assert_eq!(values(&db.query_range("test_series", None, None)), expected);
    db.flush(9);
    assert_eq!(db.get_stats().sstable_count, 2);
    db.compact(10);
    assert_eq!(db.get_stats().sstable_count, 1);
    assert_eq!(values(&db.query_range("test_series", None, None)), expected);
}

#[test]
fn a_flush_keeps_the_last_write_at_a_timestamp() {
    let mut db = TimeSeriesDB::new("d".to_string(), 1000);
    db.insert("s".to_string(), point(100, 1.0), 1);
    db.insert("s".to_string(), point(100, 2.0), 1);
    assert_eq!(values(&db.query_range("s", None, None)), vec![(100, 1.0)]);
    db.flush(2);
    assert_eq!(db.get_stats().sstable_count, 1);
    assert_eq!(values(&db.query_range("s", None, None)), vec![(100, 2.0)]);
}

#[test]
fn a_flush_by_a_full_memtable_keeps_the_last_write() {
    let mut db = TimeSeriesDB::new("d".to_string(), 2);
    db.insert("s".to_string(), point(1000, 1.0), 1);
    db.insert("s".to_string(), point(1000, 2.0), 1);
    let stats = db.get_stats();
    assert_eq!((stats.memtable_size, stats.sstable_count), (0, 1));
    assert_eq!(values(&db.query_range("s", None, None)), vec![(1000, 2.0)]);
}

#[test]
fn a_flush_keeps_the_last_of_each_repeated_timestamp_in_order() {
    let mut db = TimeSeriesDB::new("d".to_string(), 1000);
    for (timestamp, value) in
        [(100, 1.0), (160, 2.0), (100, 3.0), (220, 4.0), (160, 5.0), (100, 6.0), (280, 7.0)]
    {
        db.insert("s".to_string(), point(timestamp, value), 1);
    }
    db.insert("other".to_string(), point(100, 9.0), 1);
    db.flush(2);
    let actions = db.take_file_actions();
    assert_eq!(actions.len(), 1);
    match &actions[0] {
        FileAction::Write { series, .. } => {
            assert_eq!(series.len(), 2);
            assert_eq!(series[0].count, 4);
            assert_eq!((series[0].min_timestamp, series[0].max_timestamp), (100, 280));
            let stored: Vec<(u64, f64)> =
                series[0].samples().iter().map(|s| (s.0, f64::from_bits(s.1))).collect();
            assert_eq!(stored, vec![(220, 4.0), (160, 5.0), (100, 6.0), (280, 7.0)]);
        }
        FileAction::Remove { .. } => panic!("a flush writes a segment"),
    }
    assert_eq!(
        values(&db.query_range("s", None, None)),
        vec![(100, 6.0), (160, 5.0), (220, 4.0), (280, 7.0)]
    );
    assert_eq!(values(&db.query_range("other", None, None)), vec![(100, 9.0)]);
}

#[test]
fn a_flushed_block_has_the_tags_of_the_first_sample_inserted() {
    let mut first = BTreeMap::new();
    first.insert("unit".to_string(), "c".to_string());
    let mut second = BTreeMap::new();
    second.insert("unit".to_string(), "f".to_string());
    let mut db = TimeSeriesDB::new("d".to_string(), 1000);
    let earlier = DataPoint { timestamp: 100, value_bits: 1.0f64.to_bits(), tags: first.clone() };
    let later = DataPoint { timestamp: 100, value_bits: 2.0f64.to_bits(), tags: second };
    db.insert("s".to_string(), earlier, 1);
    db.insert("s".to_string(), later, 1);
    db.flush(2);
    let found = db.query_range("s", None, None);
    assert_eq!(values(&found), vec![(100, 2.0)]);
    assert_eq!(found[0].tags, first);
}

#[test]
fn keep_last_copies_leaves_distinct_timestamps_as_they_are() {
    let points = vec![point(300, 1.0), point(100, 2.0), point(200, 3.0)];
    assert_eq!(values(&keep_last_copies(&points)), vec![(300, 1.0), (100, 2.0), (200, 3.0)]);
    assert_eq!(values(&keep_last_copies(&Vec::new())), vec![]);
    let repeated = vec![point(5, 1.0), point(5, 2.0), point(5, 3.0)];
    assert_eq!(values(&keep_last_copies(&repeated)), vec![(5, 3.0)]);
}

#[test]
fn a_block_of_a_bucket_differs_from_one_of_all_points_on_a_repeat() {
    let points = vec![point(100, 1.0), point(160, 2.0), point(100, 3.0)];
    let of_bucket = SeriesData::from_bucket("s".to_string(), &points);
    let of_points = SeriesData::from_points("s".to_string(), &points);
    assert_eq!(of_bucket.count, 2);
    assert_eq!(of_points.count, 3);
    let kept: Vec<(u64, f64)> =
        of_bucket.samples().iter().map(|s| (s.0, f64::from_bits(s.1))).collect();
    assert_eq!(kept, vec![(160, 2.0), (100, 3.0)]);
}

#[test]
fn on_a_tie_the_segment_wins_over_the_memtable() {
    let mut db = TimeSeriesDB::new("d".to_string(), 1000);
    db.insert("s".to_string(), point(100, 1.0), 1);
    db.flush(2);
    db.insert("s".to_string(), point(100, 2.0), 3);
    db.insert("s".to_string(), point(50, 3.0), 3);
    assert_eq!(values(&db.query_range("s", None, None)), vec![(50, 3.0), (100, 1.0)]);
}

#[test]
fn deleting_the_sole_series_of_a_segment_removes_its_file() {
    let mut db = TimeSeriesDB::new("d".to_string(), 2);
    db.insert("only".to_string(), point(1, 1.0), 42);
    db.insert("only".to_string(), point(2, 2.0), 42);
    assert_eq!(db.get_stats().sstable_count, 1);
    let written = db.take_file_actions();
    assert_eq!(written.len(), 1);
    assert!(matches!(&written[0], FileAction::Write { path, series }
        if path == "d/sstable_42.data" && series.len() == 1));

    assert_eq!(db.delete("only", None), Ok(true));
    assert_eq!(db.get_stats().sstable_count, 0);
    let removed = db.take_file_actions();
    assert_eq!(removed.len(), 1);
    assert!(matches!(&removed[0], FileAction::Remove { path } if path == "d/sstable_42.data"));
    assert!(!db.get_all_series().contains(&"only".to_string()));
    assert_eq!(db.query_range("only", None, None).len(), 0);
}

#[test]
fn deleting_a_series_twice_finds_nothing_the_second_time() {
    let mut db = TimeSeriesDB::new("d".to_string(), 3);
    for t in 0..5u64 {
        db.insert("a".to_string(), point(t, 1.0), 1);
        db.insert("b".to_string(), point(t, 2.0), 1);
    }
    assert_eq!(db.delete("a", None), Ok(true));
    let stats = db.get_stats();
    let left = values(&db.query_range("b", None, None));
    let _ = db.take_file_actions();
    assert_eq!(db.delete("a", None), Ok(false));
    assert_eq!(db.get_stats(), stats);
    assert_eq!(values(&db.query_range("b", None, None)), left);
    assert_eq!(db.take_file_actions().len(), 0);
}

#[test]
fn compacting_twice_is_compacting_once() {
    let mut db = TimeSeriesDB::new("d".to_string(), 2);
    for t in 0..9u64 {
        db.insert("a".to_string(), point(t * 10, t as f64), t);
    }
    db.compact(100);
    let once = values(&db.query_range("a", None, None));
    let stats = db.get_stats();
    let _ = db.take_file_actions();
    db.compact(101);
    assert_eq!(values(&db.query_range("a", None, None)), once);
    assert_eq!(db.get_stats(), stats);
    assert_eq!(db.take_file_actions().len(), 0);
}

#[test]
fn compaction_writes_the_new_file_before_removing_the_old() {
    let mut db = TimeSeriesDB::new("d".to_string(), 1);
    db.insert("a".to_string(), point(1, 1.0), 10);
    db.insert("b".to_string(), point(2, 2.0), 11);
    let _ = db.take_file_actions();
    db.compact(12);
    let actions = db.take_file_actions();
    assert_eq!(actions.len(), 3);
    assert!(matches!(&actions[0], FileAction::Write { path, series }
        if path == "d/compacted_12.data" && series.len() == 2));
    assert!(matches!(&actions[1], FileAction::Remove { path } if path == "d/sstable_10.data"));
    assert!(matches!(&actions[2], FileAction::Remove { path } if path == "d/sstable_11.data"));
    assert_eq!(db.get_stats().sstable_count, 1);
}

#[test]
fn compaction_of_fewer_than_two_segments_does_nothing() {
    let mut db = TimeSeriesDB::new("d".to_string(), 1);
    db.compact(1);
    db.insert("a".to_string(), point(1, 1.0), 10);
    let _ = db.take_file_actions();
    db.compact(12);
    assert_eq!(db.take_file_actions().len(), 0);
    assert_eq!(db.get_stats().sstable_count, 1);
}

#[test]
fn query_covers_every_insert_across_flushes() {
    let mut db = TimeSeriesDB::new("d".to_string(), 4);
    let mut expected = Vec::new();
    for i in 0..23u64 {
        let t = 1000 + 7 * i;
        db.insert("s".to_string(), point(t, i as f64), i);
        db.insert("other".to_string(), point(t, -1.0), i);
        expected.push((t, i as f64));
    }
    assert!(db.get_stats().sstable_count > 1);
    assert_eq!(values(&db.query_range("s", None, None)), expected);
}

#[test]
fn query_window_selects_by_timestamp() {
    let mut db = TimeSeriesDB::new("d".to_string(), 4);
    for i in 0..10u64 {
        db.insert("s".to_string(), point(100 + i, i as f64), i);
    }
    assert_eq!(timestamps(&db.query_range("s", Some(103), Some(107))), vec![103, 104, 105, 106, 107]);
    assert_eq!(timestamps(&db.query_range("s", None, Some(101))), vec![100, 101]);
    assert_eq!(timestamps(&db.query_range("s", Some(108), None)), vec![108, 109]);
    assert_eq!(db.query_range("s", Some(200), None).len(), 0);
}

#[test]
fn update_reaches_a_flushed_sample() {
    let mut db = TimeSeriesDB::new("d".to_string(), 2);
    db.insert("s".to_string(), point(1, 1.0), 5);
    db.insert("s".to_string(), point(2, 2.0), 5);
    db.insert("s".to_string(), point(3, 3.0), 6);
    let _ = db.take_file_actions();
    assert_eq!(db.update("s", 2, 9.0f64.to_bits()), Ok(true));
    assert_eq!(values(&db.query_range("s", None, None)), vec![(1, 1.0), (2, 9.0), (3, 3.0)]);
    let actions = db.take_file_actions();
    assert_eq!(actions.len(), 1);
    assert!(matches!(&actions[0], FileAction::Write { path, .. } if path == "d/sstable_5.data"));
    assert_eq!(db.update("s", 4, 9.0f64.to_bits()), Ok(false));
    assert_eq!(db.update("t", 2, 9.0f64.to_bits()), Ok(false));
    assert_eq!(db.take_file_actions().len(), 0);
}

#[test]
fn a_corrupt_segment_reads_as_empty_and_fails_writes() {
    let mut db = TimeSeriesDB::new("d".to_string(), 100);
    db.recover("d/bad.data".to_string(), &[7, 7, 7]);
    db.insert("s".to_string(), point(1, 1.0), 5);
    assert_eq!(db.get_stats().sstable_count, 1);
    assert_eq!(values(&db.query_range("s", None, None)), vec![(1, 1.0)]);
    assert_eq!(db.update("s", 1, 2.0f64.to_bits()), Ok(true));
    assert_eq!(db.update("s", 9, 2.0f64.to_bits()), Err(SegmentError::Corrupt));
    assert_eq!(db.delete("s", Some(1)), Err(SegmentError::Corrupt));
    assert_eq!(db.query_range("s", None, None).len(), 0);
    assert_eq!(db.get_stats().sstable_count, 1);
}

#[test]
fn recovered_segments_are_queried() {
    let mut source = TimeSeriesDB::new("d".to_string(), 2);
    source.insert("s".to_string(), point(1, 1.0), 5);
    source.insert("s".to_string(), point(2, 2.0), 5);
    let actions = source.take_file_actions();
    let series: &Vec<SeriesData> = match &actions[0] {
        FileAction::Write { series, .. } => series,
        FileAction::Remove { .. } => panic!("a flush writes a file"),
    };
    let bytes = timeseries_db::encode_segment(series);

    let mut db = TimeSeriesDB::new("d".to_string(), 2);
    db.recover("d/sstable_5.data".to_string(), &bytes);
    db.recover("d/empty.data".to_string(), &[]);
    assert_eq!(db.get_stats().sstable_count, 2);
    assert_eq!(values(&db.query_range("s", None, None)), vec![(1, 1.0), (2, 2.0)]);
    assert_eq!(db.get_all_series(), vec!["s".to_string()]);
}

#[test]
fn all_series_lists_each_key_once() {
    let mut db = TimeSeriesDB::new("d".to_string(), 3);
    for key in ["a", "b", "a", "c", "b", "d", "a"] {
        db.insert(key.to_string(), point(1, 1.0), 1);
    }
    let mut keys = db.get_all_series();
    assert_eq!(keys.len(), 4);
    keys.sort();
    assert_eq!(keys, vec!["a", "b", "c", "d"]);
    assert_eq!(db.get_stats().total_series, 4);
}

#[test]
fn an_empty_memtable_flushes_to_nothing() {
    let mut db = TimeSeriesDB::new("d".to_string(), 3);
    db.flush(1);
    assert_eq!(db.get_stats().sstable_count, 0);
    assert_eq!(db.take_file_actions().len(), 0);
}

#[test]
fn merge_orders_by_timestamp_and_keeps_the_first_of_equals() {
    let collected =
        vec![point(30, 1.0), point(10, 2.0), point(30, 3.0), point(20, 4.0), point(10, 5.0)];
    assert_eq!(values(&merge_by_timestamp(&collected)), vec![(10, 2.0), (20, 4.0), (30, 1.0)]);
    assert_eq!(merge_by_timestamp(&Vec::new()).len(), 0);
}

#[test]
fn segment_paths_join_directory_prefix_and_seconds() {
    assert_eq!(segment_path("data", "sstable_", 1700000000), "data/sstable_1700000000.data");
    assert_eq!(segment_path("data/", "compacted_", 0), "data/compacted_0.data");
    assert_eq!(segment_path("", "sstable_", 9), "sstable_9.data");
    assert_eq!(
        segment_path("./tsdb_data", "sstable_", u64::MAX),
        "./tsdb_data/sstable_18446744073709551615.data"
    );
}

#[test]
fn an_unreadable_segment_stays_in_the_list() {
    let mut db = TimeSeriesDB::new("d".to_string(), 100);
    db.recover_unreadable("d/locked.data".to_string());
    assert_eq!(db.get_stats().sstable_count, 1);
    assert_eq!(db.query_range("s", None, None).len(), 0);
    assert_eq!(db.get_all_series().len(), 0);
    assert_eq!(db.update("s", 1, 0), Err(SegmentError::Corrupt));
    assert_eq!(db.delete("s", None), Err(SegmentError::Corrupt));
    assert_eq!(db.get_stats().sstable_count, 1);
}

#[test]
fn segment_file_names_end_in_data() {
    assert!(timeseries_db::paths::is_segment_file_name("sstable_1700000000.data"));
    assert!(timeseries_db::paths::is_segment_file_name("compacted_1.data"));
    assert!(timeseries_db::paths::is_segment_file_name("a.b.data"));
    assert!(!timeseries_db::paths::is_segment_file_name(".data"));
    assert!(!timeseries_db::paths::is_segment_file_name("sstable_1.dat"));
    assert!(!timeseries_db::paths::is_segment_file_name("sstable_1.data.tmp"));
    assert!(!timeseries_db::paths::is_segment_file_name("data"));
    assert!(!timeseries_db::paths::is_segment_file_name(""));
}

#[test]
fn a_failed_delete_keeps_what_it_removed_before() {
    let mut db = TimeSeriesDB::new("d".to_string(), 1);
    db.insert("s".to_string(), point(1, 1.0), 5);
    db.recover_unreadable("d/bad.data".to_string());
    db.insert("s".to_string(), point(2, 2.0), 6);
    let _ = db.take_file_actions();
    assert_eq!(db.delete("s", None), Err(SegmentError::Corrupt));
    // The first segment was emptied before the deletion stopped.
    let actions = db.take_file_actions();
    assert_eq!(actions.len(), 1);
    assert!(matches!(&actions[0], FileAction::Remove { path } if path == "d/sstable_5.data"));
    assert_eq!(values(&db.query_range("s", None, None)), vec![(2, 2.0)]);
    assert_eq!(db.get_stats().sstable_count, 3);
}

#[test]
fn attached_segments_are_queried_in_their_order() {
    let mut db = TimeSeriesDB::new("d".to_string(), 100);
    let older = SeriesData::from_points("s".to_string(), &vec![point(1, 1.0), point(2, 2.0)]);
    let newer = SeriesData::from_points("s".to_string(), &vec![point(2, 9.0), point(3, 3.0)]);
    db.attach(SSTable::with_content("d/a.data".to_string(), Some(vec![older])));
    db.attach(SSTable::with_content("d/b.data".to_string(), Some(vec![newer])));
    assert_eq!(values(&db.query_range("s", None, None)), vec![(1, 1.0), (2, 2.0), (3, 3.0)]);
    db.compact(50);
    assert_eq!(db.get_stats().sstable_count, 1);
    assert_eq!(values(&db.query_range("s", None, None)), vec![(1, 1.0), (2, 2.0), (3, 3.0)]);
}

#[test]
fn a_flush_does_not_change_what_scans_yield() {
    let mut db = TimeSeriesDB::new("d".to_string(), 1000);
    for i in 0..7u64 {
        db.insert("s".to_string(), point(500 - 3 * i, 0.25 * i as f64), 1);
        db.insert("t".to_string(), point(10 + i, 1.0), 1);
    }
    let before_s = values(&db.query_range("s", None, None));
    let before_t = values(&db.query_range("t", Some(12), Some(14)));
    db.flush(2);
    assert_eq!(db.get_stats().memtable_size, 0);
    assert_eq!(db.get_stats().sstable_count, 1);
    assert_eq!(values(&db.query_range("s", None, None)), before_s);
    assert_eq!(values(&db.query_range("t", Some(12), Some(14))), before_t);
}

#[test]
fn an_insert_is_seen_by_the_next_scan() {
    let mut db = TimeSeriesDB::new("d".to_string(), 3);
    for i in 0..10u64 {
        db.insert("s".to_string(), point(100 + i, i as f64), i);
        let found = db.query_range("s", None, None);
        assert_eq!(found.len() as u64, i + 1);
        assert_eq!(values(&found)[i as usize], (100 + i, i as f64));
    }
}

#[test]
fn a_point_deletion_in_a_segment_keeps_the_other_samples() {
    let mut db = TimeSeriesDB::new("d".to_string(), 4);
    for i in 0..10u64 {
        db.insert("s".to_string(), point(100 + i, i as f64), i);
    }
    let _ = db.take_file_actions();
    assert_eq!(db.delete("s", Some(102)), Ok(true));
    assert_eq!(db.delete("s", Some(109)), Ok(true));
    assert_eq!(db.delete("s", Some(500)), Ok(false));
    let expected: Vec<(u64, f64)> =
        (0..10u64).filter(|i| *i != 2 && *i != 9).map(|i| (100 + i, i as f64)).collect();
    assert_eq!(values(&db.query_range("s", None, None)), expected);
    let actions = db.take_file_actions();
    assert_eq!(actions.len(), 1);
    assert!(matches!(&actions[0], FileAction::Write { path, series }
        if path == "d/sstable_3.data" && series.len() == 1 && series[0].count == 3));
}

#[test]
fn a_compaction_whose_write_failed_changes_nothing() {
    let mut db = TimeSeriesDB::new("d".to_string(), 1);
    db.insert("a".to_string(), point(1, 1.0), 10);
    db.insert("a".to_string(), point(2, 2.0), 11);
    let _ = db.take_file_actions();
    let (path, blocks) = db.plan_compaction(12).unwrap();
    assert_eq!(path, "d/compacted_12.data");
    assert_eq!(blocks.len(), 1);
    assert_eq!(blocks[0].count, 2);
    assert_eq!(db.get_stats().sstable_count, 2);
    db.finish_compaction(path, blocks, false);
    assert_eq!(db.get_stats().sstable_count, 2);
    assert_eq!(db.take_file_actions().len(), 0);
    assert_eq!(values(&db.query_range("a", None, None)), vec![(1, 1.0), (2, 2.0)]);
}

#[test]
fn a_compaction_whose_write_went_through_removes_the_old_files() {
    let mut db = TimeSeriesDB::new("d".to_string(), 1);
    db.insert("a".to_string(), point(1, 1.0), 10);
    db.insert("a".to_string(), point(2, 2.0), 11);
    let _ = db.take_file_actions();
    let (path, blocks) = db.plan_compaction(12).unwrap();
    db.finish_compaction(path, blocks, true);
    assert_eq!(db.get_stats().sstable_count, 1);
    let actions = db.take_file_actions();
    assert_eq!(actions.len(), 2);
    assert!(matches!(&actions[0], FileAction::Remove { path } if path == "d/sstable_10.data"));
    assert!(matches!(&actions[1], FileAction::Remove { path } if path == "d/sstable_11.data"));
    assert_eq!(values(&db.query_range("a", None, None)), vec![(1, 1.0), (2, 2.0)]);
}

#[test]
fn there_is_nothing_to_plan_with_fewer_than_two_segments() {
    let mut db = TimeSeriesDB::new("d".to_string(), 1);
    assert!(db.plan_compaction(1).is_none());
    db.insert("a".to_string(), point(1, 1.0), 10);
    assert!(db.plan_compaction(2).is_none());
}
