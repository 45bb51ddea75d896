use std::collections::BTreeMap;
use timeseries_db::{DataPoint, Memtable};

fn point(timestamp: u64, value: f64) -> DataPoint {
    DataPoint { timestamp, value_bits: value.to_bits(), tags: BTreeMap::new() }
}

fn values(points: &[DataPoint]) -> Vec<(u64, f64)> {
    points.iter().map(|p| (p.timestamp, f64::from_bits(p.value_bits))).collect()
}

#[test]
fn insert_appends_in_insertion_order() {
    let mut memtable = Memtable::new(10);
    memtable.insert("a".to_string(), point(30, 1.0));
    memtable.insert("b".to_string(), point(5, 9.0));
    memtable.insert("a".to_string(), point(10, 2.0));
    assert_eq!(memtable.len(), 3);
    assert_eq!(values(&memtable.query("a", None, None)), vec![(30, 1.0), (10, 2.0)]);
    assert_eq!(values(&memtable.query("b", None, None)), vec![(5, 9.0)]);
    assert_eq!(memtable.query("c", None, None).len(), 0);
    let keys: Vec<&str> = memtable.get_data().iter().map(|b| b.series_key.as_str()).collect();
    assert_eq!(keys, vec!["a", "b"]);
}

#[test]
fn query_window_is_inclusive_on_both_sides() {
    let mut memtable = Memtable::new(10);
    for t in [1u64, 2, 3, 4, 5] {
        memtable.insert("s".to_string(), point(t, t as f64));
    }
    assert_eq!(values(&memtable.query("s", Some(2), Some(4))), vec![(2, 2.0), (3, 3.0), (4, 4.0)]);
    assert_eq!(values(&memtable.query("s", Some(4), None)), vec![(4, 4.0), (5, 5.0)]);
    assert_eq!(values(&memtable.query("s", None, Some(1))), vec![(1, 1.0)]);
    assert_eq!(memtable.query("s", Some(4), Some(2)).len(), 0);
}

#[test]
fn is_full_at_the_threshold() {
    let mut memtable = Memtable::new(2);
    assert!(!memtable.is_full());
    memtable.insert("s".to_string(), point(1, 1.0));
    assert!(!memtable.is_full());
    memtable.insert("s".to_string(), point(2, 1.0));
    assert!(memtable.is_full());
    assert!(Memtable::new(0).is_full());
}

#[test]
fn update_replaces_the_first_sample_at_the_timestamp() {
    let mut memtable = Memtable::new(10);
    memtable.insert("s".to_string(), point(1, 1.0));
    memtable.insert("s".to_string(), point(2, 2.0));
    memtable.insert("s".to_string(), point(2, 3.0));
    assert!(memtable.update("s", 2, 9.0f64.to_bits()));
    assert_eq!(values(&memtable.query("s", None, None)), vec![(1, 1.0), (2, 9.0), (2, 3.0)]);
    assert!(!memtable.update("s", 7, 9.0f64.to_bits()));
    assert!(!memtable.update("t", 2, 9.0f64.to_bits()));
    assert_eq!(memtable.len(), 3);
}

#[test]
fn delete_at_a_timestamp_keeps_the_others() {
    let mut memtable = Memtable::new(10);
    memtable.insert("s".to_string(), point(1, 1.0));
    memtable.insert("s".to_string(), point(2, 2.0));
    memtable.insert("s".to_string(), point(3, 3.0));
    assert!(memtable.delete("s", Some(2)));
    assert_eq!(memtable.len(), 2);
    assert_eq!(values(&memtable.query("s", None, None)), vec![(1, 1.0), (3, 3.0)]);
    assert!(!memtable.delete("s", Some(2)));
    assert!(!memtable.delete("t", Some(1)));
    assert_eq!(memtable.len(), 2);
}

#[test]
fn delete_counts_every_sample_removed() {
    let mut memtable = Memtable::new(10);
    memtable.insert("s".to_string(), point(2, 1.0));
    memtable.insert("s".to_string(), point(2, 2.0));
    memtable.insert("s".to_string(), point(3, 3.0));
    assert!(memtable.delete("s", Some(2)));
    assert_eq!(memtable.len(), 1);
}

#[test]
fn delete_of_the_last_sample_drops_the_bucket() {
    let mut memtable = Memtable::new(10);
    memtable.insert("s".to_string(), point(1, 1.0));
    memtable.insert("t".to_string(), point(1, 1.0));
    assert!(memtable.delete("s", Some(1)));
    assert_eq!(memtable.get_data().len(), 1);
    assert_eq!(memtable.get_data()[0].series_key, "t");
}

#[test]
fn delete_of_a_series_drops_its_bucket() {
    let mut memtable = Memtable::new(10);
    memtable.insert("s".to_string(), point(1, 1.0));
    memtable.insert("s".to_string(), point(2, 1.0));
    memtable.insert("t".to_string(), point(1, 1.0));
    assert!(memtable.delete("s", None));
    assert_eq!(memtable.len(), 1);
    assert_eq!(memtable.query("s", None, None).len(), 0);
    assert!(!memtable.delete("s", None));
    assert_eq!(memtable.len(), 1);
}

#[test]
fn clear_empties_the_buffer() {
    let mut memtable = Memtable::new(1);
    memtable.insert("s".to_string(), point(1, 1.0));
    memtable.clear();
    assert_eq!(memtable.len(), 0);
    assert_eq!(memtable.get_data().len(), 0);
    assert!(!memtable.is_full());
}

#[test]
fn drain_takes_the_buckets_out() {
    let mut memtable = Memtable::new(5);
    memtable.insert("s".to_string(), point(1, 1.0));
    memtable.insert("t".to_string(), point(2, 2.0));
    memtable.insert("s".to_string(), point(3, 3.0));
    let buckets = memtable.drain();
    assert_eq!(buckets.len(), 2);
    assert_eq!(buckets[0].series_key, "s");
    assert_eq!(values(&buckets[0].points), vec![(1, 1.0), (3, 3.0)]);
    assert_eq!(buckets[1].series_key, "t");
    assert_eq!(memtable.len(), 0);
    assert_eq!(memtable.drain().len(), 0);
}
