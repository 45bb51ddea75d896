//! Samples and the compressed blocks that segments are made of.

use crate::compression::{compress_samples, decompress_samples, gorilla_decode, gorilla_encode};
use crate::seq_lemmas::{lemma_filter_all, lemma_filter_element, lemma_filter_removes_one};
use std::collections::BTreeMap;
use vstd::prelude::*;

verus! {

/// One sample. The value is carried as the 64 bits of its IEEE-754
/// representation; the tags are metadata of the series it belongs to.
#[derive(Debug, Clone)]
pub struct DataPoint {
    pub timestamp: u64,
    pub value_bits: u64,
    pub tags: BTreeMap<String, String>,
}

/// The content of a map of tags: the text of each key with the text of its
/// value.
pub open spec fn tag_contents(tags: Map<String, String>) -> Map<Seq<char>, Seq<char>> {
    Map::new(
        |k: Seq<char>| exists|s: String| #[trigger] tags.contains_key(s) && s@ == k,
        |k: Seq<char>| tags[choose|s: String| #[trigger] tags.contains_key(s) && s@ == k]@,
    )
}

/// A map without tags has no content.
pub proof fn lemma_no_tags()
    ensures
        tag_contents(Map::<String, String>::empty()) == Map::<Seq<char>, Seq<char>>::empty(),
{
    assert(tag_contents(Map::<String, String>::empty()) =~= Map::<Seq<char>, Seq<char>>::empty());
}

/// The mathematical content of a sample.
pub struct DataPointView {
    pub timestamp: u64,
    pub value_bits: u64,
    pub tags: Map<Seq<char>, Seq<char>>,
}

impl View for DataPoint {
    type V = DataPointView;

    open spec fn view(&self) -> DataPointView {
        DataPointView {
            timestamp: self.timestamp,
            value_bits: self.value_bits,
            tags: tag_contents(self.tags@),
        }
    }
}

impl DataPoint {
    /// A copy with the same content.
    pub fn duplicate(&self) -> (copy: DataPoint)
        ensures
            copy@ == self@,
    {
        DataPoint {
            timestamp: self.timestamp,
            value_bits: self.value_bits,
            tags: self.tags.clone(),
        }
    }
}

/// The contents of a sequence of samples.
pub open spec fn point_views(points: Seq<DataPoint>) -> Seq<DataPointView> {
    points.map_values(|p: DataPoint| p@)
}

/// The (timestamp, value) pairs of a sequence of samples.
pub open spec fn samples_of(points: Seq<DataPointView>) -> Seq<(u64, u64)> {
    points.map_values(|p: DataPointView| (p.timestamp, p.value_bits))
}

/// The samples `pairs`, all with the tags `tags`.
pub open spec fn tagged(pairs: Seq<(u64, u64)>, tags: Map<Seq<char>, Seq<char>>) -> Seq<
    DataPointView,
> {
    pairs.map_values(
        |s: (u64, u64)| DataPointView { timestamp: s.0, value_bits: s.1, tags },
    )
}

/// The place of the first sample with the timestamp `timestamp`, where there
/// is one.
pub open spec fn first_at(points: Seq<DataPointView>, timestamp: u64) -> int {
    choose|j: int|
        0 <= j < points.len() && (#[trigger] points[j]).timestamp == timestamp && forall|k: int|
            0 <= k < j ==> (#[trigger] points[k]).timestamp != timestamp
}

/// Whether some sample has the timestamp `timestamp`.
pub open spec fn has_timestamp(points: Seq<DataPointView>, timestamp: u64) -> bool {
    exists|j: int| 0 <= j < points.len() && (#[trigger] points[j]).timestamp == timestamp
}

/// The first place with a timestamp is the only place that has it with none
/// before.
pub proof fn lemma_first_at(points: Seq<DataPointView>, timestamp: u64, j: int)
    requires
        0 <= j < points.len(),
        points[j].timestamp == timestamp,
        forall|k: int| 0 <= k < j ==> (#[trigger] points[k]).timestamp != timestamp,
    ensures
        has_timestamp(points, timestamp),
        first_at(points, timestamp) == j,
{
    let f = first_at(points, timestamp);
    assert(0 <= f < points.len() && points[f].timestamp == timestamp);
    if f < j {
        assert(points[f].timestamp != timestamp);
    }
    if j < f {
        assert(points[j].timestamp != timestamp);
    }
}

/// Where some sample has the timestamp, the first place with it is in range,
/// has it, and has none with it before.
pub proof fn lemma_first_at_exists(points: Seq<DataPointView>, timestamp: u64)
    requires
        has_timestamp(points, timestamp),
    ensures
        0 <= first_at(points, timestamp) < points.len(),
        points[first_at(points, timestamp)].timestamp == timestamp,
        forall|k: int|
            0 <= k < first_at(points, timestamp) ==> (#[trigger] points[k]).timestamp != timestamp,
    decreases points.len(),
{
    let some = choose|j: int| 0 <= j < points.len() && (#[trigger] points[j]).timestamp == timestamp;
    lemma_least_place(points, timestamp, some);
}

proof fn lemma_least_place(points: Seq<DataPointView>, timestamp: u64, j: int)
    requires
        0 <= j < points.len(),
        points[j].timestamp == timestamp,
    ensures
        exists|f: int|
            0 <= f <= j && (#[trigger] points[f]).timestamp == timestamp && forall|k: int|
                0 <= k < f ==> (#[trigger] points[k]).timestamp != timestamp,
    decreases j,
{
    if exists|k: int| 0 <= k < j && (#[trigger] points[k]).timestamp == timestamp {
        let k = choose|k: int| 0 <= k < j && (#[trigger] points[k]).timestamp == timestamp;
        lemma_least_place(points, timestamp, k);
    } else {
        assert(points[j].timestamp == timestamp);
    }
}

/// No two samples have the same timestamp.
pub open spec fn distinct_timestamps(points: Seq<DataPointView>) -> bool {
    forall|i: int, j: int|
        0 <= i < j < points.len() ==> (#[trigger] points[i]).timestamp != (
        #[trigger] points[j]).timestamp
}

/// Of the samples with one timestamp the last alone: each sample that no
/// later one has the timestamp of, in order.
pub open spec fn last_copies(points: Seq<DataPointView>) -> Seq<DataPointView>
    decreases points.len(),
{
    if points.len() == 0 {
        Seq::empty()
    } else {
        let last = points.last();
        last_copies(points.drop_last()).filter(
            |p: DataPointView| p.timestamp != last.timestamp,
        ).push(last)
    }
}

/// The last copies of samples have no timestamp twice, and they have the
/// timestamps of the samples.
pub proof fn lemma_last_copies(points: Seq<DataPointView>)
    ensures
        distinct_timestamps(last_copies(points)),
        forall|t: u64| has_timestamp(last_copies(points), t) == has_timestamp(points, t),
    decreases points.len(),
{
    let kept = last_copies(points);
    if points.len() > 0 {
        let front = points.drop_last();
        let last = points.last();
        let other = |p: DataPointView| p.timestamp != last.timestamp;
        let before = last_copies(front);
        let left = before.filter(other);
        lemma_last_copies(front);
        assert forall|i: int| 0 <= i < left.len() implies (#[trigger] left[i]).timestamp
            != last.timestamp && has_timestamp(front, left[i].timestamp) by {
            lemma_filter_element(before, other, i);
            let j = choose|j: int| 0 <= j < before.len() && #[trigger] before[j] == left[i];
            assert(before[j].timestamp == left[i].timestamp);
            assert(has_timestamp(before, left[i].timestamp));
        }
        assert(distinct_timestamps(left)) by {
            lemma_filter_keeps_distinct(before, last.timestamp);
        }
        assert(distinct_timestamps(kept)) by {
            assert forall|i: int, j: int| 0 <= i < j < kept.len() implies (
            #[trigger] kept[i]).timestamp != (#[trigger] kept[j]).timestamp by {
                if j < left.len() {
                    assert(left[i].timestamp != left[j].timestamp);
                } else {
                    assert(left[i].timestamp != last.timestamp);
                }
            }
        }
        assert forall|t: u64| has_timestamp(kept, t) == has_timestamp(points, t) by {
            assert(has_timestamp(before, t) == has_timestamp(front, t));
            if has_timestamp(kept, t) {
                let i = choose|i: int| 0 <= i < kept.len() && (#[trigger] kept[i]).timestamp == t;
                if i < left.len() {
                    assert(has_timestamp(front, left[i].timestamp));
                    let k = choose|k: int|
                        0 <= k < front.len() && (#[trigger] front[k]).timestamp == t;
                    assert(points[k].timestamp == t);
                } else {
                    assert(points[points.len() - 1].timestamp == t);
                }
            }
            if has_timestamp(points, t) {
                let k = choose|k: int| 0 <= k < points.len() && (#[trigger] points[k]).timestamp == t;
                if t == last.timestamp {
                    assert(kept[kept.len() - 1].timestamp == t);
                } else {
                    assert(front[k].timestamp == t);
                    assert(has_timestamp(before, t));
                    let j = choose|j: int|
                        0 <= j < before.len() && (#[trigger] before[j]).timestamp == t;
                    before.lemma_filter_contains(other, j);
                    let m = choose|m: int| 0 <= m < left.len() && left[m] == before[j];
                    assert(kept[m].timestamp == t);
                }
            }
        }
    }
}

/// The last sample with its timestamp is among the last copies.
pub proof fn lemma_last_copy_is_kept(points: Seq<DataPointView>, i: int)
    requires
        0 <= i < points.len(),
        forall|j: int| i < j < points.len() ==> (#[trigger] points[j]).timestamp != points[i].timestamp,
    ensures
        last_copies(points).contains(points[i]),
    decreases points.len(),
{
    let kept = last_copies(points);
    let front = points.drop_last();
    let last = points.last();
    let other = |p: DataPointView| p.timestamp != last.timestamp;
    let before = last_copies(front);
    let left = before.filter(other);
    if i == points.len() - 1 {
        assert(kept[kept.len() - 1] == points[i]);
    } else {
        assert(points[points.len() - 1].timestamp != points[i].timestamp);
        assert forall|j: int| i < j < front.len() implies (#[trigger] front[j]).timestamp
            != front[i].timestamp by {
            assert(points[j].timestamp != points[i].timestamp);
        }
        lemma_last_copy_is_kept(front, i);
        let b = choose|b: int| 0 <= b < before.len() && before[b] == front[i];
        before.lemma_filter_contains(other, b);
        let m = choose|m: int| 0 <= m < left.len() && left[m] == before[b];
        assert(kept[m] == points[i]);
    }
}

/// Taking the samples at one timestamp out of samples without a timestamp
/// twice leaves none twice.
proof fn lemma_filter_keeps_distinct(points: Seq<DataPointView>, timestamp: u64)
    requires
        distinct_timestamps(points),
    ensures
        distinct_timestamps(points.filter(|p: DataPointView| p.timestamp != timestamp)),
{
    let other = |p: DataPointView| p.timestamp != timestamp;
    if has_timestamp(points, timestamp) {
        let j = choose|j: int| 0 <= j < points.len() && (#[trigger] points[j]).timestamp == timestamp;
        assert forall|i: int| 0 <= i < points.len() && i != j implies other(#[trigger] points[i]) by {
            if i < j {
                assert(points[i].timestamp != points[j].timestamp);
            } else {
                assert(points[j].timestamp != points[i].timestamp);
            }
        }
        lemma_filter_removes_one(points, other, j);
        let left = points.remove(j);
        assert forall|a: int, b: int| 0 <= a < b < left.len() implies (#[trigger] left[a]).timestamp
            != (#[trigger] left[b]).timestamp by {
            let a0 = if a < j {
                a
            } else {
                a + 1
            };
            let b0 = if b < j {
                b
            } else {
                b + 1
            };
            assert(points[a0].timestamp != points[b0].timestamp);
        }
    } else {
        assert forall|i: int| 0 <= i < points.len() implies other(#[trigger] points[i]) by {
            assert(points[i].timestamp != timestamp);
        }
        lemma_filter_all(points, other);
    }
}

/// Samples without a timestamp twice are their own last copies.
pub proof fn lemma_last_copies_of_distinct(points: Seq<DataPointView>)
    requires
        distinct_timestamps(points),
    ensures
        last_copies(points) == points,
    decreases points.len(),
{
    if points.len() > 0 {
        let front = points.drop_last();
        let last = points.last();
        let other = |p: DataPointView| p.timestamp != last.timestamp;
        assert(distinct_timestamps(front)) by {
            assert forall|i: int, j: int| 0 <= i < j < front.len() implies (
            #[trigger] front[i]).timestamp != (#[trigger] front[j]).timestamp by {
                assert(points[i].timestamp != points[j].timestamp);
            }
        }
        lemma_last_copies_of_distinct(front);
        assert forall|i: int| 0 <= i < front.len() implies other(#[trigger] front[i]) by {
            assert(points[i].timestamp != points[points.len() - 1].timestamp);
        }
        lemma_filter_all(front, other);
        assert(front.push(last) =~= points);
    }
}

/// Whether a timestamp lies in the window from `start` to `end`, both
/// inclusive; a side that is `None` is unbounded.
pub open spec fn in_window(timestamp: u64, start: Option<u64>, end: Option<u64>) -> bool {
    &&& start matches Some(s) ==> s <= timestamp
    &&& end matches Some(e) ==> timestamp <= e
}

/// The samples of a sequence whose timestamps lie in a window, in order.
pub open spec fn window_of(points: Seq<DataPointView>, start: Option<u64>, end: Option<u64>) -> Seq<
    DataPointView,
> {
    points.filter(|p: DataPointView| in_window(p.timestamp, start, end))
}

/// Whether a timestamp lies in a window.
pub fn is_in_window(timestamp: u64, start: Option<u64>, end: Option<u64>) -> (inside: bool)
    ensures
        inside == in_window(timestamp, start, end),
{
    if let Some(s) = start {
        if timestamp < s {
            return false;
        }
    }
    if let Some(e) = end {
        if timestamp > e {
            return false;
        }
    }
    true
}

/// The least timestamp of a sequence of samples, `u64::MAX` when it is empty.
pub open spec fn min_timestamp_of(points: Seq<DataPointView>) -> u64
    decreases points.len(),
{
    if points.len() == 0 {
        u64::MAX
    } else {
        let rest = min_timestamp_of(points.drop_last());
        if points.last().timestamp < rest {
            points.last().timestamp
        } else {
            rest
        }
    }
}

/// The greatest timestamp of a sequence of samples, 0 when it is empty.
pub open spec fn max_timestamp_of(points: Seq<DataPointView>) -> u64
    decreases points.len(),
{
    if points.len() == 0 {
        0
    } else {
        let rest = max_timestamp_of(points.drop_last());
        if points.last().timestamp > rest {
            points.last().timestamp
        } else {
            rest
        }
    }
}

/// The least and the greatest timestamp bound every timestamp.
pub proof fn lemma_timestamp_bounds(points: Seq<DataPointView>, i: int)
    requires
        0 <= i < points.len(),
    ensures
        min_timestamp_of(points) <= points[i].timestamp <= max_timestamp_of(points),
    decreases points.len(),
{
    if i < points.len() - 1 {
        lemma_timestamp_bounds(points.drop_last(), i);
    }
}

/// One series block of a segment: the compressed samples of one series, the
/// tags they share, and the summaries that prune range scans.
#[derive(Debug, Clone)]
pub struct SeriesData {
    pub series_key: String,
    pub compressed_data: Vec<u8>,
    pub tags: BTreeMap<String, String>,
    pub min_timestamp: u64,
    pub max_timestamp: u64,
    pub count: usize,
}

/// The mathematical content of a series block.
pub struct SeriesDataView {
    pub series_key: Seq<char>,
    pub compressed_data: Seq<u8>,
    pub tags: Map<Seq<char>, Seq<char>>,
    pub min_timestamp: u64,
    pub max_timestamp: u64,
    pub count: usize,
}

impl View for SeriesData {
    type V = SeriesDataView;

    open spec fn view(&self) -> SeriesDataView {
        SeriesDataView {
            series_key: self.series_key@,
            compressed_data: self.compressed_data@,
            tags: tag_contents(self.tags@),
            min_timestamp: self.min_timestamp,
            max_timestamp: self.max_timestamp,
            count: self.count,
        }
    }
}

/// The contents of a sequence of blocks.
pub open spec fn block_views(blocks: Seq<SeriesData>) -> Seq<SeriesDataView> {
    blocks.map_values(|b: SeriesData| b@)
}

impl SeriesDataView {
    /// The block that holds the samples `points` of the series `key`: their
    /// encoding, the tags of the first, the bounds of their timestamps, and
    /// their number.
    pub open spec fn of_points(key: Seq<char>, points: Seq<DataPointView>) -> SeriesDataView {
        SeriesDataView {
            series_key: key,
            compressed_data: gorilla_encode(samples_of(points)),
            tags: if points.len() > 0 {
                points[0].tags
            } else {
                Map::empty()
            },
            min_timestamp: min_timestamp_of(points),
            max_timestamp: max_timestamp_of(points),
            count: points.len() as usize,
        }
    }

    /// The block that a flush makes of the samples `points` that the
    /// memtable holds of the series `key`: of the samples with one timestamp
    /// the last inserted alone is encoded, and the tags are those of the
    /// first sample inserted.
    pub open spec fn of_bucket(key: Seq<char>, points: Seq<DataPointView>) -> SeriesDataView {
        SeriesDataView {
            tags: if points.len() > 0 {
                points[0].tags
            } else {
                Map::empty()
            },
            ..SeriesDataView::of_points(key, last_copies(points))
        }
    }

    /// The (timestamp, value) pairs that the payload decodes to.
    pub open spec fn samples(self) -> Seq<(u64, u64)> {
        gorilla_decode(self.compressed_data)
    }

    /// The samples that the block holds, each with the tags of the block.
    pub open spec fn points(self) -> Seq<DataPointView> {
        tagged(self.samples(), self.tags)
    }

    /// Whether the summaries show that no sample lies in the window.
    pub open spec fn pruned(self, start: Option<u64>, end: Option<u64>) -> bool {
        ||| start matches Some(s) && self.max_timestamp < s
        ||| end matches Some(e) && self.min_timestamp > e
    }

    /// What a range scan of the block yields.
    pub open spec fn query(self, start: Option<u64>, end: Option<u64>) -> Seq<DataPointView> {
        if self.pruned(start, end) {
            Seq::empty()
        } else {
            window_of(self.points(), start, end)
        }
    }

    /// The block with another payload and another count.
    pub open spec fn with_samples(self, samples: Seq<(u64, u64)>, count: usize) -> SeriesDataView {
        SeriesDataView { compressed_data: gorilla_encode(samples), count, ..self }
    }
}

impl SeriesData {
    /// A copy with the same content.
    pub fn duplicate(&self) -> (copy: SeriesData)
        ensures
            copy@ == self@,
    {
        SeriesData {
            series_key: self.series_key.clone(),
            compressed_data: self.compressed_data.clone(),
            tags: self.tags.clone(),
            min_timestamp: self.min_timestamp,
            max_timestamp: self.max_timestamp,
            count: self.count,
        }
    }

    /// Builds the block of the series `series_key` from its samples.
    pub fn from_points(series_key: String, points: &Vec<DataPoint>) -> (block: SeriesData)
        ensures
            block@ == SeriesDataView::of_points(series_key@, point_views(points@)),
    {
        let ghost all = point_views(points@);
        let mut samples: Vec<(u64, u64)> = Vec::new();
        let mut min_timestamp: u64 = u64::MAX;
        let mut max_timestamp: u64 = 0;
        let mut i: usize = 0;
        while i < points.len()
            invariant
                i <= points.len(),
                all == point_views(points@),
                samples@ == samples_of(all.take(i as int)),
                min_timestamp == min_timestamp_of(all.take(i as int)),
                max_timestamp == max_timestamp_of(all.take(i as int)),
            decreases points.len() - i,
        {
            let point = &points[i];
            proof {
                assert(all.take(i + 1).drop_last() =~= all.take(i as int));
                assert(all.take(i + 1).last() == point@);
            }
            samples.push((point.timestamp, point.value_bits));
            if point.timestamp < min_timestamp {
                min_timestamp = point.timestamp;
            }
            if point.timestamp > max_timestamp {
                max_timestamp = point.timestamp;
            }
            i = i + 1;
            assert(samples@ =~= samples_of(all.take(i as int)));
        }
        proof {
            assert(all.take(i as int) =~= all);
        }
        let tags = if points.len() > 0 {
            points[0].tags.clone()
        } else {
            BTreeMap::new()
        };
        proof {
            lemma_no_tags();
            if points.len() > 0 {
                assert(all[0] == points[0]@);
            }
        }
        SeriesData {
            series_key,
            compressed_data: compress_samples(&samples),
            tags,
            min_timestamp,
            max_timestamp,
            count: points.len(),
        }
    }

    /// Builds the block that a flush makes of the samples that the memtable
    /// holds of the series `series_key`: of the samples with one timestamp
    /// the last inserted alone is encoded, and the tags are those of the
    /// first sample inserted.
    pub fn from_bucket(series_key: String, points: &Vec<DataPoint>) -> (block: SeriesData)
        ensures
            block@ == SeriesDataView::of_bucket(series_key@, point_views(points@)),
    {
        let kept = keep_last_copies(points);
        let mut block = SeriesData::from_points(series_key, &kept);
        if points.len() > 0 {
            block.tags = points[0].tags.clone();
            proof {
                assert(point_views(points@)[0] == points[0]@);
            }
        }
        block
    }

    /// The (timestamp, value) pairs that the payload decodes to.
    pub fn samples(&self) -> (samples: Vec<(u64, u64)>)
        ensures
            samples@ == self@.samples(),
    {
        decompress_samples(self.compressed_data.clone())
    }

    /// The samples of the block whose timestamps lie in the window, each with
    /// the tags of the block. The payload is not decoded when the summaries
    /// show that the window holds none.
    pub fn query(&self, start: Option<u64>, end: Option<u64>) -> (points: Vec<DataPoint>)
        ensures
            point_views(points@) == self@.query(start, end),
    {
        let mut results: Vec<DataPoint> = Vec::new();
        if let Some(s) = start {
            if self.max_timestamp < s {
                assert(point_views(results@) =~= self@.query(start, end));
                return results;
            }
        }
        if let Some(e) = end {
            if self.min_timestamp > e {
                assert(point_views(results@) =~= self@.query(start, end));
                return results;
            }
        }
        let samples = self.samples();
        let ghost all = self@.points();
        let ghost inside = |p: DataPointView| in_window(p.timestamp, start, end);
        assert(point_views(results@) =~= all.take(0).filter(inside));
        let mut i: usize = 0;
        while i < samples.len()
            invariant
                i <= samples.len(),
                samples@ == self@.samples(),
                all == self@.points(),
                inside == (|p: DataPointView| in_window(p.timestamp, start, end)),
                point_views(results@) == all.take(i as int).filter(inside),
            decreases samples.len() - i,
        {
            let (timestamp, value_bits) = samples[i];
            proof {
                let point = DataPointView { timestamp, value_bits, tags: self@.tags };
                assert(all.take(i + 1) =~= all.take(i as int).push(point));
                all.take(i as int).lemma_filter_push(point, inside);
            }
            if is_in_window(timestamp, start, end) {
                results.push(DataPoint { timestamp, value_bits, tags: self.tags.clone() });
            }
            i = i + 1;
            assert(point_views(results@) =~= all.take(i as int).filter(inside));
        }
        proof {
            assert(all.take(i as int) =~= all);
        }
        results
    }
}

/// Of the samples with one timestamp the last alone, in order.
pub fn keep_last_copies(points: &Vec<DataPoint>) -> (kept: Vec<DataPoint>)
    ensures
        point_views(kept@) == last_copies(point_views(points@)),
{
    let ghost all = point_views(points@);
    let mut kept: Vec<DataPoint> = Vec::new();
    let mut i: usize = 0;
    assert(point_views(kept@) =~= last_copies(all.take(0)));
    while i < points.len()
        invariant
            i <= points.len(),
            all == point_views(points@),
            point_views(kept@) == last_copies(all.take(i as int)),
            distinct_timestamps(point_views(kept@)),
        decreases points.len() - i,
    {
        let timestamp: u64 = points[i].timestamp;
        let ghost before = point_views(kept@);
        let ghost point = points[i as int]@;
        let ghost other = |p: DataPointView| p.timestamp != point.timestamp;
        proof {
            assert(all.take(i + 1).drop_last() =~= all.take(i as int));
            assert(all.take(i + 1).last() == point);
        }
        let mut place: usize = 0;
        while place < kept.len() && kept[place].timestamp != timestamp
            invariant
                place <= kept.len(),
                before == point_views(kept@),
                forall|k: int| 0 <= k < place ==> (#[trigger] before[k]).timestamp != timestamp,
            decreases kept.len() - place,
        {
            assert(before[place as int].timestamp != timestamp);
            place = place + 1;
        }
        if place < kept.len() {
            let _ = kept.remove(place);
            proof {
                assert(before[place as int].timestamp == timestamp);
                assert forall|k: int| 0 <= k < before.len() && k != place implies other(
                    #[trigger] before[k],
                ) by {
                    if k < place {
                        assert(before[k].timestamp != before[place as int].timestamp);
                    } else {
                        assert(before[place as int].timestamp != before[k].timestamp);
                    }
                }
                lemma_filter_removes_one(before, other, place as int);
                assert(point_views(kept@) =~= before.remove(place as int));
            }
        } else {
            proof {
                assert forall|k: int| 0 <= k < before.len() implies other(#[trigger] before[k]) by {
                    assert(before[k].timestamp != timestamp);
                }
                lemma_filter_all(before, other);
            }
        }
        let ghost left = point_views(kept@);
        kept.push(points[i].duplicate());
        i = i + 1;
        proof {
            assert(left == before.filter(other));
            assert(point_views(kept@) =~= left.push(point));
            lemma_last_copies(all.take(i as int));
        }
    }
    proof {
        assert(all.take(i as int) =~= all);
    }
    kept
}

} // verus!
