//! The in-memory write buffer: recent samples grouped by series, in the
//! order in which each series first appeared.

use crate::series::{
    first_at, has_timestamp, in_window, is_in_window, point_views, window_of, DataPoint,
    DataPointView,
};
use vstd::prelude::*;

verus! {

/// The samples of one series, in insertion order.
#[derive(Debug, Clone)]
pub struct SeriesBucket {
    pub series_key: String,
    pub points: Vec<DataPoint>,
}

/// The mathematical content of a bucket.
pub struct BucketView {
    pub series_key: Seq<char>,
    pub points: Seq<DataPointView>,
}

impl View for SeriesBucket {
    type V = BucketView;

    open spec fn view(&self) -> BucketView {
        BucketView { series_key: self.series_key@, points: point_views(self.points@) }
    }
}

/// The contents of a sequence of buckets.
pub open spec fn bucket_views(buckets: Seq<SeriesBucket>) -> Seq<BucketView> {
    buckets.map_values(|b: SeriesBucket| b@)
}

/// Whether some bucket holds the series `key`.
pub open spec fn has_series(buckets: Seq<BucketView>, key: Seq<char>) -> bool {
    exists|i: int| 0 <= i < buckets.len() && #[trigger] buckets[i].series_key == key
}

/// The place of the bucket of the series `key`, where there is one.
pub open spec fn index_of(buckets: Seq<BucketView>, key: Seq<char>) -> int {
    choose|i: int| 0 <= i < buckets.len() && #[trigger] buckets[i].series_key == key
}

/// The samples held for the series `key`; none where it has no bucket.
pub open spec fn points_of(buckets: Seq<BucketView>, key: Seq<char>) -> Seq<DataPointView> {
    if has_series(buckets, key) {
        buckets[index_of(buckets, key)].points
    } else {
        Seq::empty()
    }
}

/// No two buckets hold the same series.
pub open spec fn distinct_keys(buckets: Seq<BucketView>) -> bool {
    forall|i: int, j: int|
        0 <= i < j < buckets.len() ==> #[trigger] buckets[i].series_key
            != #[trigger] buckets[j].series_key
}

/// The number of samples in all the buckets.
pub open spec fn total_points(buckets: Seq<BucketView>) -> nat
    decreases buckets.len(),
{
    if buckets.len() == 0 {
        0
    } else {
        total_points(buckets.drop_last()) + buckets.last().points.len()
    }
}

/// The samples with the value of the first one at `timestamp` replaced; the
/// same samples where none has that timestamp.
pub open spec fn with_value_at(points: Seq<DataPointView>, timestamp: u64, value_bits: u64) -> Seq<
    DataPointView,
> {
    if has_timestamp(points, timestamp) {
        let j = first_at(points, timestamp);
        points.update(j, DataPointView { value_bits, ..points[j] })
    } else {
        points
    }
}

/// The samples whose timestamp differs from `timestamp`, in order.
pub open spec fn without_timestamp(points: Seq<DataPointView>, timestamp: u64) -> Seq<
    DataPointView,
> {
    points.filter(|p: DataPointView| p.timestamp != timestamp)
}

/// The buckets after one more sample of the series `key`: appended to its
/// bucket, or alone in a new last bucket.
pub open spec fn inserted(buckets: Seq<BucketView>, key: Seq<char>, point: DataPointView) -> Seq<
    BucketView,
> {
    if has_series(buckets, key) {
        let i = index_of(buckets, key);
        buckets.update(i, BucketView { series_key: key, points: buckets[i].points.push(point) })
    } else {
        buckets.push(BucketView { series_key: key, points: seq![point] })
    }
}

/// The buckets after the value of the first sample of `key` at `timestamp`
/// is replaced.
pub open spec fn updated(
    buckets: Seq<BucketView>,
    key: Seq<char>,
    timestamp: u64,
    value_bits: u64,
) -> Seq<BucketView> {
    if has_series(buckets, key) {
        let i = index_of(buckets, key);
        buckets.update(
            i,
            BucketView {
                series_key: key,
                points: with_value_at(buckets[i].points, timestamp, value_bits),
            },
        )
    } else {
        buckets
    }
}

/// The buckets without the samples of `key` at `timestamp`, or without all of
/// `key` when `timestamp` is `None`. A bucket left empty is dropped.
pub open spec fn deleted(buckets: Seq<BucketView>, key: Seq<char>, timestamp: Option<u64>) -> Seq<
    BucketView,
> {
    if has_series(buckets, key) {
        let i = index_of(buckets, key);
        match timestamp {
            None => buckets.remove(i),
            Some(t) => {
                let kept = without_timestamp(buckets[i].points, t);
                if kept.len() == 0 {
                    buckets.remove(i)
                } else {
                    buckets.update(i, BucketView { series_key: key, points: kept })
                }
            },
        }
    } else {
        buckets
    }
}

/// An update that finds no sample changes nothing.
pub proof fn lemma_update_miss(
    buckets: Seq<BucketView>,
    key: Seq<char>,
    timestamp: u64,
    value_bits: u64,
)
    requires
        !has_timestamp(points_of(buckets, key), timestamp),
    ensures
        updated(buckets, key, timestamp, value_bits) == buckets,
{
    assert(updated(buckets, key, timestamp, value_bits) =~= buckets);
}

/// The series keys of the buckets, in order.
pub open spec fn bucket_keys(buckets: Seq<BucketView>) -> Seq<Seq<char>> {
    buckets.map_values(|b: BucketView| b.series_key)
}

/// Replacing a bucket changes the number of samples by the difference of
/// the two.
pub proof fn lemma_total_update(buckets: Seq<BucketView>, i: int, bucket: BucketView)
    requires
        0 <= i < buckets.len(),
    ensures
        total_points(buckets.update(i, bucket)) + buckets[i].points.len() == total_points(buckets)
            + bucket.points.len(),
    decreases buckets.len(),
{
    let after = buckets.update(i, bucket);
    if i == buckets.len() - 1 {
        assert(after.drop_last() =~= buckets.drop_last());
    } else {
        lemma_total_update(buckets.drop_last(), i, bucket);
        assert(after.drop_last() =~= buckets.drop_last().update(i, bucket));
    }
}

/// Removing a bucket lowers the number of samples by its own.
pub proof fn lemma_total_remove(buckets: Seq<BucketView>, i: int)
    requires
        0 <= i < buckets.len(),
    ensures
        total_points(buckets.remove(i)) + buckets[i].points.len() == total_points(buckets),
    decreases buckets.len(),
{
    let after = buckets.remove(i);
    if i == buckets.len() - 1 {
        assert(after =~= buckets.drop_last());
    } else {
        lemma_total_remove(buckets.drop_last(), i);
        assert(after.drop_last() =~= buckets.drop_last().remove(i));
        assert(after.last() == buckets.last());
    }
}

/// One more bucket raises the number of samples by its own.
pub proof fn lemma_total_push(buckets: Seq<BucketView>, bucket: BucketView)
    ensures
        total_points(buckets.push(bucket)) == total_points(buckets) + bucket.points.len(),
{
    assert(buckets.push(bucket).drop_last() =~= buckets);
}

/// The state of a memtable.
pub struct MemtableView {
    pub buckets: Seq<BucketView>,
    pub size: nat,
    pub threshold: nat,
}

/// The write buffer of the engine.
#[derive(Debug)]
pub struct Memtable {
    data: Vec<SeriesBucket>,
    size: usize,
    threshold: usize,
}

impl View for Memtable {
    type V = MemtableView;

    closed spec fn view(&self) -> MemtableView {
        MemtableView {
            buckets: bucket_views(self.data@),
            size: self.size as nat,
            threshold: self.threshold as nat,
        }
    }
}

impl MemtableView {
    /// No series has two buckets, no bucket is empty, and the size counts the
    /// samples.
    pub open spec fn wf(self) -> bool {
        &&& distinct_keys(self.buckets)
        &&& forall|i: int| 0 <= i < self.buckets.len() ==> (#[trigger] self.buckets[i]).points.len() > 0
        &&& self.size == total_points(self.buckets)
    }

    /// What a range scan of the series `key` yields: its samples in the
    /// window, in insertion order.
    pub open spec fn query(self, key: Seq<char>, start: Option<u64>, end: Option<u64>) -> Seq<
        DataPointView,
    > {
        window_of(points_of(self.buckets, key), start, end)
    }
}

impl Memtable {
    /// The state of the buffer is well formed, and its counters fit the
    /// machine.
    pub open spec fn wf(&self) -> bool {
        self@.wf() && self@.size <= usize::MAX && self@.threshold <= usize::MAX
    }

    /// An empty buffer that is full at `threshold` samples.
    pub fn new(threshold: usize) -> (memtable: Self)
        ensures
            memtable.wf(),
            memtable@ == (MemtableView {
                buckets: Seq::empty(),
                size: 0,
                threshold: threshold as nat,
            }),
    {
        let memtable = Self { data: Vec::new(), size: 0, threshold };
        assert(memtable@.buckets =~= Seq::empty());
        memtable
    }

    /// The place of the bucket of `series_key`.
    fn find(&self, series_key: &str) -> (place: Option<usize>)
        ensures
            match place {
                Some(i) => i < self.data.len() && self.data[i as int].series_key@ == series_key@,
                None => forall|i: int|
                    0 <= i < self.data.len() ==> (#[trigger] self.data[i]).series_key@
                        != series_key@,
            },
            place.is_some() == has_series(self@.buckets, series_key@),
            place.is_some() && distinct_keys(self@.buckets) ==> place.unwrap() == index_of(
                self@.buckets,
                series_key@,
            ),
    {
        let wanted: String = series_key.to_owned();
        let mut i: usize = 0;
        while i < self.data.len()
            invariant
                i <= self.data.len(),
                wanted@ == series_key@,
                forall|k: int| 0 <= k < i ==> (#[trigger] self.data[k]).series_key@ != series_key@,
            decreases self.data.len() - i,
        {
            if self.data[i].series_key == wanted {
                proof {
                    assert(self@.buckets[i as int].series_key == series_key@);
                }
                return Some(i);
            }
            i = i + 1;
        }
        proof {
            assert forall|k: int| 0 <= k < self@.buckets.len() implies (
            #[trigger] self@.buckets[k]).series_key != series_key@ by {
                assert(self.data[k].series_key@ != series_key@);
            }
        }
        None
    }

    /// Appends a sample to the bucket of its series.
    pub fn insert(&mut self, series_key: String, datapoint: DataPoint)
        requires
            old(self).wf(),
            old(self)@.size < usize::MAX,
        ensures
            final(self).wf(),
            final(self)@.buckets == inserted(old(self)@.buckets, series_key@, datapoint@),
            final(self)@.size == old(self)@.size + 1,
            final(self)@.threshold == old(self)@.threshold,
    {
        let ghost before = self@.buckets;
        match self.find(series_key.as_str()) {
            Some(i) => {
                self.data[i].points.push(datapoint);
                proof {
                    assert(point_views(self.data[i as int].points@) =~= before[i as int].points.push(
                        datapoint@,
                    ));
                    let after = inserted(before, series_key@, datapoint@);
                    assert(self@.buckets =~= after);
                    lemma_total_update(before, i as int, after[i as int]);
                }
            },
            None => {
                let mut points: Vec<DataPoint> = Vec::new();
                points.push(datapoint);
                proof {
                    assert(point_views(points@) =~= seq![datapoint@]);
                }
                self.data.push(SeriesBucket { series_key, points });
                proof {
                    let after = inserted(before, series_key@, datapoint@);
                    assert(self@.buckets =~= after);
                    lemma_total_push(before, after.last());
                }
            },
        }
        self.size = self.size + 1;
    }

    /// Replaces the value of the first sample of `series_key` at `timestamp`.
    /// Returns whether there was one.
    pub fn update(&mut self, series_key: &str, timestamp: u64, new_value_bits: u64) -> (hit: bool)
        requires
            old(self).wf(),
        ensures
            final(self).wf(),
            final(self)@.buckets == updated(
                old(self)@.buckets,
                series_key@,
                timestamp,
                new_value_bits,
            ),
            final(self)@.size == old(self)@.size,
            final(self)@.threshold == old(self)@.threshold,
            hit == has_timestamp(points_of(old(self)@.buckets, series_key@), timestamp),
    {
        let ghost before = self@.buckets;
        let place: usize = match self.find(series_key) {
            Some(i) => i,
            None => {
                return false;
            },
        };
        let ghost all = before[place as int].points;
        let mut j: usize = 0;
        while j < self.data[place].points.len() && self.data[place].points[j].timestamp
            != timestamp
            invariant
                place < self.data.len(),
                j <= self.data[place as int].points.len(),
                all == point_views(self.data[place as int].points@),
                forall|k: int| 0 <= k < j ==> (#[trigger] all[k]).timestamp != timestamp,
            decreases self.data[place as int].points.len() - j,
        {
            assert(all[j as int].timestamp != timestamp);
            j = j + 1;
        }
        let hit = j < self.data[place].points.len();
        if hit {
            self.data[place].points[j].value_bits = new_value_bits;
            proof {
                assert(all[j as int].timestamp == timestamp);
                assert(first_at(all, timestamp) == j);
                assert(point_views(self.data[place as int].points@) =~= with_value_at(
                    all,
                    timestamp,
                    new_value_bits,
                ));
            }
        } else {
            proof {
                assert(!has_timestamp(all, timestamp));
            }
        }
        proof {
            let after = updated(before, series_key@, timestamp, new_value_bits);
            assert(self@.buckets =~= after);
            lemma_total_update(before, place as int, after[place as int]);
        }
        hit
    }

    /// Removes the samples of `series_key` at `timestamp`, or the whole
    /// series when `timestamp` is `None`. Returns whether anything was
    /// removed.
    pub fn delete(&mut self, series_key: &str, timestamp: Option<u64>) -> (removed: bool)
        requires
            old(self).wf(),
        ensures
            final(self).wf(),
            final(self)@.buckets == deleted(old(self)@.buckets, series_key@, timestamp),
            final(self)@.threshold == old(self)@.threshold,
            final(self)@.size <= old(self)@.size,
            removed == match timestamp {
                None => has_series(old(self)@.buckets, series_key@),
                Some(t) => has_timestamp(points_of(old(self)@.buckets, series_key@), t),
            },
    {
        let ghost before = self@.buckets;
        let place: usize = match self.find(series_key) {
            Some(i) => i,
            None => {
                return false;
            },
        };
        let ghost all = before[place as int].points;
        let bucket = self.data.remove(place);
        proof {
            assert(self@.buckets =~= before.remove(place as int));
            lemma_total_remove(before, place as int);
        }
        let t: u64 = match timestamp {
            None => {
                self.size = self.size - bucket.points.len();
                return true;
            },
            Some(t) => t,
        };
        let ghost differs = |p: DataPointView| p.timestamp != t;
        let mut kept: Vec<DataPoint> = Vec::new();
        assert(point_views(kept@) =~= all.take(0).filter(differs));
        let mut i: usize = 0;
        while i < bucket.points.len()
            invariant
                i <= bucket.points.len(),
                all == point_views(bucket.points@),
                differs == (|p: DataPointView| p.timestamp != t),
                point_views(kept@) == all.take(i as int).filter(differs),
                kept.len() <= i,
                (kept.len() == i) == (forall|k: int|
                    0 <= k < i ==> (#[trigger] all[k]).timestamp != t),
            decreases bucket.points.len() - i,
        {
            let point = &bucket.points[i];
            proof {
                assert(all.take(i + 1) =~= all.take(i as int).push(point@));
                all.take(i as int).lemma_filter_push(point@, differs);
            }
            let ghost complete = kept.len() == i;
            if point.timestamp != t {
                kept.push(point.duplicate());
            }
            proof {
                assert(all[i as int] == point@);
                if !complete {
                    let k = choose|k: int| 0 <= k < i && (#[trigger] all[k]).timestamp == t;
                    assert(all[k].timestamp == t);
                }
            }
            i = i + 1;
            assert(point_views(kept@) =~= all.take(i as int).filter(differs));
        }
        proof {
            assert(all.take(i as int) =~= all);
        }
        let dropped: usize = bucket.points.len() - kept.len();
        self.size = self.size - dropped;
        if kept.len() > 0 {
            let restored = SeriesBucket { series_key: bucket.series_key, points: kept };
            self.data.insert(place, restored);
            proof {
                let after = deleted(before, series_key@, timestamp);
                assert(self@.buckets =~= after);
                lemma_total_update(before, place as int, after[place as int]);
            }
        }
        dropped > 0
    }

    /// Whether the buffer has reached its capacity.
    pub fn is_full(&self) -> (full: bool)
        ensures
            full == (self@.size >= self@.threshold),
    {
        self.size >= self.threshold
    }

    /// Empties the buffer.
    pub fn clear(&mut self)
        ensures
            final(self).wf(),
            final(self)@ == (MemtableView {
                buckets: Seq::empty(),
                size: 0,
                threshold: old(self)@.threshold,
            }),
    {
        self.data.clear();
        self.size = 0;
        assert(self@.buckets =~= Seq::empty());
    }

    /// Takes the buckets out and leaves the buffer empty.
    pub fn drain(&mut self) -> (buckets: Vec<SeriesBucket>)
        ensures
            final(self).wf(),
            bucket_views(buckets@) == old(self)@.buckets,
            final(self)@ == (MemtableView {
                buckets: Seq::empty(),
                size: 0,
                threshold: old(self)@.threshold,
            }),
    {
        let mut buckets: Vec<SeriesBucket> = Vec::new();
        std::mem::swap(&mut buckets, &mut self.data);
        self.size = 0;
        assert(self@.buckets =~= Seq::empty());
        buckets
    }

    /// The buckets, in the order in which their series first appeared.
    pub fn get_data(&self) -> (buckets: &Vec<SeriesBucket>)
        ensures
            bucket_views(buckets@) == self@.buckets,
    {
        &self.data
    }

    /// The number of samples held.
    pub fn len(&self) -> (size: usize)
        ensures
            size == self@.size,
    {
        self.size
    }

    /// The samples of the series `series_key` whose timestamps lie in the
    /// window, in insertion order.
    pub fn query(&self, series_key: &str, start_time: Option<u64>, end_time: Option<u64>) -> (points:
        Vec<DataPoint>)
        requires
            self.wf(),
        ensures
            point_views(points@) == self@.query(series_key@, start_time, end_time),
    {
        let mut results: Vec<DataPoint> = Vec::new();
        let ghost inside = |p: DataPointView| in_window(p.timestamp, start_time, end_time);
        match self.find(series_key) {
            None => {
                assert(point_views(results@) =~= Seq::<DataPointView>::empty().filter(inside));
                results
            },
            Some(place) => {
                let bucket = &self.data[place];
                let ghost all = point_views(bucket.points@);
                assert(all == points_of(self@.buckets, series_key@));
                assert(point_views(results@) =~= all.take(0).filter(inside));
                let mut i: usize = 0;
                while i < bucket.points.len()
                    invariant
                        i <= bucket.points.len(),
                        all == point_views(bucket.points@),
                        inside == (|p: DataPointView|
                            in_window(p.timestamp, start_time, end_time)),
                        point_views(results@) == all.take(i as int).filter(inside),
                    decreases bucket.points.len() - i,
                {
                    let point = &bucket.points[i];
                    proof {
                        assert(all.take(i + 1) =~= all.take(i as int).push(point@));
                        all.take(i as int).lemma_filter_push(point@, inside);
                    }
                    if is_in_window(point.timestamp, start_time, end_time) {
                        results.push(point.duplicate());
                    }
                    i = i + 1;
                    assert(point_views(results@) =~= all.take(i as int).filter(inside));
                }
                proof {
                    assert(all.take(i as int) =~= all);
                }
                results
            },
        }
    }
}

} // verus!
