//! The engine: a memtable in front of a list of segments. Writes go to the
//! memtable and are flushed to a new segment when it is full; reads merge the
//! segments and the memtable; compaction merges the segments into one.
//!
//! The engine holds the segments as values and does no I/O. Each change that
//! a file must follow is recorded in a journal, which the owner of the files
//! takes and carries out in order.

use crate::memtable::{
    bucket_keys, bucket_views, deleted, has_series, inserted, lemma_update_miss, points_of, updated,
    BucketView, Memtable, MemtableView,
};
use crate::merge::{merge_by_timestamp, merged};
use crate::paths::{segment_path, segment_path_of};
use crate::series::{
    block_views, has_timestamp, point_views, DataPoint, DataPointView, SeriesData, SeriesDataView,
};
use crate::sstable::{
    block_keys, blocks_query, blocks_updated, blocks_without_sample, blocks_without_series,
    has_block, has_holder, SSTable, SSTableView, SegmentError, SegmentState,
};
use vstd::prelude::*;

verus! {

/// A change that a file must follow.
#[derive(Debug)]
pub enum FileAction {
    /// Replace the content of the file at `path` by the blocks `series`.
    Write { path: String, series: Vec<SeriesData> },
    /// Remove the file at `path`.
    Remove { path: String },
}

/// The mathematical content of a file action.
pub enum FileActionView {
    Write { path: Seq<char>, series: Seq<SeriesDataView> },
    Remove { path: Seq<char> },
}

impl View for FileAction {
    type V = FileActionView;

    open spec fn view(&self) -> FileActionView {
        match self {
            FileAction::Write { path, series } => FileActionView::Write {
                path: path@,
                series: block_views(series@),
            },
            FileAction::Remove { path } => FileActionView::Remove { path: path@ },
        }
    }
}

/// The contents of a sequence of file actions.
pub open spec fn action_views(actions: Seq<FileAction>) -> Seq<FileActionView> {
    actions.map_values(|a: FileAction| a@)
}

/// The contents of a sequence of segments.
pub open spec fn table_views(tables: Seq<SSTable>) -> Seq<SSTableView> {
    tables.map_values(|t: SSTable| t@)
}

/// What a range scan of the series `key` collects from the segments, in
/// their order.
pub open spec fn segments_query(
    segments: Seq<SSTableView>,
    key: Seq<char>,
    start: Option<u64>,
    end: Option<u64>,
) -> Seq<DataPointView>
    decreases segments.len(),
{
    if segments.len() == 0 {
        Seq::empty()
    } else {
        segments_query(segments.drop_last(), key, start, end) + blocks_query(
            segments.last().state.readable(),
            key,
            start,
            end,
        )
    }
}

/// The blocks that a flush makes of the buckets of a memtable: one for each
/// bucket, with the last inserted of its samples at each timestamp.
pub open spec fn flushed_blocks(buckets: Seq<BucketView>) -> Seq<SeriesDataView> {
    buckets.map_values(|b: BucketView| SeriesDataView::of_bucket(b.series_key, b.points))
}

/// Whether an update stops at a segment: it cannot be read, or it holds the
/// sample.
pub open spec fn stops_update(segment: SSTableView, key: Seq<char>, timestamp: u64) -> bool {
    match segment.state {
        SegmentState::Blocks(blocks) => has_holder(blocks, key, timestamp),
        _ => true,
    }
}

/// Whether a deletion finds something in a segment.
pub open spec fn delete_hits(segment: SSTableView, key: Seq<char>, timestamp: Option<u64>) -> bool {
    match segment.state {
        SegmentState::Blocks(blocks) => match timestamp {
            Some(t) => has_holder(blocks, key, t),
            None => has_block(blocks, key),
        },
        _ => false,
    }
}

/// A segment after a deletion.
pub open spec fn segment_deleted(segment: SSTableView, key: Seq<char>, timestamp: Option<u64>) -> SSTableView {
    if delete_hits(segment, key, timestamp) {
        let blocks = segment.state.readable();
        SSTableView {
            file_path: segment.file_path,
            state: SegmentState::after_removal(
                match timestamp {
                    Some(t) => blocks_without_sample(blocks, key, t),
                    None => blocks_without_series(blocks, key),
                },
            ),
        }
    } else {
        segment
    }
}

/// What the file of a segment must follow after an operation changed it to
/// `segment`.
pub open spec fn sync_action(segment: SSTableView) -> FileActionView {
    match segment.state {
        SegmentState::Blocks(blocks) => FileActionView::Write {
            path: segment.file_path,
            series: blocks,
        },
        _ => FileActionView::Remove { path: segment.file_path },
    }
}

/// The segments after a deletion in each.
pub open spec fn segments_deleted(segments: Seq<SSTableView>, key: Seq<char>, timestamp: Option<u64>) -> Seq<
    SSTableView,
> {
    segments.map_values(|s: SSTableView| segment_deleted(s, key, timestamp))
}

/// What the files must follow after a deletion in each segment: one action
/// for each segment in which it found something, in their order.
pub open spec fn delete_actions(segments: Seq<SSTableView>, key: Seq<char>, timestamp: Option<u64>) -> Seq<
    FileActionView,
>
    decreases segments.len(),
{
    if segments.len() == 0 {
        Seq::empty()
    } else {
        let before = delete_actions(segments.drop_last(), key, timestamp);
        if delete_hits(segments.last(), key, timestamp) {
            before.push(sync_action(segment_deleted(segments.last(), key, timestamp)))
        } else {
            before
        }
    }
}

/// Whether a deletion finds something in some segment.
pub open spec fn any_delete_hit(segments: Seq<SSTableView>, key: Seq<char>, timestamp: Option<u64>) -> bool {
    exists|i: int| 0 <= i < segments.len() && delete_hits(#[trigger] segments[i], key, timestamp)
}

/// Whether some segment cannot be read.
pub open spec fn has_corrupt(segments: Seq<SSTableView>) -> bool {
    exists|i: int| 0 <= i < segments.len() && (#[trigger] segments[i]).state is Corrupt
}

/// The place of the first segment that cannot be read, where there is one.
pub open spec fn first_corrupt(segments: Seq<SSTableView>) -> int {
    choose|i: int|
        0 <= i < segments.len() && (#[trigger] segments[i]).state is Corrupt && forall|k: int|
            0 <= k < i ==> !((#[trigger] segments[k]).state is Corrupt)
}

/// The segments that still hold a block.
pub open spec fn nonempty_segments(segments: Seq<SSTableView>) -> Seq<SSTableView> {
    segments.filter(|s: SSTableView| s.state.readable().len() > 0)
}

/// The contents of a sequence of strings.
pub open spec fn key_views(keys: Seq<String>) -> Seq<Seq<char>> {
    keys.map_values(|k: String| k@)
}

/// The keys with one more, unless it is among them.
pub open spec fn with_key(keys: Seq<Seq<char>>, key: Seq<char>) -> Seq<Seq<char>> {
    if keys.contains(key) {
        keys
    } else {
        keys.push(key)
    }
}

/// The keys without repetitions, each at the place of its first occurrence.
pub open spec fn distinct(keys: Seq<Seq<char>>) -> Seq<Seq<char>>
    decreases keys.len(),
{
    if keys.len() == 0 {
        Seq::empty()
    } else {
        with_key(distinct(keys.drop_last()), keys.last())
    }
}

/// The keys with each of `more` added in order, unless it is among them
/// by then.
pub open spec fn with_keys(keys: Seq<Seq<char>>, more: Seq<Seq<char>>) -> Seq<Seq<char>>
    decreases more.len(),
{
    if more.len() == 0 {
        keys
    } else {
        with_key(with_keys(keys, more.drop_last()), more.last())
    }
}

/// The distinct keys of two sequences in a row are those of the first with
/// the keys of the second added.
pub proof fn lemma_distinct_add(a: Seq<Seq<char>>, b: Seq<Seq<char>>)
    ensures
        distinct(a + b) == with_keys(distinct(a), b),
    decreases b.len(),
{
    if b.len() == 0 {
        assert(a + b =~= a);
    } else {
        lemma_distinct_add(a, b.drop_last());
        assert((a + b).drop_last() =~= a + b.drop_last());
        assert((a + b).last() == b.last());
    }
}

/// The series keys of the blocks of the segments, in order, with
/// repetitions.
pub open spec fn segment_keys(segments: Seq<SSTableView>) -> Seq<Seq<char>>
    decreases segments.len(),
{
    if segments.len() == 0 {
        Seq::empty()
    } else {
        segment_keys(segments.drop_last()) + block_keys(segments.last().state.readable())
    }
}

/// The blocks that a compaction makes for the series `keys`: for each, the
/// merge of what the segments hold of it, unless that is empty.
pub open spec fn compacted_blocks(segments: Seq<SSTableView>, keys: Seq<Seq<char>>) -> Seq<
    SeriesDataView,
>
    decreases keys.len(),
{
    if keys.len() == 0 {
        Seq::empty()
    } else {
        let before = compacted_blocks(segments, keys.drop_last());
        let points = merged(segments_query(segments, keys.last(), None, None));
        if points.len() > 0 {
            before.push(SeriesDataView::of_points(keys.last(), points))
        } else {
            before
        }
    }
}

/// The removals of the files of the segments after a compaction: of each
/// segment that has a file, unless it is the file at `kept`.
pub open spec fn removals(segments: Seq<SSTableView>, kept: Option<Seq<char>>) -> Seq<FileActionView>
    decreases segments.len(),
{
    if segments.len() == 0 {
        Seq::empty()
    } else {
        let before = removals(segments.drop_last(), kept);
        let last = segments.last();
        if last.state is Absent || kept == Some(last.file_path) {
            before
        } else {
            before.push(FileActionView::Remove { path: last.file_path })
        }
    }
}

/// Counters of an engine.
#[derive(Debug, Clone, Copy, PartialEq, Eq, Structural)]
pub struct DatabaseStats {
    /// The number of series in the memtable.
    pub memtable_size: usize,
    /// The number of segments.
    pub sstable_count: usize,
    /// The number of series in the memtable and the segments together.
    pub total_series: usize,
}

/// The state of an engine.
pub struct EngineView {
    pub memtable: MemtableView,
    pub segments: Seq<SSTableView>,
    pub data_dir: Seq<char>,
    /// The file actions recorded and not yet taken.
    pub journal: Seq<FileActionView>,
}

impl EngineView {
    /// The memtable is well formed, and it is empty or below its capacity.
    pub open spec fn wf(self) -> bool {
        &&& self.memtable.wf()
        &&& self.memtable.size == 0 || self.memtable.size < self.memtable.threshold
    }

    /// What a range scan of the series `key` collects: from the segments in
    /// their order, then from the memtable.
    pub open spec fn collected(self, key: Seq<char>, start: Option<u64>, end: Option<u64>) -> Seq<
        DataPointView,
    > {
        segments_query(self.segments, key, start, end) + self.memtable.query(key, start, end)
    }

    /// What a range scan of the series `key` yields: what it collects,
    /// ordered by timestamp, one sample for each timestamp, the first
    /// collected.
    pub open spec fn query(self, key: Seq<char>, start: Option<u64>, end: Option<u64>) -> Seq<
        DataPointView,
    > {
        merged(self.collected(key, start, end))
    }

    /// The state after the memtable is flushed at `now` seconds: unless it is
    /// empty, each of its buckets becomes a block of a new last segment, with
    /// the last inserted of its samples at each timestamp.
    pub open spec fn flush(self, now: u64) -> EngineView {
        if self.memtable.buckets.len() == 0 {
            EngineView { memtable: MemtableView { size: 0, ..self.memtable }, ..self }
        } else {
            let path = segment_path_of(self.data_dir, "sstable_"@, now);
            let blocks = flushed_blocks(self.memtable.buckets);
            EngineView {
                memtable: MemtableView { buckets: Seq::empty(), size: 0, ..self.memtable },
                segments: self.segments.push(
                    SSTableView { file_path: path, state: SegmentState::Blocks(blocks) },
                ),
                journal: self.journal.push(FileActionView::Write { path, series: blocks }),
                ..self
            }
        }
    }

    /// The state after a sample is inserted at `now` seconds: it is appended
    /// to the memtable, which is flushed if that fills it.
    pub open spec fn insert(self, key: Seq<char>, point: DataPointView, now: u64) -> EngineView {
        let memtable = MemtableView {
            buckets: inserted(self.memtable.buckets, key, point),
            size: self.memtable.size + 1,
            ..self.memtable
        };
        let filled = EngineView { memtable, ..self };
        if memtable.size >= memtable.threshold {
            filled.flush(now)
        } else {
            filled
        }
    }

    /// Whether an update stops at some segment.
    pub open spec fn update_stops(self, key: Seq<char>, timestamp: u64) -> bool {
        exists|i: int|
            0 <= i < self.segments.len() && stops_update(#[trigger] self.segments[i], key, timestamp)
    }

    /// The place of the first segment at which an update stops.
    pub open spec fn update_stop(self, key: Seq<char>, timestamp: u64) -> int {
        choose|i: int|
            0 <= i < self.segments.len() && stops_update(#[trigger] self.segments[i], key, timestamp)
                && forall|k: int|
                0 <= k < i ==> !stops_update(#[trigger] self.segments[k], key, timestamp)
    }

    /// The state after an update and what it returns. The memtable is tried
    /// first, then the segments in order up to the first that holds the
    /// sample or cannot be read.
    pub open spec fn update(self, key: Seq<char>, timestamp: u64, value_bits: u64) -> (
        EngineView,
        Result<bool, SegmentError>,
    ) {
        if has_timestamp(points_of(self.memtable.buckets, key), timestamp) {
            (
                EngineView {
                    memtable: MemtableView {
                        buckets: updated(self.memtable.buckets, key, timestamp, value_bits),
                        ..self.memtable
                    },
                    ..self
                },
                Ok(true),
            )
        } else if self.update_stops(key, timestamp) {
            let i = self.update_stop(key, timestamp);
            let segment = self.segments[i];
            match segment.state {
                SegmentState::Absent => (self, Err(SegmentError::Missing)),
                SegmentState::Corrupt => (self, Err(SegmentError::Corrupt)),
                SegmentState::Blocks(blocks) => {
                    let after = SSTableView {
                        file_path: segment.file_path,
                        state: SegmentState::Blocks(
                            blocks_updated(blocks, key, timestamp, value_bits),
                        ),
                    };
                    (
                        EngineView {
                            segments: self.segments.update(i, after),
                            journal: self.journal.push(sync_action(after)),
                            ..self
                        },
                        Ok(true),
                    )
                },
            }
        } else {
            (self, Ok(false))
        }
    }

    /// The state after a deletion and what it returns. The memtable and
    /// every segment are tried, and the segments left without blocks leave
    /// the list; a segment that cannot be read stops the deletion there with
    /// an error.
    pub open spec fn delete(self, key: Seq<char>, timestamp: Option<u64>) -> (
        EngineView,
        Result<bool, SegmentError>,
    ) {
        let buckets = deleted(self.memtable.buckets, key, timestamp);
        let memtable = MemtableView {
            buckets,
            size: crate::memtable::total_points(buckets),
            ..self.memtable
        };
        let in_memtable = match timestamp {
            None => has_series(self.memtable.buckets, key),
            Some(t) => has_timestamp(points_of(self.memtable.buckets, key), t),
        };
        if has_corrupt(self.segments) {
            let stop = first_corrupt(self.segments);
            let tried = self.segments.take(stop);
            (
                EngineView {
                    memtable,
                    segments: segments_deleted(tried, key, timestamp) + self.segments.skip(stop),
                    journal: self.journal + delete_actions(tried, key, timestamp),
                    ..self
                },
                Err(SegmentError::Corrupt),
            )
        } else {
            (
                EngineView {
                    memtable,
                    segments: nonempty_segments(
                        segments_deleted(self.segments, key, timestamp),
                    ),
                    journal: self.journal + delete_actions(self.segments, key, timestamp),
                    ..self
                },
                Ok(in_memtable || any_delete_hit(self.segments, key, timestamp)),
            )
        }
    }

    /// The state after a compaction at `now` seconds. Fewer than two
    /// segments are left alone. Otherwise the segments are replaced by one
    /// that holds, for each series, the merge of what they held; its file is
    /// written before theirs are removed.
    pub open spec fn compact(self, now: u64) -> EngineView {
        if self.segments.len() < 2 {
            self
        } else {
            let keys = distinct(segment_keys(self.segments));
            if keys.len() == 0 {
                EngineView {
                    segments: Seq::empty(),
                    journal: self.journal + removals(self.segments, None),
                    ..self
                }
            } else {
                let path = segment_path_of(self.data_dir, "compacted_"@, now);
                let blocks = compacted_blocks(self.segments, keys);
                EngineView {
                    segments: seq![
                        SSTableView { file_path: path, state: SegmentState::Blocks(blocks) },
                    ],
                    journal: self.journal.push(FileActionView::Write { path, series: blocks })
                        + removals(self.segments, Some(path)),
                    ..self
                }
            }
        }
    }

    /// What a compaction at `now` seconds writes: the path of the new file
    /// and its blocks. There is nothing to write with fewer than two
    /// segments, or where the segments hold no series.
    pub open spec fn compaction_plan(self, now: u64) -> Option<(Seq<char>, Seq<SeriesDataView>)> {
        let keys = distinct(segment_keys(self.segments));
        if self.segments.len() < 2 || keys.len() == 0 {
            None
        } else {
            Some(
                (
                    segment_path_of(self.data_dir, "compacted_"@, now),
                    compacted_blocks(self.segments, keys),
                ),
            )
        }
    }

    /// The state after the file of a compaction was written, or was not.
    /// Written, it holds the only segment, and the removals of the old files
    /// are recorded; not written, nothing changes.
    pub open spec fn finish_compaction(
        self,
        path: Seq<char>,
        blocks: Seq<SeriesDataView>,
        written: bool,
    ) -> EngineView {
        if written {
            EngineView {
                segments: seq![SSTableView { file_path: path, state: SegmentState::Blocks(blocks) }],
                journal: self.journal + removals(self.segments, Some(path)),
                ..self
            }
        } else {
            self
        }
    }

    /// The keys of all the series: of the memtable, then of the segments,
    /// each once.
    pub open spec fn series(self) -> Seq<Seq<char>> {
        distinct(bucket_keys(self.memtable.buckets) + segment_keys(self.segments))
    }
}

/// The first place at which an update stops is the only place at which it
/// stops with none before.
proof fn lemma_update_stop(view: EngineView, key: Seq<char>, timestamp: u64, i: int)
    requires
        0 <= i < view.segments.len(),
        stops_update(view.segments[i], key, timestamp),
        forall|k: int| 0 <= k < i ==> !stops_update(#[trigger] view.segments[k], key, timestamp),
    ensures
        view.update_stops(key, timestamp),
        view.update_stop(key, timestamp) == i,
{
    let f = view.update_stop(key, timestamp);
    assert(0 <= f < view.segments.len() && stops_update(view.segments[f], key, timestamp));
    if f < i {
        assert(!stops_update(view.segments[f], key, timestamp));
    }
    if i < f {
        assert(!stops_update(view.segments[i], key, timestamp));
    }
}

/// Where an update stops at some segment, the first such segment is in
/// range, stops it, and no segment before it does.
pub proof fn lemma_update_stop_exists(view: EngineView, key: Seq<char>, timestamp: u64)
    requires
        view.update_stops(key, timestamp),
    ensures
        0 <= view.update_stop(key, timestamp) < view.segments.len(),
        stops_update(view.segments[view.update_stop(key, timestamp)], key, timestamp),
        forall|k: int|
            0 <= k < view.update_stop(key, timestamp) ==> !stops_update(
                #[trigger] view.segments[k],
                key,
                timestamp,
            ),
{
    let some = choose|i: int|
        0 <= i < view.segments.len() && stops_update(#[trigger] view.segments[i], key, timestamp);
    lemma_least_stop(view.segments, key, timestamp, some);
}

proof fn lemma_least_stop(segments: Seq<SSTableView>, key: Seq<char>, timestamp: u64, i: int)
    requires
        0 <= i < segments.len(),
        stops_update(segments[i], key, timestamp),
    ensures
        exists|f: int|
            0 <= f <= i && stops_update(#[trigger] segments[f], key, timestamp) && forall|k: int|
                0 <= k < f ==> !stops_update(#[trigger] segments[k], key, timestamp),
    decreases i,
{
    if exists|k: int| 0 <= k < i && stops_update(#[trigger] segments[k], key, timestamp) {
        let k = choose|k: int| 0 <= k < i && stops_update(#[trigger] segments[k], key, timestamp);
        lemma_least_stop(segments, key, timestamp, k);
    } else {
        assert(stops_update(segments[i], key, timestamp));
    }
}

/// Where some segment is corrupt, the first corrupt one is in range, and no
/// segment before it is corrupt.
pub proof fn lemma_first_corrupt_exists(segments: Seq<SSTableView>)
    requires
        has_corrupt(segments),
    ensures
        0 <= first_corrupt(segments) < segments.len(),
        segments[first_corrupt(segments)].state is Corrupt,
        forall|k: int|
            0 <= k < first_corrupt(segments) ==> !((#[trigger] segments[k]).state is Corrupt),
{
    let some = choose|i: int| 0 <= i < segments.len() && (#[trigger] segments[i]).state is Corrupt;
    lemma_least_corrupt(segments, some);
}

proof fn lemma_least_corrupt(segments: Seq<SSTableView>, i: int)
    requires
        0 <= i < segments.len(),
        segments[i].state is Corrupt,
    ensures
        exists|f: int|
            0 <= f <= i && (#[trigger] segments[f]).state is Corrupt && forall|k: int|
                0 <= k < f ==> !((#[trigger] segments[k]).state is Corrupt),
    decreases i,
{
    if exists|k: int| 0 <= k < i && (#[trigger] segments[k]).state is Corrupt {
        let k = choose|k: int| 0 <= k < i && (#[trigger] segments[k]).state is Corrupt;
        lemma_least_corrupt(segments, k);
    } else {
        assert(segments[i].state is Corrupt);
    }
}

/// The first corrupt segment is the only corrupt one with none before.
proof fn lemma_first_corrupt(segments: Seq<SSTableView>, i: int)
    requires
        0 <= i < segments.len(),
        segments[i].state is Corrupt,
        forall|k: int| 0 <= k < i ==> !((#[trigger] segments[k]).state is Corrupt),
    ensures
        has_corrupt(segments),
        first_corrupt(segments) == i,
{
    let f = first_corrupt(segments);
    assert(0 <= f < segments.len() && segments[f].state is Corrupt);
    if f < i {
        assert(!(segments[f].state is Corrupt));
    }
    if i < f {
        assert(!(segments[i].state is Corrupt));
    }
}

/// A copy of a list of blocks.
fn copy_blocks(blocks: &Vec<SeriesData>) -> (copy: Vec<SeriesData>)
    ensures
        block_views(copy@) == block_views(blocks@),
{
    let mut copy: Vec<SeriesData> = Vec::new();
    let mut i: usize = 0;
    while i < blocks.len()
        invariant
            i <= blocks.len(),
            copy.len() == i,
            forall|k: int| 0 <= k < i ==> (#[trigger] copy[k])@ == blocks[k]@,
        decreases blocks.len() - i,
    {
        copy.push(blocks[i].duplicate());
        i = i + 1;
    }
    assert(block_views(copy@) =~= block_views(blocks@));
    copy
}

/// Whether `key` is among `keys`.
fn has_key(keys: &Vec<String>, key: &String) -> (found: bool)
    ensures
        found == key_views(keys@).contains(key@),
{
    let mut i: usize = 0;
    while i < keys.len()
        invariant
            i <= keys.len(),
            forall|k: int| 0 <= k < i ==> key_views(keys@)[k] != key@,
        decreases keys.len() - i,
    {
        if keys[i] == *key {
            assert(key_views(keys@)[i as int] == key@);
            return true;
        }
        i = i + 1;
    }
    false
}

/// Adds each of `more` to `keys` in order, unless it is among them by then.
fn add_keys(keys: &mut Vec<String>, more: &Vec<String>)
    ensures
        key_views(final(keys)@) == with_keys(key_views(old(keys)@), key_views(more@)),
{
    let ghost base = key_views(keys@);
    let ghost extra = key_views(more@);
    let mut i: usize = 0;
    assert(key_views(keys@) =~= with_keys(base, extra.take(0)));
    while i < more.len()
        invariant
            i <= more.len(),
            extra == key_views(more@),
            key_views(keys@) == with_keys(base, extra.take(i as int)),
        decreases more.len() - i,
    {
        proof {
            assert(extra.take(i + 1).drop_last() =~= extra.take(i as int));
            assert(extra.take(i + 1).last() == more[i as int]@);
        }
        if !has_key(keys, &more[i]) {
            let ghost before = keys@;
            keys.push(more[i].clone());
            assert(key_views(keys@) =~= key_views(before).push(more[i as int]@));
        }
        i = i + 1;
    }
    assert(extra.take(i as int) =~= extra);
}

/// The engine.
#[derive(Debug)]
pub struct TimeSeriesDB {
    memtable: Memtable,
    sstables: Vec<SSTable>,
    data_dir: String,
    memtable_threshold: usize,
    journal: Vec<FileAction>,
}

impl View for TimeSeriesDB {
    type V = EngineView;

    closed spec fn view(&self) -> EngineView {
        EngineView {
            memtable: self.memtable@,
            segments: table_views(self.sstables@),
            data_dir: self.data_dir@,
            journal: action_views(self.journal@),
        }
    }
}

impl TimeSeriesDB {
    /// The state of the engine is well formed, and the memtable has the
    /// capacity of the engine.
    pub closed spec fn wf(&self) -> bool {
        &&& self.memtable.wf()
        &&& self@.wf()
        &&& self.memtable@.threshold == self.memtable_threshold
    }

    /// The state of a well formed engine is well formed, and so is that of
    /// its memtable.
    pub proof fn lemma_wf(&self)
        requires
            self.wf(),
        ensures
            self@.wf(),
            self@.memtable.wf(),
    {
    }

    /// An engine over the directory `data_dir` with no segment yet.
    pub fn new(data_dir: String, memtable_threshold: usize) -> (db: Self)
        ensures
            db.wf(),
            db@ == (EngineView {
                memtable: MemtableView {
                    buckets: Seq::empty(),
                    size: 0,
                    threshold: memtable_threshold as nat,
                },
                segments: Seq::empty(),
                data_dir: data_dir@,
                journal: Seq::empty(),
            }),
    {
        let db = Self {
            memtable: Memtable::new(memtable_threshold),
            sstables: Vec::new(),
            data_dir,
            memtable_threshold,
            journal: Vec::new(),
        };
        assert(db@.segments =~= Seq::empty());
        assert(db@.journal =~= Seq::empty());
        db
    }

    /// Installs `table` as the last segment.
    pub fn attach(&mut self, table: SSTable)
        requires
            old(self).wf(),
        ensures
            final(self).wf(),
            final(self)@ == (EngineView {
                segments: old(self)@.segments.push(table@),
                ..old(self)@
            }),
    {
        self.sstables.push(table);
        assert(self@.segments =~= old(self)@.segments.push(table@));
    }

    /// Installs the segment of a file found at start, with the content
    /// `bytes`, as the last segment.
    pub fn recover(&mut self, file_path: String, bytes: &[u8])
        requires
            old(self).wf(),
        ensures
            final(self).wf(),
            final(self)@ == (EngineView {
                segments: old(self)@.segments.push(
                    SSTableView { file_path: file_path@, state: SegmentState::of_bytes(bytes@) },
                ),
                ..old(self)@
            }),
    {
        self.attach(SSTable::open(file_path, bytes));
    }

    /// Installs the segment of a file found at start that cannot be read, as
    /// the last segment: it reads as empty, and writes to it fail.
    pub fn recover_unreadable(&mut self, file_path: String)
        requires
            old(self).wf(),
        ensures
            final(self).wf(),
            final(self)@ == (EngineView {
                segments: old(self)@.segments.push(
                    SSTableView { file_path: file_path@, state: SegmentState::Corrupt },
                ),
                ..old(self)@
            }),
    {
        self.attach(SSTable::with_content(file_path, None));
    }

    /// Takes the file actions recorded since the last call, in order.
    pub fn take_file_actions(&mut self) -> (actions: Vec<FileAction>)
        requires
            old(self).wf(),
        ensures
            final(self).wf(),
            action_views(actions@) == old(self)@.journal,
            final(self)@ == (EngineView { journal: Seq::empty(), ..old(self)@ }),
    {
        let mut actions: Vec<FileAction> = Vec::new();
        std::mem::swap(&mut actions, &mut self.journal);
        assert(self@.journal =~= Seq::empty());
        actions
    }

    /// Inserts a sample. When that fills the memtable, the memtable is
    /// flushed to a segment named after `now_secs`.
    pub fn insert(&mut self, series_key: String, datapoint: DataPoint, now_secs: u64)
        requires
            old(self).wf(),
        ensures
            final(self).wf(),
            final(self)@ == old(self)@.insert(series_key@, datapoint@, now_secs),
    {
        self.memtable.insert(series_key, datapoint);
        if self.memtable.is_full() {
            self.flush_memtable(now_secs);
        }
    }

    /// Moves the content of the memtable to a new last segment named after
    /// `now_secs`. An empty memtable makes no segment. Of the samples of a
    /// series with one timestamp the last inserted alone is encoded, so that
    /// scans after the flush yield the last write of the memtable at that
    /// timestamp; the others are encoded in insertion order.
    pub fn flush(&mut self, now_secs: u64)
        requires
            old(self).wf(),
        ensures
            final(self).wf(),
            final(self)@ == old(self)@.flush(now_secs),
    {
        self.flush_memtable(now_secs);
    }

    fn flush_memtable(&mut self, now_secs: u64)
        requires
            old(self).memtable.wf(),
            old(self).memtable@.threshold == old(self).memtable_threshold,
        ensures
            final(self).wf(),
            final(self)@ == old(self)@.flush(now_secs),
    {
        let ghost views = self.memtable@.buckets;
        let buckets = self.memtable.drain();
        if buckets.len() == 0 {
            assert(views =~= Seq::empty());
            return ;
        }
        let mut blocks: Vec<SeriesData> = Vec::new();
        let mut i: usize = 0;
        while i < buckets.len()
            invariant
                i <= buckets.len(),
                blocks.len() == i,
                views == bucket_views(buckets@),
                block_views(blocks@) == flushed_blocks(views).take(i as int),
            decreases buckets.len() - i,
        {
            let ghost before = blocks@;
            let bucket = &buckets[i];
            blocks.push(SeriesData::from_bucket(bucket.series_key.clone(), &bucket.points));
            i = i + 1;
            proof {
                let target = flushed_blocks(views).take(i as int);
                assert forall|k: int| 0 <= k < i implies block_views(blocks@)[k] == target[k] by {
                    if k < i - 1 {
                        assert(block_views(before)[k] == flushed_blocks(views).take(i - 1)[k]);
                    }
                }
                assert(block_views(blocks@) =~= target);
            }
        }
        assert(flushed_blocks(views).take(i as int) =~= flushed_blocks(views));
        let path = segment_path(self.data_dir.as_str(), "sstable_", now_secs);
        let mut table = SSTable::new(path.clone());
        table.write_data(blocks.as_slice());
        self.sstables.push(table);
        self.journal.push(FileAction::Write { path, series: blocks });
        proof {
            let after = old(self)@.flush(now_secs);
            assert(self@.segments =~= after.segments);
            assert(self@.journal =~= after.journal);
        }
    }

    /// What a range scan of the series `series_key` collects from the
    /// segments, in their order.
    fn collect_from_segments(
        &self,
        series_key: &str,
        start_time: Option<u64>,
        end_time: Option<u64>,
    ) -> (points: Vec<DataPoint>)
        ensures
            point_views(points@) == segments_query(
                table_views(self.sstables@),
                series_key@,
                start_time,
                end_time,
            ),
    {
        let mut results: Vec<DataPoint> = Vec::new();
        let ghost segments = table_views(self.sstables@);
        assert(point_views(results@) =~= segments_query(
            segments.take(0),
            series_key@,
            start_time,
            end_time,
        ));
        let mut i: usize = 0;
        while i < self.sstables.len()
            invariant
                i <= self.sstables.len(),
                segments == table_views(self.sstables@),
                point_views(results@) == segments_query(
                    segments.take(i as int),
                    series_key@,
                    start_time,
                    end_time,
                ),
            decreases self.sstables.len() - i,
        {
            let mut found = self.sstables[i].query_series(series_key, start_time, end_time);
            proof {
                assert(segments.take(i + 1).drop_last() =~= segments.take(i as int));
                assert(segments.take(i + 1).last() == self.sstables[i as int]@);
            }
            let ghost before = results@;
            let ghost added = found@;
            results.append(&mut found);
            assert(point_views(results@) =~= point_views(before) + point_views(added));
            i = i + 1;
        }
        assert(segments.take(i as int) =~= segments);
        results
    }

    /// The samples of the series `series_key` whose timestamps lie in the
    /// window, ordered by timestamp, one for each timestamp. Of the samples
    /// with one timestamp the first collected is kept: the segments are
    /// collected in their order, then the memtable, and each store in the
    /// order in which it holds its samples. So an earlier segment wins over
    /// a later one and a segment over the memtable. A segment made by a
    /// flush holds for each timestamp the last write that the memtable had
    /// of it; the memtable itself still holds every write, the first of
    /// them first.
    pub fn query_range(&self, series_key: &str, start_time: Option<u64>, end_time: Option<u64>) -> (points:
        Vec<DataPoint>)
        requires
            self.wf(),
        ensures
            point_views(points@) == self@.query(series_key@, start_time, end_time),
    {
        let mut results = self.collect_from_segments(series_key, start_time, end_time);
        let mut recent = self.memtable.query(series_key, start_time, end_time);
        let ghost before = results@;
        let ghost added = recent@;
        results.append(&mut recent);
        assert(point_views(results@) =~= point_views(before) + point_views(added));
        merge_by_timestamp(&results)
    }

    /// Replaces the value of the first sample of `series_key` at
    /// `timestamp`: in the memtable, or else in the first segment that holds
    /// one. Returns whether there was one; fails at a segment that cannot be
    /// read.
    #[verifier::rlimit(50)]
    pub fn update(&mut self, series_key: &str, timestamp: u64, new_value_bits: u64) -> (result: Result<
        bool,
        SegmentError,
    >)
        requires
            old(self).wf(),
        ensures
            final(self).wf(),
            (final(self)@, result) == old(self)@.update(series_key@, timestamp, new_value_bits),
    {
        if self.memtable.update(series_key, timestamp, new_value_bits) {
            return Ok(true);
        }
        proof {
            lemma_update_miss(old(self)@.memtable.buckets, series_key@, timestamp, new_value_bits);
            assert(self@.memtable == old(self)@.memtable);
        }
        let ghost segments = self@.segments;
        let mut i: usize = 0;
        while i < self.sstables.len()
            invariant
                i <= self.sstables.len(),
                self.wf(),
                self@ == old(self)@,
                segments == self@.segments,
                !has_timestamp(points_of(self@.memtable.buckets, series_key@), timestamp),
                forall|k: int| 0 <= k < i ==> !stops_update(#[trigger] segments[k], series_key@, timestamp),
            decreases self.sstables.len() - i,
        {
            let ghost before = self.sstables[i as int]@;
            assert(before == segments[i as int]);
            match self.sstables[i].update_datapoint(series_key, timestamp, new_value_bits) {
                Err(e) => {
                    proof {
                        assert(self@.segments =~= segments);
                        lemma_update_stop(old(self)@, series_key@, timestamp, i as int);
                    }
                    return Err(e);
                },
                Ok(true) => {
                    let path = self.sstables[i].file_path().clone();
                    let series = self.sstables[i].snapshot();
                    self.journal.push(FileAction::Write { path, series });
                    proof {
                        lemma_update_stop(old(self)@, series_key@, timestamp, i as int);
                        let after = old(self)@.update(series_key@, timestamp, new_value_bits).0;
                        assert(self@.segments =~= after.segments);
                        assert(self@.journal =~= after.journal);
                    }
                    return Ok(true);
                },
                Ok(false) => {
                    proof {
                        assert(self.sstables[i as int]@ == before);
                        assert(self@.segments =~= segments);
                    }
                },
            }
            i = i + 1;
        }
        proof {
            if old(self)@.update_stops(series_key@, timestamp) {
                let k = old(self)@.update_stop(series_key@, timestamp);
                assert(stops_update(segments[k], series_key@, timestamp));
            }
        }
        Ok(false)
    }

    /// Removes the samples of `series_key` at `timestamp`, or the whole
    /// series when `timestamp` is `None`, from the memtable and from every
    /// segment. The segments left without blocks leave the list. Returns
    /// whether anything was removed; fails at a segment that cannot be read,
    /// with what was removed before it removed.
    #[verifier::rlimit(50)]
    pub fn delete(&mut self, series_key: &str, timestamp: Option<u64>) -> (result: Result<
        bool,
        SegmentError,
    >)
        requires
            old(self).wf(),
        ensures
            final(self).wf(),
            (final(self)@, result) == old(self)@.delete(series_key@, timestamp),
    {
        let in_memtable = self.memtable.delete(series_key, timestamp);
        let ghost segments = old(self)@.segments;
        let ghost expected = old(self)@.delete(series_key@, timestamp).0;
        let mut in_segments = false;
        let mut i: usize = 0;
        proof {
            assert(self@.segments =~= segments_deleted(segments.take(0), series_key@, timestamp)
                + segments.skip(0));
            assert(self@.journal =~= old(self)@.journal + delete_actions(
                segments.take(0),
                series_key@,
                timestamp,
            ));
        }
        while i < self.sstables.len()
            invariant
                i <= self.sstables.len(),
                self.sstables.len() == segments.len(),
                self.wf(),
                segments == old(self)@.segments,
                expected == old(self)@.delete(series_key@, timestamp).0,
                self@.memtable == expected.memtable,
                self@.data_dir == old(self)@.data_dir,
                self@.segments == segments_deleted(segments.take(i as int), series_key@, timestamp)
                    + segments.skip(i as int),
                self@.journal == old(self)@.journal + delete_actions(
                    segments.take(i as int),
                    series_key@,
                    timestamp,
                ),
                forall|k: int| 0 <= k < i ==> !((#[trigger] segments[k]).state is Corrupt),
                in_segments == any_delete_hit(segments.take(i as int), series_key@, timestamp),
            decreases self.sstables.len() - i,
        {
            let ghost current = self@.segments;
            let ghost tables = self.sstables@;
            let ghost journal = self.journal@;
            assert(current[i as int] == segments[i as int]);
            assert(self.sstables[i as int]@ == segments[i as int]);
            let outcome = self.sstables[i].delete_datapoint(series_key, timestamp);
            assert(forall|k: int| 0 <= k < tables.len() && k != i ==> self.sstables@[k] == tables[k]);
            let hit = match outcome {
                Err(e) => {
                    proof {
                        assert(self@.segments =~= current);
                        lemma_first_corrupt(segments, i as int);
                        assert(e == SegmentError::Corrupt);
                        let after = old(self)@.delete(series_key@, timestamp).0;
                        assert(self@.segments == after.segments);
                        assert(self@.journal == after.journal);
                        assert(self@.memtable == after.memtable);
                        assert(self@ == after);
                    }
                    return Err(e);
                },
                Ok(hit) => hit,
            };
            let ghost changed = self.sstables[i as int]@;
            proof {
                assert(changed == segment_deleted(segments[i as int], series_key@, timestamp));
                assert(hit == delete_hits(segments[i as int], series_key@, timestamp));
            }
            if hit {
                in_segments = true;
                let path = self.sstables[i].file_path().clone();
                if self.sstables[i].has_file() {
                    let series = self.sstables[i].snapshot();
                    let action = FileAction::Write { path, series };
                    assert(action@ == sync_action(changed));
                    self.journal.push(action);
                } else {
                    let action = FileAction::Remove { path };
                    assert(action@ == sync_action(changed));
                    self.journal.push(action);
                }
                assert(action_views(self.journal@) =~= action_views(journal).push(
                    sync_action(changed),
                ));
            }
            proof {
                let longer = segments.take(i + 1);
                let shorter = segments.take(i as int);
                assert(longer.drop_last() =~= shorter);
                assert(longer.last() == segments[i as int]);
                assert forall|k: int| 0 <= k < segments.len() implies #[trigger] self@.segments[k] == (
                segments_deleted(longer, series_key@, timestamp) + segments.skip(i + 1))[k] by {
                    if k != i {
                        assert(self.sstables@[k] == tables[k]);
                        assert(self@.segments[k] == current[k]);
                    }
                }
                assert(self@.segments =~= segments_deleted(longer, series_key@, timestamp)
                    + segments.skip(i + 1));
                assert(self@.journal =~= old(self)@.journal + delete_actions(
                    longer,
                    series_key@,
                    timestamp,
                ));
                if any_delete_hit(shorter, series_key@, timestamp) {
                    let k = choose|k: int|
                        0 <= k < shorter.len() && delete_hits(
                            #[trigger] shorter[k],
                            series_key@,
                            timestamp,
                        );
                    assert(delete_hits(longer[k], series_key@, timestamp));
                }
                if hit {
                    assert(delete_hits(longer[i as int], series_key@, timestamp));
                }
                if any_delete_hit(longer, series_key@, timestamp) {
                    let k = choose|k: int|
                        0 <= k < longer.len() && delete_hits(
                            #[trigger] longer[k],
                            series_key@,
                            timestamp,
                        );
                    if k < i {
                        assert(delete_hits(shorter[k], series_key@, timestamp));
                    }
                }
            }
            i = i + 1;
        }
        proof {
            assert(segments.take(i as int) =~= segments);
            assert(self@.segments =~= segments_deleted(segments, series_key@, timestamp));
            if has_corrupt(segments) {
                let k = choose|k: int|
                    0 <= k < segments.len() && (#[trigger] segments[k]).state is Corrupt;
                assert(!(segments[k].state is Corrupt));
            }
        }
        self.drop_empty_segments();
        Ok(in_memtable || in_segments)
    }

    /// Takes the segments without blocks out of the list.
    fn drop_empty_segments(&mut self)
        ensures
            final(self).memtable == old(self).memtable,
            final(self).data_dir == old(self).data_dir,
            final(self).memtable_threshold == old(self).memtable_threshold,
            final(self).journal == old(self).journal,
            table_views(final(self).sstables@) == nonempty_segments(
                table_views(old(self).sstables@),
            ),
    {
        let ghost all = table_views(self.sstables@);
        let ghost keeps = |s: SSTableView| s.state.readable().len() > 0;
        let ghost mut done: int = 0;
        let mut i: usize = 0;
        assert(table_views(self.sstables@) =~= all.take(0).filter(keeps) + all.skip(0));
        while i < self.sstables.len()
            invariant
                i <= self.sstables.len(),
                0 <= done <= all.len(),
                self.sstables.len() - i == all.len() - done,
                self.memtable == old(self).memtable,
                self.data_dir == old(self).data_dir,
                self.memtable_threshold == old(self).memtable_threshold,
                self.journal == old(self).journal,
                all == table_views(old(self).sstables@),
                keeps == (|s: SSTableView| s.state.readable().len() > 0),
                all.take(done).filter(keeps).len() == i,
                table_views(self.sstables@) == all.take(done).filter(keeps) + all.skip(done),
            decreases self.sstables.len() - i,
        {
            let ghost current = table_views(self.sstables@);
            proof {
                assert(current[i as int] == all.skip(done)[0]);
                assert(all.take(done + 1) =~= all.take(done).push(all[done]));
                all.take(done).lemma_filter_push(all[done], keeps);
            }
            if self.sstables[i].block_count() == 0 {
                let _ = self.sstables.remove(i);
                proof {
                    assert(table_views(self.sstables@) =~= current.remove(i as int));
                    assert(current.remove(i as int) =~= all.take(done + 1).filter(keeps)
                        + all.skip(done + 1));
                }
            } else {
                proof {
                    assert(table_views(self.sstables@) =~= all.take(done + 1).filter(keeps)
                        + all.skip(done + 1));
                }
                i = i + 1;
            }
            proof {
                done = done + 1;
            }
        }
        proof {
            assert(all.take(done) =~= all);
            assert(table_views(self.sstables@) =~= all.filter(keeps));
        }
    }

    /// The distinct series keys of the segments, each at the place of its
    /// first occurrence.
    fn segment_series(&self, known: Vec<String>, Ghost(base): Ghost<Seq<Seq<char>>>) -> (keys: Vec<
        String,
    >)
        requires
            key_views(known@) == distinct(base),
        ensures
            key_views(keys@) == distinct(base + segment_keys(table_views(self.sstables@))),
    {
        let ghost segments = table_views(self.sstables@);
        let mut keys = known;
        let mut i: usize = 0;
        assert(base + segment_keys(segments.take(0)) =~= base);
        while i < self.sstables.len()
            invariant
                i <= self.sstables.len(),
                segments == table_views(self.sstables@),
                key_views(keys@) == distinct(base + segment_keys(segments.take(i as int))),
            decreases self.sstables.len() - i,
        {
            let found = self.sstables[i].get_all_series_keys();
            let ghost more = block_keys(self.sstables[i as int]@.state.readable());
            proof {
                assert(key_views(found@) =~= more);
                assert(segments.take(i + 1).drop_last() =~= segments.take(i as int));
                assert(segments.take(i + 1).last() == self.sstables[i as int]@);
                let so_far = base + segment_keys(segments.take(i as int));
                assert(base + segment_keys(segments.take(i + 1)) =~= so_far + more);
                lemma_distinct_add(so_far, more);
            }
            add_keys(&mut keys, &found);
            i = i + 1;
        }
        assert(segments.take(i as int) =~= segments);
        keys
    }

    /// The keys of all the series: of the memtable, then of the segments,
    /// each once.
    pub fn get_all_series(&self) -> (keys: Vec<String>)
        requires
            self.wf(),
        ensures
            key_views(keys@) == self@.series(),
    {
        let buckets = self.memtable.get_data();
        let ghost names = bucket_keys(self@.memtable.buckets);
        let mut found: Vec<String> = Vec::new();
        let mut i: usize = 0;
        while i < buckets.len()
            invariant
                i <= buckets.len(),
                found.len() == i,
                names == bucket_keys(bucket_views(buckets@)),
                key_views(found@) == names.take(i as int),
            decreases buckets.len() - i,
        {
            let ghost before = found@;
            found.push(buckets[i].series_key.clone());
            i = i + 1;
            proof {
                let target = names.take(i as int);
                assert forall|k: int| 0 <= k < i implies key_views(found@)[k] == target[k] by {
                    if k < i - 1 {
                        assert(key_views(before)[k] == names.take(i - 1)[k]);
                    }
                }
                assert(key_views(found@) =~= target);
            }
        }
        assert(names.take(i as int) =~= names);
        let mut keys: Vec<String> = Vec::new();
        proof {
            assert(key_views(keys@) =~= distinct(Seq::empty()));
            lemma_distinct_add(Seq::empty(), names);
            assert(Seq::<Seq<char>>::empty() + names =~= names);
        }
        add_keys(&mut keys, &found);
        self.segment_series(keys, Ghost(names))
    }

    /// Counters of the engine.
    pub fn get_stats(&self) -> (stats: DatabaseStats)
        requires
            self.wf(),
        ensures
            stats.memtable_size == self@.memtable.buckets.len(),
            stats.sstable_count == self@.segments.len(),
            stats.total_series == self@.series().len(),
    {
        let keys = self.get_all_series();
        DatabaseStats {
            memtable_size: self.memtable.get_data().len(),
            sstable_count: self.sstables.len(),
            total_series: keys.len(),
        }
    }

    /// Records the removal of the file of each segment that has one, unless
    /// it is the file at `kept`.
    fn record_removals(&mut self, kept: Option<&String>)
        ensures
            final(self).memtable == old(self).memtable,
            final(self).data_dir == old(self).data_dir,
            final(self).memtable_threshold == old(self).memtable_threshold,
            final(self).sstables == old(self).sstables,
            action_views(final(self).journal@) == action_views(old(self).journal@) + removals(
                table_views(old(self).sstables@),
                match kept {
                    Some(path) => Some(path@),
                    None => None,
                },
            ),
    {
        let ghost segments = table_views(self.sstables@);
        let ghost base = action_views(self.journal@);
        let ghost spared = match kept {
            Some(path) => Some(path@),
            None => None,
        };
        let mut i: usize = 0;
        assert(action_views(self.journal@) =~= base + removals(segments.take(0), spared));
        while i < self.sstables.len()
            invariant
                i <= self.sstables.len(),
                self.memtable == old(self).memtable,
                self.data_dir == old(self).data_dir,
                self.memtable_threshold == old(self).memtable_threshold,
                self.sstables == old(self).sstables,
                segments == table_views(self.sstables@),
                base == action_views(old(self).journal@),
                spared == match kept {
                    Some(path) => Some(path@),
                    None => None,
                },
                action_views(self.journal@) == base + removals(segments.take(i as int), spared),
            decreases self.sstables.len() - i,
        {
            proof {
                assert(segments.take(i + 1).drop_last() =~= segments.take(i as int));
                assert(segments.take(i + 1).last() == self.sstables[i as int]@);
            }
            let is_kept = match kept {
                Some(path) => *self.sstables[i].file_path() == *path,
                None => false,
            };
            if self.sstables[i].has_file() && !is_kept {
                let ghost before = self.journal@;
                let action = FileAction::Remove { path: self.sstables[i].file_path().clone() };
                self.journal.push(action);
                assert(action_views(self.journal@) =~= action_views(before).push(action@));
            }
            i = i + 1;
            assert(action_views(self.journal@) =~= base + removals(segments.take(i as int), spared));
        }
        assert(segments.take(i as int) =~= segments);
    }

    /// What a compaction at `now_secs` writes: the path of the new file and
    /// its blocks, one for each series that the segments hold, with the
    /// merge of what they hold of it. The engine does not change. Whoever
    /// owns the files writes the file and then calls `finish_compaction`
    /// with the outcome.
    pub fn plan_compaction(&self, now_secs: u64) -> (plan: Option<(String, Vec<SeriesData>)>)
        requires
            self.wf(),
        ensures
            match plan {
                Some((path, blocks)) => self@.compaction_plan(now_secs) == Some(
                    (path@, block_views(blocks@)),
                ),
                None => self@.compaction_plan(now_secs).is_none(),
            },
    {
        if self.sstables.len() < 2 {
            return None;
        }
        let ghost segments = self@.segments;
        let none: Vec<String> = Vec::new();
        assert(key_views(none@) =~= distinct(Seq::empty()));
        let keys = self.segment_series(none, Ghost(Seq::empty()));
        proof {
            assert(Seq::<Seq<char>>::empty() + segment_keys(segments) =~= segment_keys(segments));
        }
        let ghost names = key_views(keys@);
        if keys.len() == 0 {
            return None;
        }
        let mut blocks: Vec<SeriesData> = Vec::new();
        let mut i: usize = 0;
        assert(block_views(blocks@) =~= compacted_blocks(segments, names.take(0)));
        while i < keys.len()
            invariant
                i <= keys.len(),
                segments == table_views(self.sstables@),
                names == key_views(keys@),
                block_views(blocks@) == compacted_blocks(segments, names.take(i as int)),
            decreases keys.len() - i,
        {
            let collected = self.collect_from_segments(keys[i].as_str(), None, None);
            let points = merge_by_timestamp(&collected);
            proof {
                assert(names.take(i + 1).drop_last() =~= names.take(i as int));
                assert(names.take(i + 1).last() == keys[i as int]@);
            }
            if points.len() > 0 {
                let ghost before = blocks@;
                let block = SeriesData::from_points(keys[i].clone(), &points);
                blocks.push(block);
                assert(block_views(blocks@) =~= block_views(before).push(block@));
            }
            i = i + 1;
        }
        assert(names.take(i as int) =~= names);
        let path = segment_path(self.data_dir.as_str(), "compacted_", now_secs);
        Some((path, blocks))
    }

    /// Ends a compaction whose file at `path`, with the blocks `blocks`, was
    /// written or was not. Written, the file becomes the only segment, and
    /// the removals of the files of the old segments are recorded. Not
    /// written, the engine stays as it is: no old file is removed.
    pub fn finish_compaction(&mut self, path: String, blocks: Vec<SeriesData>, written: bool)
        requires
            old(self).wf(),
        ensures
            final(self).wf(),
            final(self)@ == old(self)@.finish_compaction(path@, block_views(blocks@), written),
    {
        if !written {
            return ;
        }
        self.record_removals(Some(&path));
        let table = SSTable::with_content(path, Some(blocks));
        let mut tables: Vec<SSTable> = Vec::new();
        tables.push(table);
        self.sstables = tables;
        proof {
            let after = old(self)@.finish_compaction(path@, block_views(blocks@), written);
            assert(self@.segments =~= after.segments);
        }
    }

    /// Merges the segments into one, for an owner whose write cannot fail:
    /// the write of the new file is recorded before the removals of the old
    /// ones, and the new segment is installed at once. Fewer than two
    /// segments are left alone. An owner whose write can fail plans the
    /// compaction, writes, and finishes it with the outcome.
    pub fn compact(&mut self, now_secs: u64)
        requires
            old(self).wf(),
        ensures
            final(self).wf(),
            final(self)@ == old(self)@.compact(now_secs),
    {
        if self.sstables.len() < 2 {
            return ;
        }
        match self.plan_compaction(now_secs) {
            None => {
                self.record_removals(None);
                self.sstables = Vec::new();
                proof {
                    let after = old(self)@.compact(now_secs);
                    assert(self@.segments =~= after.segments);
                }
            },
            Some((path, blocks)) => {
                let ghost journal = self.journal@;
                let action = FileAction::Write { path: path.clone(), series: copy_blocks(&blocks) };
                self.journal.push(action);
                assert(action_views(self.journal@) =~= action_views(journal).push(action@));
                self.finish_compaction(path, blocks, true);
                proof {
                    let after = old(self)@.compact(now_secs);
                    assert(self@.segments =~= after.segments);
                    assert(self@.journal =~= after.journal);
                }
            },
        }
    }
}

} // verus!
