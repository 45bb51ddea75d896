//! A segment: the immutable list of series blocks that one file holds, and
//! the point rewrites that decode a block, change it and encode it again.
//!
//! A segment is a value here. Whoever owns the file reads its bytes into one
//! and writes back what an operation leaves.

use crate::compression::compress_samples;
use crate::series::{block_views, point_views, DataPoint, DataPointView, SeriesData, SeriesDataView};
use crate::wire::{decode_segment, encode_segment, segment_blocks, segment_bytes};
use vstd::prelude::*;

verus! {

/// Whether some sample has the timestamp `timestamp`.
pub open spec fn has_sample_at(samples: Seq<(u64, u64)>, timestamp: u64) -> bool {
    exists|j: int| 0 <= j < samples.len() && (#[trigger] samples[j]).0 == timestamp
}

/// The place of the first sample with the timestamp `timestamp`, where there
/// is one.
pub open spec fn first_sample_at(samples: Seq<(u64, u64)>, timestamp: u64) -> int {
    choose|j: int|
        0 <= j < samples.len() && (#[trigger] samples[j]).0 == timestamp && forall|k: int|
            0 <= k < j ==> (#[trigger] samples[k]).0 != timestamp
}

/// Where some sample has the timestamp, the first place with it is in range,
/// has it, and has none with it before.
pub proof fn lemma_first_sample_exists(samples: Seq<(u64, u64)>, timestamp: u64)
    requires
        has_sample_at(samples, timestamp),
    ensures
        0 <= first_sample_at(samples, timestamp) < samples.len(),
        samples[first_sample_at(samples, timestamp)].0 == timestamp,
        forall|k: int|
            0 <= k < first_sample_at(samples, timestamp) ==> (#[trigger] samples[k]).0 != timestamp,
{
    let some = choose|j: int| 0 <= j < samples.len() && (#[trigger] samples[j]).0 == timestamp;
    lemma_least_sample(samples, timestamp, some);
}

proof fn lemma_least_sample(samples: Seq<(u64, u64)>, timestamp: u64, j: int)
    requires
        0 <= j < samples.len(),
        samples[j].0 == timestamp,
    ensures
        exists|f: int|
            0 <= f <= j && (#[trigger] samples[f]).0 == timestamp && forall|k: int|
                0 <= k < f ==> (#[trigger] samples[k]).0 != timestamp,
    decreases j,
{
    if exists|k: int| 0 <= k < j && (#[trigger] samples[k]).0 == timestamp {
        let k = choose|k: int| 0 <= k < j && (#[trigger] samples[k]).0 == timestamp;
        lemma_least_sample(samples, timestamp, k);
    } else {
        assert(samples[j].0 == timestamp);
    }
}

/// Whether a block is of the series `key` and holds a sample at `timestamp`.
pub open spec fn holds(block: SeriesDataView, key: Seq<char>, timestamp: u64) -> bool {
    block.series_key == key && has_sample_at(block.samples(), timestamp)
}

/// Whether some block of the series `key` holds a sample at `timestamp`.
pub open spec fn has_holder(blocks: Seq<SeriesDataView>, key: Seq<char>, timestamp: u64) -> bool {
    exists|i: int| 0 <= i < blocks.len() && holds(#[trigger] blocks[i], key, timestamp)
}

/// The place of the first block of the series `key` that holds a sample at
/// `timestamp`, where there is one.
pub open spec fn first_holder(blocks: Seq<SeriesDataView>, key: Seq<char>, timestamp: u64) -> int {
    choose|i: int|
        0 <= i < blocks.len() && holds(#[trigger] blocks[i], key, timestamp) && forall|k: int|
            0 <= k < i ==> !holds(#[trigger] blocks[k], key, timestamp)
}

/// Where some block of the series holds a sample at the timestamp, the first
/// such block is in range, holds one, and no block before it does.
pub proof fn lemma_first_holder_exists(blocks: Seq<SeriesDataView>, key: Seq<char>, timestamp: u64)
    requires
        has_holder(blocks, key, timestamp),
    ensures
        0 <= first_holder(blocks, key, timestamp) < blocks.len(),
        holds(blocks[first_holder(blocks, key, timestamp)], key, timestamp),
        forall|k: int|
            0 <= k < first_holder(blocks, key, timestamp) ==> !holds(
                #[trigger] blocks[k],
                key,
                timestamp,
            ),
{
    let some = choose|i: int| 0 <= i < blocks.len() && holds(#[trigger] blocks[i], key, timestamp);
    lemma_least_holder(blocks, key, timestamp, some);
}

proof fn lemma_least_holder(blocks: Seq<SeriesDataView>, key: Seq<char>, timestamp: u64, i: int)
    requires
        0 <= i < blocks.len(),
        holds(blocks[i], key, timestamp),
    ensures
        exists|f: int|
            0 <= f <= i && holds(#[trigger] blocks[f], key, timestamp) && forall|k: int|
                0 <= k < f ==> !holds(#[trigger] blocks[k], key, timestamp),
    decreases i,
{
    if exists|k: int| 0 <= k < i && holds(#[trigger] blocks[k], key, timestamp) {
        let k = choose|k: int| 0 <= k < i && holds(#[trigger] blocks[k], key, timestamp);
        lemma_least_holder(blocks, key, timestamp, k);
    } else {
        assert(holds(blocks[i], key, timestamp));
    }
}

/// Whether some block is of the series `key`.
pub open spec fn has_block(blocks: Seq<SeriesDataView>, key: Seq<char>) -> bool {
    exists|i: int| 0 <= i < blocks.len() && (#[trigger] blocks[i]).series_key == key
}

/// The series keys of the blocks, in order.
pub open spec fn block_keys(blocks: Seq<SeriesDataView>) -> Seq<Seq<char>> {
    blocks.map_values(|b: SeriesDataView| b.series_key)
}

/// What a range scan of the series `key` yields over a list of blocks: what
/// each block of that series yields, in the order of the blocks.
pub open spec fn blocks_query(
    blocks: Seq<SeriesDataView>,
    key: Seq<char>,
    start: Option<u64>,
    end: Option<u64>,
) -> Seq<DataPointView>
    decreases blocks.len(),
{
    if blocks.len() == 0 {
        Seq::empty()
    } else {
        blocks_query(blocks.drop_last(), key, start, end) + if blocks.last().series_key == key {
            blocks.last().query(start, end)
        } else {
            Seq::empty()
        }
    }
}

/// The blocks after the value of the first sample of `key` at `timestamp` is
/// replaced, in the first block that holds one.
pub open spec fn blocks_updated(
    blocks: Seq<SeriesDataView>,
    key: Seq<char>,
    timestamp: u64,
    value_bits: u64,
) -> Seq<SeriesDataView> {
    if has_holder(blocks, key, timestamp) {
        let i = first_holder(blocks, key, timestamp);
        let samples = blocks[i].samples();
        let j = first_sample_at(samples, timestamp);
        blocks.update(
            i,
            blocks[i].with_samples(samples.update(j, (timestamp, value_bits)), blocks[i].count),
        )
    } else {
        blocks
    }
}

/// A count of samples after one is removed.
pub open spec fn one_less(count: usize) -> usize {
    if count == 0 {
        0
    } else {
        (count - 1) as usize
    }
}

/// The blocks without the first sample of `key` at `timestamp`, in the first
/// block that holds one. A block left empty is dropped.
pub open spec fn blocks_without_sample(blocks: Seq<SeriesDataView>, key: Seq<char>, timestamp: u64) -> Seq<
    SeriesDataView,
> {
    if has_holder(blocks, key, timestamp) {
        let i = first_holder(blocks, key, timestamp);
        let samples = blocks[i].samples();
        let kept = samples.remove(first_sample_at(samples, timestamp));
        if kept.len() == 0 {
            blocks.remove(i)
        } else {
            blocks.update(i, blocks[i].with_samples(kept, one_less(blocks[i].count)))
        }
    } else {
        blocks
    }
}

/// The blocks that are not of the series `key`, in order.
pub open spec fn blocks_without_series(blocks: Seq<SeriesDataView>, key: Seq<char>) -> Seq<
    SeriesDataView,
> {
    blocks.filter(|b: SeriesDataView| b.series_key != key)
}

/// What is known of the file of a segment.
pub enum SegmentState {
    /// There is no file.
    Absent,
    /// The file does not hold a list of blocks.
    Corrupt,
    /// The file holds these blocks.
    Blocks(Seq<SeriesDataView>),
}

impl SegmentState {
    /// The blocks that reads see: none unless the file holds a list.
    pub open spec fn readable(self) -> Seq<SeriesDataView> {
        match self {
            SegmentState::Blocks(blocks) => blocks,
            _ => Seq::empty(),
        }
    }

    /// The state of a file with the content `bytes`: an empty file holds no
    /// block.
    pub open spec fn of_bytes(bytes: Seq<u8>) -> SegmentState {
        if bytes.len() == 0 {
            SegmentState::Blocks(Seq::empty())
        } else {
            SegmentState::of_content(segment_blocks(bytes))
        }
    }

    /// The state of a file that holds the blocks `content`, or no list of
    /// blocks.
    pub open spec fn of_content(content: Option<Seq<SeriesDataView>>) -> SegmentState {
        match content {
            Some(blocks) => SegmentState::Blocks(blocks),
            None => SegmentState::Corrupt,
        }
    }

    /// The state after a deletion that found something leaves `blocks`: a
    /// file left without blocks is removed.
    pub open spec fn after_removal(blocks: Seq<SeriesDataView>) -> SegmentState {
        if blocks.len() == 0 {
            SegmentState::Absent
        } else {
            SegmentState::Blocks(blocks)
        }
    }
}

/// The mathematical content of a segment.
pub struct SSTableView {
    pub file_path: Seq<char>,
    pub state: SegmentState,
}

/// Why an operation on a segment failed.
#[derive(Debug, Clone, Copy, PartialEq, Eq, Structural)]
pub enum SegmentError {
    /// The segment has no file.
    Missing,
    /// The file of the segment does not hold a list of blocks.
    Corrupt,
}

impl SegmentError {
    /// The failure in words.
    pub fn message(&self) -> (text: String)
        ensures
            text@ == match *self {
                SegmentError::Missing => "segment file is missing"@,
                SegmentError::Corrupt => "segment file is corrupt"@,
            },
    {
        match self {
            SegmentError::Missing => "segment file is missing".to_owned(),
            SegmentError::Corrupt => "segment file is corrupt".to_owned(),
        }
    }
}

#[derive(Debug, Clone, Copy, PartialEq, Eq, Structural)]
enum Status {
    Absent,
    Corrupt,
    Readable,
}

/// One segment of the engine.
#[derive(Debug)]
pub struct SSTable {
    file_path: String,
    status: Status,
    /// The blocks of the file; empty unless the status is `Readable`.
    blocks: Vec<SeriesData>,
}

impl View for SSTable {
    type V = SSTableView;

    closed spec fn view(&self) -> SSTableView {
        SSTableView {
            file_path: self.file_path@,
            state: match self.status {
                Status::Absent => SegmentState::Absent,
                Status::Corrupt => SegmentState::Corrupt,
                Status::Readable => SegmentState::Blocks(block_views(self.blocks@)),
            },
        }
    }
}

impl SSTable {
    /// A segment whose file does not exist yet.
    pub fn new(file_path: String) -> (table: Self)
        ensures
            table@ == (SSTableView { file_path: file_path@, state: SegmentState::Absent }),
    {
        Self { file_path, status: Status::Absent, blocks: Vec::new() }
    }

    /// The segment of an existing file with the content `bytes`.
    pub fn open(file_path: String, bytes: &[u8]) -> (table: Self)
        ensures
            table@ == (SSTableView { file_path: file_path@, state: SegmentState::of_bytes(bytes@) }),
    {
        if bytes.len() == 0 {
            let table = Self { file_path, status: Status::Readable, blocks: Vec::new() };
            assert(block_views(table.blocks@) =~= Seq::empty());
            return table;
        }
        match decode_segment(bytes) {
            Ok(blocks) => Self::with_content(file_path, Some(blocks)),
            Err(_) => Self::with_content(file_path, None),
        }
    }

    /// The segment of an existing file that holds the blocks `content`, or
    /// no list of blocks.
    pub fn with_content(file_path: String, content: Option<Vec<SeriesData>>) -> (table: Self)
        ensures
            table@ == (SSTableView {
                file_path: file_path@,
                state: SegmentState::of_content(
                    match content {
                        Some(blocks) => Some(block_views(blocks@)),
                        None => None,
                    },
                ),
            }),
    {
        match content {
            Some(blocks) => Self { file_path, status: Status::Readable, blocks },
            None => Self { file_path, status: Status::Corrupt, blocks: Vec::new() },
        }
    }

    /// The path of the file of the segment.
    pub fn file_path(&self) -> (path: &String)
        ensures
            path@ == self@.file_path,
    {
        &self.file_path
    }

    /// Whether the segment has a file.
    pub fn has_file(&self) -> (present: bool)
        ensures
            present == !(self@.state is Absent),
    {
        match self.status {
            Status::Absent => false,
            _ => true,
        }
    }

    /// The bytes of the file, where it holds a list of blocks.
    pub fn to_bytes(&self) -> (result: Result<Vec<u8>, SegmentError>)
        ensures
            match self@.state {
                SegmentState::Absent => result == Err::<Vec<u8>, SegmentError>(
                    SegmentError::Missing,
                ),
                SegmentState::Corrupt => result == Err::<Vec<u8>, SegmentError>(
                    SegmentError::Corrupt,
                ),
                SegmentState::Blocks(blocks) => result matches Ok(bytes) && bytes@
                    == segment_bytes(blocks),
            },
    {
        match self.status {
            Status::Absent => Err(SegmentError::Missing),
            Status::Corrupt => Err(SegmentError::Corrupt),
            Status::Readable => Ok(encode_segment(&self.blocks)),
        }
    }

    /// Replaces the content of the file by `series_data`.
    pub fn write_data(&mut self, series_data: &[SeriesData])
        ensures
            final(self)@ == (SSTableView {
                file_path: old(self)@.file_path,
                state: SegmentState::Blocks(block_views(series_data@)),
            }),
    {
        let mut blocks: Vec<SeriesData> = Vec::new();
        let mut i: usize = 0;
        while i < series_data.len()
            invariant
                i <= series_data.len(),
                blocks.len() == i,
                block_views(blocks@) == block_views(series_data@).take(i as int),
            decreases series_data.len() - i,
        {
            let ghost before = blocks@;
            blocks.push(series_data[i].duplicate());
            i = i + 1;
            proof {
                let target = block_views(series_data@).take(i as int);
                assert forall|k: int| 0 <= k < i implies block_views(blocks@)[k] == target[k] by {
                    if k < i - 1 {
                        assert(block_views(before)[k] == block_views(series_data@).take(i - 1)[k]);
                    }
                }
                assert(block_views(blocks@) =~= target);
            }
        }
        assert(block_views(series_data@).take(i as int) =~= block_views(series_data@));
        self.blocks = blocks;
        self.status = Status::Readable;
    }

    /// Removes the file.
    pub fn delete_file(&mut self)
        ensures
            final(self)@ == (SSTableView {
                file_path: old(self)@.file_path,
                state: SegmentState::Absent,
            }),
    {
        self.blocks = Vec::new();
        self.status = Status::Absent;
    }

    /// The number of blocks that reads see.
    pub fn block_count(&self) -> (count: usize)
        ensures
            count == self@.state.readable().len(),
    {
        match self.status {
            Status::Readable => self.blocks.len(),
            _ => 0,
        }
    }

    /// A copy of the blocks that reads see.
    pub fn snapshot(&self) -> (blocks: Vec<SeriesData>)
        ensures
            block_views(blocks@) == self@.state.readable(),
    {
        let mut blocks: Vec<SeriesData> = Vec::new();
        match self.status {
            Status::Readable => {},
            _ => {
                assert(block_views(blocks@) =~= Seq::empty());
                return blocks;
            },
        }
        let mut i: usize = 0;
        while i < self.blocks.len()
            invariant
                i <= self.blocks.len(),
                blocks.len() == i,
                block_views(blocks@) == block_views(self.blocks@).take(i as int),
            decreases self.blocks.len() - i,
        {
            let ghost before = blocks@;
            blocks.push(self.blocks[i].duplicate());
            i = i + 1;
            proof {
                let target = block_views(self.blocks@).take(i as int);
                assert forall|k: int| 0 <= k < i implies block_views(blocks@)[k] == target[k] by {
                    if k < i - 1 {
                        assert(block_views(before)[k] == block_views(self.blocks@).take(i - 1)[k]);
                    }
                }
                assert(block_views(blocks@) =~= target);
            }
        }
        assert(block_views(self.blocks@).take(i as int) =~= block_views(self.blocks@));
        blocks
    }

    /// The samples of the series `series_key` whose timestamps lie in the
    /// window. A segment without a readable file yields none.
    pub fn query_series(&self, series_key: &str, start_time: Option<u64>, end_time: Option<u64>) -> (points:
        Vec<DataPoint>)
        ensures
            point_views(points@) == blocks_query(
                self@.state.readable(),
                series_key@,
                start_time,
                end_time,
            ),
    {
        let mut results: Vec<DataPoint> = Vec::new();
        match self.status {
            Status::Readable => {},
            _ => {
                assert(point_views(results@) =~= Seq::empty());
                return results;
            },
        }
        let wanted: String = series_key.to_owned();
        let ghost all = block_views(self.blocks@);
        assert(point_views(results@) =~= blocks_query(
            all.take(0),
            series_key@,
            start_time,
            end_time,
        ));
        let mut i: usize = 0;
        while i < self.blocks.len()
            invariant
                i <= self.blocks.len(),
                wanted@ == series_key@,
                all == block_views(self.blocks@),
                point_views(results@) == blocks_query(
                    all.take(i as int),
                    series_key@,
                    start_time,
                    end_time,
                ),
            decreases self.blocks.len() - i,
        {
            proof {
                assert(all.take(i + 1).drop_last() =~= all.take(i as int));
                assert(all.take(i + 1).last() == self.blocks[i as int]@);
            }
            if self.blocks[i].series_key == wanted {
                let mut found = self.blocks[i].query(start_time, end_time);
                let ghost before = results@;
                let ghost added = found@;
                results.append(&mut found);
                assert(point_views(results@) =~= point_views(before) + point_views(added));
            }
            i = i + 1;
            assert(point_views(results@) =~= blocks_query(
                all.take(i as int),
                series_key@,
                start_time,
                end_time,
            ));
        }
        assert(all.take(i as int) =~= all);
        results
    }

    /// The series keys of the blocks, in order. A segment without a readable
    /// file has none.
    pub fn get_all_series_keys(&self) -> (keys: Vec<String>)
        ensures
            keys.len() == self@.state.readable().len(),
            forall|i: int|
                0 <= i < keys.len() ==> (#[trigger] keys[i])@
                    == self@.state.readable()[i].series_key,
    {
        let mut keys: Vec<String> = Vec::new();
        match self.status {
            Status::Readable => {},
            _ => {
                return keys;
            },
        }
        let mut i: usize = 0;
        while i < self.blocks.len()
            invariant
                i <= self.blocks.len(),
                keys.len() == i,
                forall|k: int| 0 <= k < i ==> (#[trigger] keys[k])@ == self.blocks[k].series_key@,
            decreases self.blocks.len() - i,
        {
            keys.push(self.blocks[i].series_key.clone());
            i = i + 1;
        }
        keys
    }

    /// Replaces the value of the first sample of `series_key` at `timestamp`,
    /// in the first block that holds one, and encodes that block again.
    /// Returns whether there was one; fails on a segment without a readable
    /// file.
    pub fn update_datapoint(&mut self, series_key: &str, timestamp: u64, new_value_bits: u64) -> (result:
        Result<bool, SegmentError>)
        ensures
            final(self)@.file_path == old(self)@.file_path,
            match old(self)@.state {
                SegmentState::Absent => result == Err::<bool, SegmentError>(SegmentError::Missing)
                    && final(self)@ == old(self)@,
                SegmentState::Corrupt => result == Err::<bool, SegmentError>(SegmentError::Corrupt)
                    && final(self)@ == old(self)@,
                SegmentState::Blocks(blocks) => result == Ok::<bool, SegmentError>(
                    has_holder(blocks, series_key@, timestamp),
                ) && final(self)@.state == SegmentState::Blocks(
                    blocks_updated(blocks, series_key@, timestamp, new_value_bits),
                ),
            },
    {
        match self.status {
            Status::Absent => {
                return Err(SegmentError::Missing);
            },
            Status::Corrupt => {
                return Err(SegmentError::Corrupt);
            },
            Status::Readable => {},
        }
        let wanted: String = series_key.to_owned();
        let ghost all = block_views(self.blocks@);
        let mut i: usize = 0;
        while i < self.blocks.len()
            invariant
                i <= self.blocks.len(),
                wanted@ == series_key@,
                self.status == Status::Readable,
                self.file_path == old(self).file_path,
                all == block_views(self.blocks@),
                old(self)@.state == SegmentState::Blocks(all),
                forall|k: int| 0 <= k < i ==> !holds(#[trigger] all[k], series_key@, timestamp),
            decreases self.blocks.len() - i,
        {
            if self.blocks[i].series_key == wanted {
                let mut samples = self.blocks[i].samples();
                let ghost decoded = samples@;
                let mut j: usize = 0;
                while j < samples.len() && samples[j].0 != timestamp
                    invariant
                        j <= samples.len(),
                        decoded == samples@,
                        forall|k: int| 0 <= k < j ==> (#[trigger] decoded[k]).0 != timestamp,
                    decreases samples.len() - j,
                {
                    j = j + 1;
                }
                if j < samples.len() {
                    samples.set(j, (timestamp, new_value_bits));
                    self.blocks[i].compressed_data = compress_samples(&samples);
                    proof {
                        assert(holds(all[i as int], series_key@, timestamp));
                        assert(first_holder(all, series_key@, timestamp) == i);
                        assert(first_sample_at(decoded, timestamp) == j);
                        assert(block_views(self.blocks@) =~= blocks_updated(
                            all,
                            series_key@,
                            timestamp,
                            new_value_bits,
                        ));
                    }
                    return Ok(true);
                }
                assert(!has_sample_at(decoded, timestamp));
            }
            i = i + 1;
        }
        Ok(false)
    }

    /// Removes the first sample of `series_key` at `timestamp`, in the first
    /// block that holds one, or every block of `series_key` when `timestamp`
    /// is `None`. A block left empty is dropped, and the file is removed when
    /// no block is left. Returns whether anything was removed; fails on a
    /// file that holds no list of blocks.
    pub fn delete_datapoint(&mut self, series_key: &str, timestamp: Option<u64>) -> (result: Result<
        bool,
        SegmentError,
    >)
        ensures
            final(self)@.file_path == old(self)@.file_path,
            match old(self)@.state {
                SegmentState::Absent => result == Ok::<bool, SegmentError>(false) && final(self)@
                    == old(self)@,
                SegmentState::Corrupt => result == Err::<bool, SegmentError>(SegmentError::Corrupt)
                    && final(self)@ == old(self)@,
                SegmentState::Blocks(blocks) => match timestamp {
                    Some(t) => {
                        let hit = has_holder(blocks, series_key@, t);
                        result == Ok::<bool, SegmentError>(hit) && final(self)@.state == if hit {
                            SegmentState::after_removal(
                                blocks_without_sample(blocks, series_key@, t),
                            )
                        } else {
                            old(self)@.state
                        }
                    },
                    None => {
                        let hit = has_block(blocks, series_key@);
                        result == Ok::<bool, SegmentError>(hit) && final(self)@.state == if hit {
                            SegmentState::after_removal(blocks_without_series(blocks, series_key@))
                        } else {
                            old(self)@.state
                        }
                    },
                },
            },
    {
        match self.status {
            Status::Absent => {
                return Ok(false);
            },
            Status::Corrupt => {
                return Err(SegmentError::Corrupt);
            },
            Status::Readable => {},
        }
        let deleted = match timestamp {
            Some(t) => self.delete_sample(series_key, t),
            None => self.delete_series(series_key),
        };
        if deleted && self.blocks.len() == 0 {
            self.status = Status::Absent;
        }
        Ok(deleted)
    }

    fn delete_sample(&mut self, series_key: &str, timestamp: u64) -> (deleted: bool)
        requires
            old(self).status == Status::Readable,
        ensures
            final(self).status == Status::Readable,
            final(self).file_path == old(self).file_path,
            deleted == has_holder(block_views(old(self).blocks@), series_key@, timestamp),
            block_views(final(self).blocks@) == blocks_without_sample(
                block_views(old(self).blocks@),
                series_key@,
                timestamp,
            ),
    {
        let wanted: String = series_key.to_owned();
        let ghost all = block_views(self.blocks@);
        let mut i: usize = 0;
        while i < self.blocks.len()
            invariant
                i <= self.blocks.len(),
                wanted@ == series_key@,
                self.status == Status::Readable,
                self.file_path == old(self).file_path,
                all == block_views(self.blocks@),
                all == block_views(old(self).blocks@),
                forall|k: int| 0 <= k < i ==> !holds(#[trigger] all[k], series_key@, timestamp),
            decreases self.blocks.len() - i,
        {
            if self.blocks[i].series_key == wanted {
                let mut samples = self.blocks[i].samples();
                let ghost decoded = samples@;
                let mut j: usize = 0;
                while j < samples.len() && samples[j].0 != timestamp
                    invariant
                        j <= samples.len(),
                        decoded == samples@,
                        forall|k: int| 0 <= k < j ==> (#[trigger] decoded[k]).0 != timestamp,
                    decreases samples.len() - j,
                {
                    j = j + 1;
                }
                if j < samples.len() {
                    let _ = samples.remove(j);
                    proof {
                        assert(holds(all[i as int], series_key@, timestamp));
                        assert(first_holder(all, series_key@, timestamp) == i);
                        assert(first_sample_at(decoded, timestamp) == j);
                    }
                    if samples.len() == 0 {
                        let _ = self.blocks.remove(i);
                        assert(block_views(self.blocks@) =~= blocks_without_sample(
                            all,
                            series_key@,
                            timestamp,
                        ));
                    } else {
                        self.blocks[i].compressed_data = compress_samples(&samples);
                        self.blocks[i].count = self.blocks[i].count.saturating_sub(1);
                        assert(block_views(self.blocks@) =~= blocks_without_sample(
                            all,
                            series_key@,
                            timestamp,
                        ));
                    }
                    return true;
                }
                assert(!has_sample_at(decoded, timestamp));
            }
            i = i + 1;
        }
        false
    }

    fn delete_series(&mut self, series_key: &str) -> (deleted: bool)
        requires
            old(self).status == Status::Readable,
        ensures
            final(self).status == Status::Readable,
            final(self).file_path == old(self).file_path,
            deleted == has_block(block_views(old(self).blocks@), series_key@),
            block_views(final(self).blocks@) == blocks_without_series(
                block_views(old(self).blocks@),
                series_key@,
            ),
            !deleted ==> block_views(final(self).blocks@) == block_views(old(self).blocks@),
    {
        let wanted: String = series_key.to_owned();
        let ghost all = block_views(self.blocks@);
        let ghost other = |b: SeriesDataView| b.series_key != series_key@;
        let mut kept: Vec<SeriesData> = Vec::new();
        assert(block_views(kept@) =~= all.take(0).filter(other));
        let mut i: usize = 0;
        while i < self.blocks.len()
            invariant
                i <= self.blocks.len(),
                wanted@ == series_key@,
                self.status == Status::Readable,
                self.file_path == old(self).file_path,
                self.blocks == old(self).blocks,
                all == block_views(self.blocks@),
                other == (|b: SeriesDataView| b.series_key != series_key@),
                block_views(kept@) == all.take(i as int).filter(other),
                kept.len() <= i,
                (kept.len() == i) == (forall|k: int|
                    0 <= k < i ==> (#[trigger] all[k]).series_key != series_key@),
                kept.len() == i ==> block_views(kept@) == all.take(i as int),
            decreases self.blocks.len() - i,
        {
            let ghost complete = kept.len() == i;
            let ghost block = self.blocks[i as int]@;
            proof {
                assert(all.take(i + 1) =~= all.take(i as int).push(block));
                all.take(i as int).lemma_filter_push(block, other);
            }
            if self.blocks[i].series_key != wanted {
                kept.push(self.blocks[i].duplicate());
            }
            proof {
                assert(all[i as int] == block);
                if !complete {
                    let k = choose|k: int| 0 <= k < i && (#[trigger] all[k]).series_key == series_key@;
                    assert(all[k].series_key == series_key@);
                }
            }
            i = i + 1;
            assert(block_views(kept@) =~= all.take(i as int).filter(other));
        }
        proof {
            assert(all.take(i as int) =~= all);
        }
        let deleted = kept.len() < self.blocks.len();
        self.blocks = kept;
        deleted
    }
}

} // verus!
