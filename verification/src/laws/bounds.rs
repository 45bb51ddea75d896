//! The summaries of the blocks keep bounding the timestamps of their
//! payloads: through updates, deletions and compactions, where what is
//! encoded again is stored without loss.

use crate::compression::History;
use crate::engine::{
    compacted_blocks, distinct, first_corrupt, has_corrupt, lemma_first_corrupt_exists,
    lemma_update_stop_exists, segment_deleted, segment_keys, segments_deleted, segments_query,
    EngineView,
};
use crate::laws::window::{lemma_block_of_points_bounded, segments_well_bounded, well_bounded};
use crate::merge::merged;
use crate::round_trip::{lemma_round_trip, lossless};
use crate::seq_lemmas::lemma_filter_element;
use crate::series::{has_timestamp, samples_of, SeriesDataView};
use crate::sstable::{
    blocks_updated, blocks_without_sample, blocks_without_series, first_holder, first_sample_at,
    has_holder, lemma_first_holder_exists, lemma_first_sample_exists, SSTableView,
};
use vstd::prelude::*;

verus! {

/// Every block of a list is well bounded.
pub open spec fn blocks_well_bounded(blocks: Seq<SeriesDataView>) -> bool {
    forall|i: int| 0 <= i < blocks.len() ==> well_bounded(#[trigger] blocks[i])
}

/// Whether the block that an update of `key` at `timestamp` encodes again is
/// stored without loss.
pub open spec fn update_stays_lossless(
    blocks: Seq<SeriesDataView>,
    key: Seq<char>,
    timestamp: u64,
    value_bits: u64,
) -> bool {
    has_holder(blocks, key, timestamp) ==> {
        let samples = blocks[first_holder(blocks, key, timestamp)].samples();
        lossless(
            History::start(),
            samples.update(first_sample_at(samples, timestamp), (timestamp, value_bits)),
        )
    }
}

/// Whether the block that a deletion of `key` at `timestamp` encodes again is
/// stored without loss.
pub open spec fn delete_stays_lossless(blocks: Seq<SeriesDataView>, key: Seq<char>, timestamp: u64) -> bool {
    has_holder(blocks, key, timestamp) ==> {
        let samples = blocks[first_holder(blocks, key, timestamp)].samples();
        lossless(History::start(), samples.remove(first_sample_at(samples, timestamp)))
    }
}

/// A well bounded block with another payload, stored without loss, whose
/// timestamps are among those of the old one, is well bounded.
pub proof fn lemma_rewritten_block_bounded(
    block: SeriesDataView,
    samples: Seq<(u64, u64)>,
    count: usize,
)
    requires
        well_bounded(block),
        lossless(History::start(), samples),
        forall|i: int|
            0 <= i < samples.len() ==> exists|j: int|
                0 <= j < block.samples().len() && (#[trigger] block.samples()[j]).0 == (
                #[trigger] samples[i]).0,
    ensures
        well_bounded(block.with_samples(samples, count)),
        block.with_samples(samples, count).samples() == samples,
{
    let after = block.with_samples(samples, count);
    lemma_round_trip(samples);
    assert forall|i: int| 0 <= i < after.samples().len() implies after.min_timestamp <= (
    #[trigger] after.samples()[i]).0 <= after.max_timestamp by {
        let j = choose|j: int|
            0 <= j < block.samples().len() && (#[trigger] block.samples()[j]).0 == samples[i].0;
        assert(block.min_timestamp <= block.samples()[j].0 <= block.max_timestamp);
    }
}

/// An update leaves the blocks of a segment well bounded.
pub proof fn lemma_update_keeps_blocks_bounded(
    blocks: Seq<SeriesDataView>,
    key: Seq<char>,
    timestamp: u64,
    value_bits: u64,
)
    requires
        blocks_well_bounded(blocks),
        update_stays_lossless(blocks, key, timestamp, value_bits),
    ensures
        blocks_well_bounded(blocks_updated(blocks, key, timestamp, value_bits)),
{
    let after = blocks_updated(blocks, key, timestamp, value_bits);
    if has_holder(blocks, key, timestamp) {
        lemma_first_holder_exists(blocks, key, timestamp);
        let i = first_holder(blocks, key, timestamp);
        let samples = blocks[i].samples();
        lemma_first_sample_exists(samples, timestamp);
        let j = first_sample_at(samples, timestamp);
        let changed = samples.update(j, (timestamp, value_bits));
        assert forall|k: int| 0 <= k < changed.len() implies exists|m: int|
            0 <= m < samples.len() && (#[trigger] samples[m]).0 == (#[trigger] changed[k]).0 by {
            assert(samples[k].0 == changed[k].0);
        }
        lemma_rewritten_block_bounded(blocks[i], changed, blocks[i].count);
        assert forall|k: int| 0 <= k < after.len() implies well_bounded(#[trigger] after[k]) by {
            if k != i {
                assert(after[k] == blocks[k]);
            }
        }
    }
}

/// A deletion leaves the blocks of a segment well bounded.
pub proof fn lemma_delete_keeps_blocks_bounded(
    blocks: Seq<SeriesDataView>,
    key: Seq<char>,
    timestamp: Option<u64>,
)
    requires
        blocks_well_bounded(blocks),
        timestamp matches Some(t) ==> delete_stays_lossless(blocks, key, t),
    ensures
        timestamp matches Some(t) ==> blocks_well_bounded(blocks_without_sample(blocks, key, t)),
        timestamp is None ==> blocks_well_bounded(blocks_without_series(blocks, key)),
{
    match timestamp {
        None => {
            let other = |b: SeriesDataView| b.series_key != key;
            let after = blocks_without_series(blocks, key);
            assert forall|k: int| 0 <= k < after.len() implies well_bounded(#[trigger] after[k]) by {
                lemma_filter_element(blocks, other, k);
                let j = choose|j: int| 0 <= j < blocks.len() && #[trigger] blocks[j] == after[k];
                assert(well_bounded(blocks[j]));
            }
        },
        Some(t) => {
            let after = blocks_without_sample(blocks, key, t);
            if has_holder(blocks, key, t) {
                lemma_first_holder_exists(blocks, key, t);
                let i = first_holder(blocks, key, t);
                let samples = blocks[i].samples();
                lemma_first_sample_exists(samples, t);
                let j = first_sample_at(samples, t);
                let kept = samples.remove(j);
                assert forall|k: int| 0 <= k < kept.len() implies exists|m: int|
                    0 <= m < samples.len() && (#[trigger] samples[m]).0 == (#[trigger] kept[k]).0 by {
                    let m = if k < j {
                        k
                    } else {
                        k + 1
                    };
                    assert(samples[m].0 == kept[k].0);
                }
                lemma_rewritten_block_bounded(
                    blocks[i],
                    kept,
                    crate::sstable::one_less(blocks[i].count),
                );
                assert forall|k: int| 0 <= k < after.len() implies well_bounded(
                    #[trigger] after[k],
                ) by {
                    if kept.len() == 0 {
                        let k0 = if k < i {
                            k
                        } else {
                            k + 1
                        };
                        assert(after[k] == blocks[k0]);
                    } else if k != i {
                        assert(after[k] == blocks[k]);
                    }
                }
            }
        },
    }
}

/// An update leaves every block well bounded, where the block that it
/// encodes again is stored without loss.
pub proof fn lemma_update_keeps_bounds(view: EngineView, key: Seq<char>, timestamp: u64, value_bits: u64)
    requires
        segments_well_bounded(view.segments),
        forall|s: int|
            0 <= s < view.segments.len() ==> update_stays_lossless(
                (#[trigger] view.segments[s]).state.readable(),
                key,
                timestamp,
                value_bits,
            ),
    ensures
        segments_well_bounded(view.update(key, timestamp, value_bits).0.segments),
{
    let after = view.update(key, timestamp, value_bits).0.segments;
    if !has_timestamp(crate::memtable::points_of(view.memtable.buckets, key), timestamp)
        && view.update_stops(key, timestamp) {
        lemma_update_stop_exists(view, key, timestamp);
        let i = view.update_stop(key, timestamp);
        let blocks = view.segments[i].state.readable();
        assert(blocks_well_bounded(blocks)) by {
            assert forall|k: int| 0 <= k < blocks.len() implies well_bounded(#[trigger] blocks[k]) by {
                assert(well_bounded(view.segments[i].state.readable()[k]));
            }
        }
        lemma_update_keeps_blocks_bounded(blocks, key, timestamp, value_bits);
        assert forall|s: int, k: int|
            0 <= s < after.len() && 0 <= k < after[s].state.readable().len() implies well_bounded(
            #[trigger] after[s].state.readable()[k],
        ) by {
            if s != i {
                assert(after[s] == view.segments[s]);
                assert(well_bounded(view.segments[s].state.readable()[k]));
            } else if view.segments[i].state is Blocks {
                assert(well_bounded(blocks_updated(blocks, key, timestamp, value_bits)[k]));
            } else {
                assert(after[s] == view.segments[s]);
            }
        }
    }
}

/// A deletion leaves the blocks of a segment that it tried well bounded.
proof fn lemma_segment_deleted_bounded(segment: SSTableView, key: Seq<char>, timestamp: Option<u64>)
    requires
        blocks_well_bounded(segment.state.readable()),
        timestamp matches Some(t) ==> delete_stays_lossless(segment.state.readable(), key, t),
    ensures
        blocks_well_bounded(segment_deleted(segment, key, timestamp).state.readable()),
{
    lemma_delete_keeps_blocks_bounded(segment.state.readable(), key, timestamp);
}

/// A deletion leaves every block well bounded, where the blocks that it
/// encodes again are stored without loss.
pub proof fn lemma_delete_keeps_bounds(view: EngineView, key: Seq<char>, timestamp: Option<u64>)
    requires
        segments_well_bounded(view.segments),
        timestamp matches Some(t) ==> forall|s: int|
            0 <= s < view.segments.len() ==> delete_stays_lossless(
                (#[trigger] view.segments[s]).state.readable(),
                key,
                t,
            ),
    ensures
        segments_well_bounded(view.delete(key, timestamp).0.segments),
{
    let after = view.delete(key, timestamp).0.segments;
    let tried = segments_deleted(view.segments, key, timestamp);
    assert forall|s: int| 0 <= s < tried.len() implies blocks_well_bounded(
        (#[trigger] tried[s]).state.readable(),
    ) by {
        let blocks = view.segments[s].state.readable();
        assert forall|k: int| 0 <= k < blocks.len() implies well_bounded(#[trigger] blocks[k]) by {
            assert(well_bounded(view.segments[s].state.readable()[k]));
        }
        if timestamp is Some {
            assert(delete_stays_lossless(
                view.segments[s].state.readable(),
                key,
                timestamp.unwrap(),
            ));
        }
        lemma_segment_deleted_bounded(view.segments[s], key, timestamp);
    }
    assert forall|s: int, k: int|
        0 <= s < after.len() && 0 <= k < after[s].state.readable().len() implies well_bounded(
        #[trigger] after[s].state.readable()[k],
    ) by {
        if has_corrupt(view.segments) {
            lemma_first_corrupt_exists(view.segments);
            let stop = first_corrupt(view.segments);
            if s < stop {
                assert(after[s] == tried[s]);
                assert(blocks_well_bounded(tried[s].state.readable()));
            } else {
                assert(after[s] == view.segments[s]);
                assert(well_bounded(view.segments[s].state.readable()[k]));
            }
        } else {
            let keeps = |t: SSTableView| t.state.readable().len() > 0;
            lemma_filter_element(tried, keeps, s);
            let j = choose|j: int| 0 <= j < tried.len() && #[trigger] tried[j] == after[s];
            assert(blocks_well_bounded(tried[j].state.readable()));
        }
    }
}

/// The blocks of a compaction are well bounded, where what they hold is
/// stored without loss.
proof fn lemma_compacted_blocks_bounded(segments: Seq<SSTableView>, keys: Seq<Seq<char>>)
    requires
        forall|key: Seq<char>|
            lossless(
                History::start(),
                samples_of(#[trigger] merged(segments_query(segments, key, None, None))),
            ),
    ensures
        blocks_well_bounded(compacted_blocks(segments, keys)),
    decreases keys.len(),
{
    if keys.len() > 0 {
        let before = compacted_blocks(segments, keys.drop_last());
        let points = merged(segments_query(segments, keys.last(), None, None));
        lemma_compacted_blocks_bounded(segments, keys.drop_last());
        let after = compacted_blocks(segments, keys);
        assert(lossless(History::start(), samples_of(points)));
        lemma_block_of_points_bounded(keys.last(), points);
        assert forall|k: int| 0 <= k < after.len() implies well_bounded(#[trigger] after[k]) by {
            if k < before.len() {
                assert(after[k] == before[k]);
            }
        }
    }
}

/// A compaction leaves every block well bounded, where what it encodes of
/// each series is stored without loss; so does a compaction that ends with
/// the outcome of its write.
pub proof fn lemma_compaction_keeps_bounds(view: EngineView, now: u64)
    requires
        segments_well_bounded(view.segments),
        forall|key: Seq<char>|
            lossless(
                History::start(),
                samples_of(#[trigger] merged(segments_query(view.segments, key, None, None))),
            ),
    ensures
        segments_well_bounded(view.compact(now).segments),
        forall|written: bool|
            view.compaction_plan(now).is_some() ==> segments_well_bounded(
                (#[trigger] view.finish_compaction(
                    view.compaction_plan(now).unwrap().0,
                    view.compaction_plan(now).unwrap().1,
                    written,
                )).segments,
            ),
{
    let keys = distinct(segment_keys(view.segments));
    lemma_compacted_blocks_bounded(view.segments, keys);
    let blocks = compacted_blocks(view.segments, keys);
    let after = view.compact(now).segments;
    assert forall|s: int, k: int|
        0 <= s < after.len() && 0 <= k < after[s].state.readable().len() implies well_bounded(
        #[trigger] after[s].state.readable()[k],
    ) by {
        if view.segments.len() < 2 {
            assert(well_bounded(view.segments[s].state.readable()[k]));
        } else {
            assert(after[s].state.readable() == blocks);
            assert(well_bounded(blocks[k]));
        }
    }
    if view.compaction_plan(now).is_some() {
        let path = view.compaction_plan(now).unwrap().0;
        let planned = view.compaction_plan(now).unwrap().1;
        assert forall|written: bool|
            segments_well_bounded(
                (#[trigger] view.finish_compaction(path, planned, written)).segments,
            ) by {
            let ended = view.finish_compaction(path, planned, written).segments;
            assert forall|s: int, k: int|
                0 <= s < ended.len() && 0 <= k < ended[s].state.readable().len() implies well_bounded(
                #[trigger] ended[s].state.readable()[k],
            ) by {
                if written {
                    assert(ended[s].state.readable() == blocks);
                    assert(well_bounded(blocks[k]));
                } else {
                    assert(well_bounded(view.segments[s].state.readable()[k]));
                }
            }
        }
    }
}

} // verus!
