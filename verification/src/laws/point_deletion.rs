//! Deleting a sample: the scan afterwards yields what it yielded before, less
//! the samples at the timestamp, where each store holds the timestamp at most
//! once and what is left of the block that holds it is stored without loss.

use crate::compression::History;
use crate::engine::{
    has_corrupt, nonempty_segments, segment_deleted, segments_deleted, segments_query, EngineView,
};
use crate::laws::window::lemma_block_scan;
use crate::memtable::{deleted, distinct_keys, has_series, index_of, points_of, BucketView};
use crate::merge_laws::{lemma_merge_selected, selected};
use crate::round_trip::{lemma_round_trip, lossless};
use crate::seq_lemmas::{lemma_filter_all, lemma_filter_removes_one};
use crate::series::{tagged, DataPointView, SeriesDataView};
use crate::sstable::{
    blocks_query, blocks_without_sample, first_holder, first_sample_at, has_holder, has_sample_at,
    holds, one_less, SSTableView,
};
use vstd::prelude::*;

verus! {

/// Whether the blocks of a segment can lose the sample of `key` at
/// `timestamp` without losing another: no other sample of the series has the
/// timestamp, and what is left of the block that holds it is stored without
/// loss.
pub open spec fn cleanly_deletable(blocks: Seq<SeriesDataView>, key: Seq<char>, timestamp: u64) -> bool {
    has_holder(blocks, key, timestamp) ==> {
        let i = first_holder(blocks, key, timestamp);
        let samples = blocks[i].samples();
        let j = first_sample_at(samples, timestamp);
        &&& forall|k: int|
            0 <= k < blocks.len() && k != i ==> !holds(#[trigger] blocks[k], key, timestamp)
        &&& forall|k: int| 0 <= k < samples.len() && k != j ==> (#[trigger] samples[k]).0 != timestamp
        &&& lossless(History::start(), samples.remove(j))
    }
}

/// The predicate of the timestamps other than `timestamp`.
pub open spec fn other_than(timestamp: u64) -> spec_fn(u64) -> bool {
    |t: u64| t != timestamp
}

/// A scan of blocks in a row collects from the first, then from the second.
pub proof fn lemma_blocks_query_add(
    a: Seq<SeriesDataView>,
    b: Seq<SeriesDataView>,
    key: Seq<char>,
    start: Option<u64>,
    end: Option<u64>,
)
    ensures
        blocks_query(a + b, key, start, end) == blocks_query(a, key, start, end) + blocks_query(
            b,
            key,
            start,
            end,
        ),
    decreases b.len(),
{
    if b.len() == 0 {
        assert(a + b =~= a);
        assert(blocks_query(a, key, start, end) + blocks_query(b, key, start, end)
            =~= blocks_query(a, key, start, end));
    } else {
        lemma_blocks_query_add(a, b.drop_last(), key, start, end);
        assert((a + b).drop_last() =~= a + b.drop_last());
        assert((a + b).last() == b.last());
        assert(blocks_query(a + b, key, start, end) =~= blocks_query(a, key, start, end)
            + blocks_query(b, key, start, end));
    }
}

/// A scan of blocks that do not hold the timestamp collects no sample at it.
proof fn lemma_blocks_without_timestamp(blocks: Seq<SeriesDataView>, key: Seq<char>, timestamp: u64)
    requires
        forall|i: int| 0 <= i < blocks.len() ==> !holds(#[trigger] blocks[i], key, timestamp),
    ensures
        selected(blocks_query(blocks, key, None, None), other_than(timestamp)) == blocks_query(
            blocks,
            key,
            None,
            None,
        ),
    decreases blocks.len(),
{
    let keep = other_than(timestamp);
    let pass = |p: DataPointView| keep(p.timestamp);
    if blocks.len() == 0 {
        lemma_filter_all(blocks_query(blocks, key, None, None), pass);
    } else {
        let front = blocks.drop_last();
        let last = blocks.last();
        assert forall|i: int| 0 <= i < front.len() implies !holds(
            #[trigger] front[i],
            key,
            timestamp,
        ) by {
            assert(front[i] == blocks[i]);
        }
        lemma_blocks_without_timestamp(front, key, timestamp);
        let found = if last.series_key == key {
            last.query(None, None)
        } else {
            Seq::empty()
        };
        assert(selected(found, keep) == found) by {
            if last.series_key == key {
                lemma_block_scan(last);
                assert(!holds(blocks[blocks.len() - 1], key, timestamp));
                let points = last.points();
                assert forall|i: int| 0 <= i < points.len() implies pass(#[trigger] points[i]) by {
                    assert(points[i].timestamp == last.samples()[i].0);
                    assert(last.samples()[i].0 != timestamp);
                }
            }
            lemma_filter_all(found, pass);
        }
        Seq::filter_distributes_over_add(blocks_query(front, key, None, None), found, pass);
    }
}

/// The block that lost its only sample at the timestamp holds what it held,
/// less that sample.
proof fn lemma_block_without_sample(block: SeriesDataView, timestamp: u64)
    requires
        has_sample_at(block.samples(), timestamp),
        forall|k: int|
            0 <= k < block.samples().len() && k != first_sample_at(block.samples(), timestamp) ==> (
            #[trigger] block.samples()[k]).0 != timestamp,
        lossless(
            History::start(),
            block.samples().remove(first_sample_at(block.samples(), timestamp)),
        ),
    ensures
        ({
            let samples = block.samples();
            let kept = samples.remove(first_sample_at(samples, timestamp));
            &&& block.with_samples(kept, one_less(block.count)).points() == selected(
                block.points(),
                other_than(timestamp),
            )
            &&& kept.len() == 0 ==> selected(block.points(), other_than(timestamp)).len() == 0
        }),
{
    let keep = other_than(timestamp);
    let pass = |p: DataPointView| keep(p.timestamp);
    let samples = block.samples();
    let j = first_sample_at(samples, timestamp);
    let kept = samples.remove(j);
    let points = block.points();
    assert(0 <= j < samples.len() && samples[j].0 == timestamp);
    lemma_round_trip(kept);
    assert(points[j].timestamp == timestamp);
    assert forall|i: int| 0 <= i < points.len() && i != j implies pass(#[trigger] points[i]) by {
        assert(points[i].timestamp == samples[i].0);
    }
    lemma_filter_removes_one(points, pass, j);
    assert(points.remove(j) =~= tagged(kept, block.tags));
}

/// What a scan collects from the blocks of a segment after a clean point
/// deletion is what it collected before, less the samples at the timestamp.
#[verifier::rlimit(50)]
proof fn lemma_blocks_after_point_delete(blocks: Seq<SeriesDataView>, key: Seq<char>, timestamp: u64)
    requires
        cleanly_deletable(blocks, key, timestamp),
    ensures
        blocks_query(blocks_without_sample(blocks, key, timestamp), key, None, None) == selected(
            blocks_query(blocks, key, None, None),
            other_than(timestamp),
        ),
{
    let keep = other_than(timestamp);
    let pass = |p: DataPointView| keep(p.timestamp);
    let after = blocks_without_sample(blocks, key, timestamp);
    if !has_holder(blocks, key, timestamp) {
        lemma_blocks_without_timestamp(blocks, key, timestamp);
    } else {
        let i = first_holder(blocks, key, timestamp);
        assert(0 <= i < blocks.len() && holds(blocks[i], key, timestamp));
        let block = blocks[i];
        let samples = block.samples();
        let kept = samples.remove(first_sample_at(samples, timestamp));
        let changed = block.with_samples(kept, one_less(block.count));
        let left = blocks.take(i);
        let right = blocks.skip(i + 1);
        let middle = seq![block];
        assert(blocks =~= left + middle + right);
        assert forall|k: int| 0 <= k < left.len() implies !holds(
            #[trigger] left[k],
            key,
            timestamp,
        ) by {
            assert(left[k] == blocks[k]);
        }
        assert forall|k: int| 0 <= k < right.len() implies !holds(
            #[trigger] right[k],
            key,
            timestamp,
        ) by {
            assert(right[k] == blocks[i + 1 + k]);
        }
        lemma_blocks_without_timestamp(left, key, timestamp);
        lemma_blocks_without_timestamp(right, key, timestamp);
        lemma_block_without_sample(block, timestamp);
        lemma_block_scan(block);
        lemma_block_scan(changed);
        let before_left = blocks_query(left, key, None, None);
        let before_right = blocks_query(right, key, None, None);
        let before_middle = blocks_query(middle, key, None, None);
        assert(before_middle =~= block.points()) by {
            assert(middle.drop_last() =~= Seq::<SeriesDataView>::empty());
            assert(blocks_query(middle.drop_last(), key, None, None) =~= Seq::<
                DataPointView,
            >::empty());
        }
        lemma_blocks_query_add(left, middle, key, None, None);
        lemma_blocks_query_add(left + middle, right, key, None, None);
        Seq::filter_distributes_over_add(before_left, before_middle, pass);
        Seq::filter_distributes_over_add(before_left + before_middle, before_right, pass);
        if kept.len() == 0 {
            assert(after =~= left + right);
            lemma_blocks_query_add(left, right, key, None, None);
            assert(selected(before_middle, keep) =~= Seq::<DataPointView>::empty());
            assert(before_left + Seq::<DataPointView>::empty() + before_right =~= before_left
                + before_right);
        } else {
            let replaced = seq![changed];
            assert(after =~= left + replaced + right);
            assert(blocks_query(replaced, key, None, None) =~= changed.points()) by {
                assert(replaced.drop_last() =~= Seq::<SeriesDataView>::empty());
                assert(blocks_query(replaced.drop_last(), key, None, None) =~= Seq::<
                    DataPointView,
                >::empty());
            }
            lemma_blocks_query_add(left, replaced, key, None, None);
            lemma_blocks_query_add(left + replaced, right, key, None, None);
        }
    }
}

/// What a scan collects from the segments after a clean point deletion in
/// each is what it collected before, less the samples at the timestamp.
pub proof fn lemma_segments_after_point_delete(
    segments: Seq<SSTableView>,
    key: Seq<char>,
    timestamp: u64,
)
    requires
        forall|s: int|
            0 <= s < segments.len() ==> cleanly_deletable(
                (#[trigger] segments[s]).state.readable(),
                key,
                timestamp,
            ),
    ensures
        segments_query(segments_deleted(segments, key, Some(timestamp)), key, None, None)
            == selected(segments_query(segments, key, None, None), other_than(timestamp)),
    decreases segments.len(),
{
    let keep = other_than(timestamp);
    let pass = |p: DataPointView| keep(p.timestamp);
    let after = segments_deleted(segments, key, Some(timestamp));
    if segments.len() == 0 {
        lemma_filter_all(Seq::<DataPointView>::empty(), pass);
    } else {
        let front = segments.drop_last();
        let last = segments.last();
        assert forall|s: int| 0 <= s < front.len() implies cleanly_deletable(
            (#[trigger] front[s]).state.readable(),
            key,
            timestamp,
        ) by {
            assert(front[s] == segments[s]);
        }
        lemma_segments_after_point_delete(front, key, timestamp);
        assert(after.drop_last() =~= segments_deleted(front, key, Some(timestamp)));
        assert(after.last() == segment_deleted(last, key, Some(timestamp)));
        let blocks = last.state.readable();
        assert(cleanly_deletable(segments[segments.len() - 1].state.readable(), key, timestamp));
        lemma_blocks_after_point_delete(blocks, key, timestamp);
        assert(after.last().state.readable() =~= blocks_without_sample(blocks, key, timestamp));
        Seq::filter_distributes_over_add(
            segments_query(front, key, None, None),
            blocks_query(blocks, key, None, None),
            pass,
        );
    }
}

/// Segments without blocks add nothing to a scan.
pub proof fn lemma_empty_segments_add_nothing(
    segments: Seq<SSTableView>,
    key: Seq<char>,
    start: Option<u64>,
    end: Option<u64>,
)
    ensures
        segments_query(nonempty_segments(segments), key, start, end) == segments_query(
            segments,
            key,
            start,
            end,
        ),
    decreases segments.len(),
{
    let keeps = |s: SSTableView| s.state.readable().len() > 0;
    if segments.len() == 0 {
        lemma_filter_all(segments, keeps);
    } else {
        let front = segments.drop_last();
        let last = segments.last();
        lemma_empty_segments_add_nothing(front, key, start, end);
        assert(segments =~= front.push(last));
        front.lemma_filter_push(last, keeps);
        if keeps(last) {
            assert(front.filter(keeps).push(last).drop_last() =~= front.filter(keeps));
        } else {
            assert(last.state.readable() =~= Seq::<SeriesDataView>::empty());
            assert(segments_query(segments, key, start, end) =~= segments_query(
                front,
                key,
                start,
                end,
            ));
        }
    }
}

/// The memtable after a point deletion holds of the series what it held,
/// less the samples at the timestamp.
pub proof fn lemma_memtable_after_point_delete(buckets: Seq<BucketView>, key: Seq<char>, timestamp: u64)
    requires
        distinct_keys(buckets),
    ensures
        points_of(deleted(buckets, key, Some(timestamp)), key) == selected(
            points_of(buckets, key),
            other_than(timestamp),
        ),
{
    let keep = other_than(timestamp);
    let pass = |p: DataPointView| keep(p.timestamp);
    let differs = |p: DataPointView| p.timestamp != timestamp;
    assert(pass =~= differs);
    let after = deleted(buckets, key, Some(timestamp));
    if has_series(buckets, key) {
        let i = index_of(buckets, key);
        assert(0 <= i < buckets.len() && buckets[i].series_key == key);
        let kept = buckets[i].points.filter(differs);
        if kept.len() == 0 {
            if has_series(after, key) {
                let j = index_of(after, key);
                assert(0 <= j < after.len() && after[j].series_key == key);
                let j0 = if j < i {
                    j
                } else {
                    j + 1
                };
                assert(after[j] == buckets[j0]);
                if j0 < i {
                    assert(buckets[j0].series_key != buckets[i].series_key);
                } else {
                    assert(buckets[i].series_key != buckets[j0].series_key);
                }
            }
            assert(points_of(after, key) =~= kept);
        } else {
            assert(after[i].series_key == key);
            let j = index_of(after, key);
            assert(0 <= j < after.len() && after[j].series_key == key);
            if j != i {
                assert(after[j] == buckets[j]);
                if j < i {
                    assert(buckets[j].series_key != buckets[i].series_key);
                } else {
                    assert(buckets[i].series_key != buckets[j].series_key);
                }
            }
        }
    } else {
        lemma_filter_all(Seq::<DataPointView>::empty(), pass);
        assert(points_of(buckets, key) =~= Seq::<DataPointView>::empty());
    }
}

/// A point deletion removes exactly the samples at the timestamp from what
/// an unbounded scan of the series yields, where every segment can lose its
/// sample at the timestamp cleanly.
pub proof fn lemma_delete_removes_the_timestamp(view: EngineView, key: Seq<char>, timestamp: u64)
    requires
        view.memtable.wf(),
        !has_corrupt(view.segments),
        forall|s: int|
            0 <= s < view.segments.len() ==> cleanly_deletable(
                (#[trigger] view.segments[s]).state.readable(),
                key,
                timestamp,
            ),
    ensures
        view.delete(key, Some(timestamp)).1 is Ok,
        view.delete(key, Some(timestamp)).0.query(key, None, None) == selected(
            view.query(key, None, None),
            other_than(timestamp),
        ),
{
    let keep = other_than(timestamp);
    let pass = |p: DataPointView| keep(p.timestamp);
    let every = |p: DataPointView| crate::series::in_window(p.timestamp, None, None);
    let after = view.delete(key, Some(timestamp)).0;
    let stored = points_of(view.memtable.buckets, key);
    let left = points_of(after.memtable.buckets, key);
    lemma_memtable_after_point_delete(view.memtable.buckets, key, timestamp);
    lemma_filter_all(stored, every);
    lemma_filter_all(left, every);
    lemma_segments_after_point_delete(view.segments, key, timestamp);
    lemma_empty_segments_add_nothing(
        segments_deleted(view.segments, key, Some(timestamp)),
        key,
        None,
        None,
    );
    Seq::filter_distributes_over_add(segments_query(view.segments, key, None, None), stored, pass);
    assert(after.collected(key, None, None) == selected(view.collected(key, None, None), keep));
    lemma_merge_selected(view.collected(key, None, None), keep);
}

} // verus!
