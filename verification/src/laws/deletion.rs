//! Deleting a series: it is gone afterwards, and deleting it again changes
//! nothing.

use crate::engine::{
    any_delete_hit, delete_actions, delete_hits, has_corrupt, nonempty_segments, segment_deleted,
    segment_keys, segments_deleted, EngineView, FileActionView,
};
use crate::laws::compaction::{lemma_distinct, lemma_segments_without_key};
use crate::memtable::{bucket_keys, deleted, distinct_keys, has_series, index_of, BucketView};
use crate::merge_laws::lemma_merge_of_none;
use crate::seq_lemmas::{lemma_filter_all, lemma_filter_element};
use crate::series::{in_window, DataPointView, SeriesDataView};
use crate::sstable::{block_keys, has_block, SSTableView, SegmentError, SegmentState};
use vstd::prelude::*;

verus! {

/// After a deletion no segment holds a block of the series, none is corrupt,
/// and each holds a block.
pub proof fn lemma_segments_after_delete(segments: Seq<SSTableView>, key: Seq<char>, i: int)
    requires
        !has_corrupt(segments),
        0 <= i < nonempty_segments(segments_deleted(segments, key, None)).len(),
    ensures
        ({
            let e = nonempty_segments(segments_deleted(segments, key, None))[i];
            !delete_hits(e, key, None) && e.state is Blocks && e.state.readable().len() > 0
        }),
{
    let all = segments_deleted(segments, key, None);
    let keeps = |s: SSTableView| s.state.readable().len() > 0;
    lemma_filter_element(all, keeps, i);
    let e = all.filter(keeps)[i];
    let j = choose|j: int| 0 <= j < all.len() && #[trigger] all[j] == e;
    let source = segments[j];
    assert(e == segment_deleted(source, key, None));
    assert(!(source.state is Corrupt));
    if delete_hits(source, key, None) {
        let blocks = source.state.readable();
        let other = |b: SeriesDataView| b.series_key != key;
        let kept = blocks.filter(other);
        assert(e.state == SegmentState::Blocks(kept));
        if has_block(kept, key) {
            let k = choose|k: int| 0 <= k < kept.len() && (#[trigger] kept[k]).series_key == key;
            lemma_filter_element(blocks, other, k);
        }
    }
}

/// Where no segment is hit, a deletion records no action.
proof fn lemma_no_delete_actions(segments: Seq<SSTableView>, key: Seq<char>, timestamp: Option<u64>)
    requires
        forall|i: int| 0 <= i < segments.len() ==> !delete_hits(#[trigger] segments[i], key, timestamp),
    ensures
        delete_actions(segments, key, timestamp) == Seq::<FileActionView>::empty(),
        segments_deleted(segments, key, timestamp) == segments,
        !any_delete_hit(segments, key, timestamp),
    decreases segments.len(),
{
    if segments.len() > 0 {
        let front = segments.drop_last();
        assert forall|i: int| 0 <= i < front.len() implies !delete_hits(
            #[trigger] front[i],
            key,
            timestamp,
        ) by {
            assert(front[i] == segments[i]);
        }
        lemma_no_delete_actions(front, key, timestamp);
        assert(!delete_hits(segments.last(), key, timestamp));
    }
    assert forall|i: int| 0 <= i < segments.len() implies segments_deleted(
        segments,
        key,
        timestamp,
    )[i] == segments[i] by {
        assert(!delete_hits(segments[i], key, timestamp));
    }
    assert(segments_deleted(segments, key, timestamp) =~= segments);
}

/// The buckets without a series do not hold it.
pub proof fn lemma_deleted_series_is_gone(buckets: Seq<BucketView>, key: Seq<char>)
    requires
        distinct_keys(buckets),
    ensures
        !has_series(deleted(buckets, key, None), key),
{
    let after = deleted(buckets, key, None);
    if has_series(buckets, key) {
        let i = index_of(buckets, key);
        assert(0 <= i < buckets.len() && buckets[i].series_key == key);
        if has_series(after, key) {
            let j = choose|j: int| 0 <= j < after.len() && #[trigger] after[j].series_key == key;
            let j0 = if j < i {
                j
            } else {
                j + 1
            };
            assert(after[j] == buckets[j0]);
            assert(buckets[j0].series_key == key);
            if j0 < i {
                assert(buckets[j0].series_key != buckets[i].series_key);
            } else {
                assert(buckets[i].series_key != buckets[j0].series_key);
            }
        }
    }
}

/// Deleting a series a second time finds nothing and leaves the state as it
/// is, where the first deletion went through.
pub proof fn lemma_delete_series_twice(view: EngineView, key: Seq<char>)
    requires
        view.memtable.wf(),
        view.delete(key, None).1 is Ok,
    ensures
        view.delete(key, None).0.delete(key, None) == (
            view.delete(key, None).0,
            Ok::<bool, SegmentError>(false),
        ),
{
    let once = view.delete(key, None).0;
    let twice = once.delete(key, None).0;
    assert(!has_corrupt(view.segments));
    lemma_deleted_series_is_gone(view.memtable.buckets, key);
    assert(deleted(once.memtable.buckets, key, None) == once.memtable.buckets);
    assert forall|i: int| 0 <= i < once.segments.len() implies !delete_hits(
        #[trigger] once.segments[i],
        key,
        None,
    ) && once.segments[i].state is Blocks && once.segments[i].state.readable().len() > 0 by {
        lemma_segments_after_delete(view.segments, key, i);
    }
    if has_corrupt(once.segments) {
        let k = choose|k: int|
            0 <= k < once.segments.len() && (#[trigger] once.segments[k]).state is Corrupt;
        assert(once.segments[k].state is Blocks);
    }
    lemma_no_delete_actions(once.segments, key, None);
    lemma_filter_all(once.segments, |s: SSTableView| s.state.readable().len() > 0);
    assert(twice.journal =~= once.journal);
    assert(twice.memtable == once.memtable);
    assert(twice == once);
}

/// Where no segment holds a block of a series, the keys of the segments do
/// not list it.
pub proof fn lemma_unheld_key(segments: Seq<SSTableView>, key: Seq<char>)
    requires
        forall|i: int|
            0 <= i < segments.len() ==> !has_block((#[trigger] segments[i]).state.readable(), key),
    ensures
        !segment_keys(segments).contains(key),
    decreases segments.len(),
{
    if segments.len() > 0 {
        let front = segments.drop_last();
        let last = block_keys(segments.last().state.readable());
        let before = segment_keys(front);
        assert forall|i: int| 0 <= i < front.len() implies !has_block(
            (#[trigger] front[i]).state.readable(),
            key,
        ) by {
            assert(front[i] == segments[i]);
        }
        lemma_unheld_key(front, key);
        let all = segment_keys(segments);
        if all.contains(key) {
            let k = choose|k: int| 0 <= k < all.len() && all[k] == key;
            if k < before.len() {
                assert(before[k] == key);
            } else {
                let blocks = segments[segments.len() - 1].state.readable();
                assert(!has_block(blocks, key));
                assert(blocks[k - before.len()].series_key == key);
            }
        }
    }
}

/// A deleted series is gone: after a deletion of the whole series that went
/// through, the engine does not list it, and a scan of it yields nothing.
pub proof fn lemma_deleted_series_is_unlisted(
    view: EngineView,
    key: Seq<char>,
    start: Option<u64>,
    end: Option<u64>,
)
    requires
        view.memtable.wf(),
        view.delete(key, None).1 is Ok,
    ensures
        !view.delete(key, None).0.series().contains(key),
        view.delete(key, None).0.query(key, start, end) == Seq::<DataPointView>::empty(),
{
    let after = view.delete(key, None).0;
    let buckets = after.memtable.buckets;
    assert(!has_corrupt(view.segments));
    lemma_deleted_series_is_gone(view.memtable.buckets, key);
    assert forall|i: int| 0 <= i < after.segments.len() implies !has_block(
        (#[trigger] after.segments[i]).state.readable(),
        key,
    ) by {
        lemma_segments_after_delete(view.segments, key, i);
    }
    lemma_unheld_key(after.segments, key);
    let listed = bucket_keys(buckets) + segment_keys(after.segments);
    if listed.contains(key) {
        let k = choose|k: int| 0 <= k < listed.len() && listed[k] == key;
        if k < buckets.len() {
            assert(buckets[k].series_key == key);
        } else {
            assert(segment_keys(after.segments)[k - buckets.len()] == key);
        }
    }
    lemma_distinct(listed);
    lemma_segments_without_key(after.segments, key, start, end);
    lemma_filter_all(
        Seq::<DataPointView>::empty(),
        |p: DataPointView| in_window(p.timestamp, start, end),
    );
    assert(after.collected(key, start, end) =~= Seq::<DataPointView>::empty());
    lemma_merge_of_none();
}

} // verus!
