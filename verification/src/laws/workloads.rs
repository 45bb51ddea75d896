//! Coverage with deletions: after inserts, flushes and deletions in any
//! order, the stores hold of a series exactly the live samples, in insertion
//! order, where no flush meets a timestamp twice in what the memtable holds
//! of the series and every encoding made on the way is stored without loss.

use crate::compression::History;
use crate::engine::{
    delete_hits, has_corrupt, segment_deleted, segments_deleted, segments_query, EngineView,
};
use crate::laws::compaction::lemma_segments_without_key;
use crate::laws::coverage::{
    empty_engine, filled, holds_inserted, lemma_filled_holds, lemma_filled_wf,
    lemma_flush_holds_lossless, stored, with_inserted,
};
use crate::laws::deletion::{
    lemma_deleted_series_is_gone, lemma_segments_after_delete, lemma_unheld_key,
};
use crate::laws::point_deletion::{
    cleanly_deletable, lemma_blocks_query_add, lemma_empty_segments_add_nothing,
    lemma_memtable_after_point_delete, lemma_segments_after_point_delete, other_than,
};
use crate::memtable::{
    deleted, distinct_keys, has_series, index_of, points_of, total_points, BucketView,
};
use crate::merge::{is_first_of, is_kept_in};
use crate::merge_laws::{lemma_merge_exists, selected};
use crate::round_trip::lossless;
use crate::seq_lemmas::lemma_filter_all;
use crate::series::{
    distinct_timestamps, first_at, in_window, lemma_first_at_exists, samples_of, DataPointView,
    SeriesDataView,
};
use crate::sstable::{
    blocks_query, blocks_without_sample, blocks_without_series, first_holder, has_holder,
    lemma_first_holder_exists, SSTableView,
};
use vstd::prelude::*;

verus! {

/// One change of a workload.
pub enum Change {
    /// A sample of the series `key` is inserted at `now` seconds.
    Insert { key: Seq<char>, point: DataPointView, now: u64 },
    /// The memtable is flushed at `now` seconds.
    Flush { now: u64 },
    /// The samples of `key` at `timestamp` are deleted, or the whole series.
    Delete { key: Seq<char>, timestamp: Option<u64> },
}

/// The state after the changes `changes` in order.
pub open spec fn after_changes(view: EngineView, changes: Seq<Change>) -> EngineView
    decreases changes.len(),
{
    if changes.len() == 0 {
        view
    } else {
        let before = after_changes(view, changes.drop_last());
        match changes.last() {
            Change::Insert { key, point, now } => before.insert(key, point, now),
            Change::Flush { now } => before.flush(now),
            Change::Delete { key, timestamp } => before.delete(key, timestamp).0,
        }
    }
}

/// The samples of the series `key` that are live after the changes:
/// inserted and not deleted since, in insertion order.
pub open spec fn live_of(changes: Seq<Change>, key: Seq<char>) -> Seq<DataPointView>
    decreases changes.len(),
{
    if changes.len() == 0 {
        Seq::empty()
    } else {
        let before = live_of(changes.drop_last(), key);
        match changes.last() {
            Change::Insert { key: k, point, .. } => with_inserted(before, k, point, key),
            Change::Flush { .. } => before,
            Change::Delete { key: k, timestamp } => if k != key {
                before
            } else {
                match timestamp {
                    None => Seq::empty(),
                    Some(t) => selected(before, other_than(t)),
                }
            },
        }
    }
}

/// Whether a flush encodes the samples of a bucket as they are: none has the
/// timestamp of another, and they are stored without loss.
pub open spec fn flushed_whole(points: Seq<DataPointView>) -> bool {
    distinct_timestamps(points) && lossless(History::start(), samples_of(points))
}

/// Whether a change loses nothing of the series `key`: a flush encodes what
/// the memtable holds of it as it is, and a deletion meets no corrupt segment
/// and takes its sample out of each segment cleanly.
pub open spec fn change_is_clean(before: EngineView, change: Change, key: Seq<char>) -> bool {
    match change {
        Change::Insert { key: k, point, .. } => {
            let between = filled(before, k, point);
            between.memtable.size >= between.memtable.threshold ==> flushed_whole(
                points_of(between.memtable.buckets, key),
            )
        },
        Change::Flush { .. } => flushed_whole(points_of(before.memtable.buckets, key)),
        Change::Delete { key: k, timestamp } => {
            &&& !has_corrupt(before.segments)
            &&& k == key && timestamp.is_some() ==> forall|s: int|
                0 <= s < before.segments.len() ==> cleanly_deletable(
                    (#[trigger] before.segments[s]).state.readable(),
                    key,
                    timestamp.unwrap(),
                )
        },
    }
}

/// Whether every change of a workload loses nothing of the series `key`.
pub open spec fn clean(view: EngineView, changes: Seq<Change>, key: Seq<char>) -> bool
    decreases changes.len(),
{
    changes.len() == 0 || (clean(view, changes.drop_last(), key) && change_is_clean(
        after_changes(view, changes.drop_last()),
        changes.last(),
        key,
    ))
}

/// A deletion leaves the memtable well formed, and what it holds of another
/// series as it was.
pub proof fn lemma_deleted_buckets(
    buckets: Seq<BucketView>,
    deleted_key: Seq<char>,
    timestamp: Option<u64>,
    key: Seq<char>,
)
    requires
        distinct_keys(buckets),
        forall|i: int| 0 <= i < buckets.len() ==> (#[trigger] buckets[i]).points.len() > 0,
    ensures
        distinct_keys(deleted(buckets, deleted_key, timestamp)),
        forall|i: int|
            0 <= i < deleted(buckets, deleted_key, timestamp).len() ==> (#[trigger] deleted(
                buckets,
                deleted_key,
                timestamp,
            )[i]).points.len() > 0,
        deleted_key != key ==> points_of(deleted(buckets, deleted_key, timestamp), key)
            == points_of(buckets, key),
{
    let after = deleted(buckets, deleted_key, timestamp);
    if has_series(buckets, deleted_key) {
        let i = index_of(buckets, deleted_key);
        assert(0 <= i < buckets.len() && buckets[i].series_key == deleted_key);
        let removed = after.len() < buckets.len();
        // Each bucket after the deletion is one from before, with its key.
        assert forall|a: int| 0 <= a < after.len() implies (#[trigger] after[a]).series_key
            == buckets[if removed && a >= i {
            a + 1
        } else {
            a
        }].series_key && after[a].points.len() > 0 && (after[a].series_key != deleted_key
            ==> after[a] == buckets[if removed && a >= i {
            a + 1
        } else {
            a
        }]) by {
            let a0 = if removed && a >= i {
                a + 1
            } else {
                a
            };
            assert(buckets[a0].points.len() > 0);
            if a0 != i {
                assert(after[a] == buckets[a0]);
                if a0 < i {
                    assert(buckets[a0].series_key != buckets[i].series_key);
                } else {
                    assert(buckets[i].series_key != buckets[a0].series_key);
                }
            }
        }
        assert(distinct_keys(after)) by {
            assert forall|a: int, b: int| 0 <= a < b < after.len() implies (
            #[trigger] after[a]).series_key != (#[trigger] after[b]).series_key by {
                let a0 = if removed && a >= i {
                    a + 1
                } else {
                    a
                };
                let b0 = if removed && b >= i {
                    b + 1
                } else {
                    b
                };
                assert(buckets[a0].series_key != buckets[b0].series_key);
            }
        }
        if deleted_key != key {
            if has_series(buckets, key) {
                let j = index_of(buckets, key);
                assert(0 <= j < buckets.len() && buckets[j].series_key == key);
                let j1 = if removed && j > i {
                    j - 1
                } else {
                    j
                };
                assert(after[j1] == buckets[j]);
                assert(has_series(after, key));
                let a = index_of(after, key);
                assert(0 <= a < after.len() && after[a].series_key == key);
                if a < j1 {
                    assert(after[a].series_key != after[j1].series_key);
                }
                if j1 < a {
                    assert(after[j1].series_key != after[a].series_key);
                }
            } else if has_series(after, key) {
                let a = index_of(after, key);
                assert(0 <= a < after.len() && after[a].series_key == key);
                let a0 = if removed && a >= i {
                    a + 1
                } else {
                    a
                };
                assert(buckets[a0].series_key == key);
            }
        }
    }
}

/// The deletion of a sample of one series leaves what a scan collects of
/// another from the blocks of a segment as it was.
#[verifier::rlimit(50)]
proof fn lemma_blocks_of_other_key(
    blocks: Seq<SeriesDataView>,
    deleted_key: Seq<char>,
    timestamp: Option<u64>,
    key: Seq<char>,
)
    requires
        deleted_key != key,
    ensures
        timestamp.is_some() ==> blocks_query(
            blocks_without_sample(blocks, deleted_key, timestamp.unwrap()),
            key,
            None,
            None,
        ) == blocks_query(blocks, key, None, None),
        timestamp.is_none() ==> blocks_query(
            blocks_without_series(blocks, deleted_key),
            key,
            None,
            None,
        ) == blocks_query(blocks, key, None, None),
    decreases blocks.len(),
{
    let none = Seq::<DataPointView>::empty();
    match timestamp {
        None => {
            let other = |b: SeriesDataView| b.series_key != deleted_key;
            if blocks.len() == 0 {
                lemma_filter_all(blocks, other);
            } else {
                let front = blocks.drop_last();
                let last = blocks.last();
                lemma_blocks_of_other_key(front, deleted_key, timestamp, key);
                assert(blocks =~= front.push(last));
                front.lemma_filter_push(last, other);
                if other(last) {
                    assert(front.filter(other).push(last).drop_last() =~= front.filter(other));
                } else {
                    assert(blocks_query(blocks, key, None, None) =~= blocks_query(
                        front,
                        key,
                        None,
                        None,
                    ));
                }
            }
        },
        Some(t) => {
            if has_holder(blocks, deleted_key, t) {
                lemma_first_holder_exists(blocks, deleted_key, t);
                let i = first_holder(blocks, deleted_key, t);
                let after = blocks_without_sample(blocks, deleted_key, t);
                let left = blocks.take(i);
                let right = blocks.skip(i + 1);
                let middle = seq![blocks[i]];
                assert(blocks =~= left + middle + right);
                assert(blocks_query(middle, key, None, None) =~= none) by {
                    assert(middle.drop_last() =~= Seq::<SeriesDataView>::empty());
                    assert(blocks_query(middle.drop_last(), key, None, None) =~= none);
                }
                lemma_blocks_query_add(left, middle, key, None, None);
                lemma_blocks_query_add(left + middle, right, key, None, None);
                lemma_blocks_query_add(left, right, key, None, None);
                let whole = blocks_query(left, key, None, None) + blocks_query(
                    right,
                    key,
                    None,
                    None,
                );
                assert(blocks_query(blocks, key, None, None) =~= whole);
                if after.len() < blocks.len() {
                    assert(after =~= left + right);
                } else {
                    let replaced = seq![after[i]];
                    assert(after =~= left + replaced + right);
                    assert(blocks_query(replaced, key, None, None) =~= none) by {
                        assert(replaced.drop_last() =~= Seq::<SeriesDataView>::empty());
                        assert(blocks_query(replaced.drop_last(), key, None, None) =~= none);
                    }
                    lemma_blocks_query_add(left, replaced, key, None, None);
                    lemma_blocks_query_add(left + replaced, right, key, None, None);
                    assert(blocks_query(after, key, None, None) =~= whole);
                }
            }
        },
    }
}

/// The deletion of a sample of one series leaves what a scan collects of
/// another from the segments as it was.
proof fn lemma_segments_of_other_key(
    segments: Seq<SSTableView>,
    deleted_key: Seq<char>,
    timestamp: Option<u64>,
    key: Seq<char>,
)
    requires
        deleted_key != key,
    ensures
        segments_query(segments_deleted(segments, deleted_key, timestamp), key, None, None)
            == segments_query(segments, key, None, None),
    decreases segments.len(),
{
    let after = segments_deleted(segments, deleted_key, timestamp);
    if segments.len() > 0 {
        let front = segments.drop_last();
        let last = segments.last();
        lemma_segments_of_other_key(front, deleted_key, timestamp, key);
        assert(after.drop_last() =~= segments_deleted(front, deleted_key, timestamp));
        assert(after.last() == segment_deleted(last, deleted_key, timestamp));
        let blocks = last.state.readable();
        lemma_blocks_of_other_key(blocks, deleted_key, timestamp, key);
        if delete_hits(last, deleted_key, timestamp) {
            let left = match timestamp {
                Some(t) => blocks_without_sample(blocks, deleted_key, t),
                None => blocks_without_series(blocks, deleted_key),
            };
            assert(after.last().state.readable() =~= left);
        }
    }
}

/// A deletion in another series leaves an engine holding what it held of
/// the series.
proof fn lemma_other_delete_holds(
    view: EngineView,
    deleted_key: Seq<char>,
    timestamp: Option<u64>,
    key: Seq<char>,
    live: Seq<DataPointView>,
)
    requires
        view.memtable.wf(),
        !has_corrupt(view.segments),
        deleted_key != key,
        holds_inserted(view, key, live),
    ensures
        holds_inserted(view.delete(deleted_key, timestamp).0, key, live),
{
    let after = view.delete(deleted_key, timestamp).0;
    let n = choose|n: int|
        0 <= n <= live.len() && points_of(view.memtable.buckets, key) == #[trigger] live.skip(n)
            && samples_of(segments_query(view.segments, key, None, None)) == samples_of(
            live.take(n),
        );
    lemma_deleted_buckets(view.memtable.buckets, deleted_key, timestamp, key);
    lemma_segments_of_other_key(view.segments, deleted_key, timestamp, key);
    lemma_empty_segments_add_nothing(
        segments_deleted(view.segments, deleted_key, timestamp),
        key,
        None,
        None,
    );
    assert(points_of(after.memtable.buckets, key) == live.skip(n));
}

/// The deletion of a series leaves an engine holding nothing of it.
proof fn lemma_series_delete_holds(view: EngineView, key: Seq<char>)
    requires
        view.memtable.wf(),
        !has_corrupt(view.segments),
    ensures
        holds_inserted(view.delete(key, None).0, key, Seq::<DataPointView>::empty()),
{
    let after = view.delete(key, None).0;
    let none = Seq::<DataPointView>::empty();
    lemma_deleted_series_is_gone(view.memtable.buckets, key);
    assert forall|i: int| 0 <= i < after.segments.len() implies !crate::sstable::has_block(
        (#[trigger] after.segments[i]).state.readable(),
        key,
    ) by {
        lemma_segments_after_delete(view.segments, key, i);
    }
    lemma_unheld_key(after.segments, key);
    lemma_segments_without_key(after.segments, key, None, None);
    assert(points_of(after.memtable.buckets, key) =~= none.skip(0));
    assert(samples_of(segments_query(after.segments, key, None, None)) =~= samples_of(
        none.take(0),
    ));
}

/// What passes a selection of samples depends on their timestamps alone.
proof fn lemma_selected_respects_samples(
    x: Seq<DataPointView>,
    y: Seq<DataPointView>,
    keep: spec_fn(u64) -> bool,
)
    requires
        samples_of(x) == samples_of(y),
    ensures
        samples_of(selected(x, keep)) == samples_of(selected(y, keep)),
    decreases x.len(),
{
    let pass = |p: DataPointView| keep(p.timestamp);
    assert(samples_of(x).len() == x.len() && samples_of(y).len() == y.len());
    if x.len() == 0 {
        lemma_filter_all(x, pass);
        lemma_filter_all(y, pass);
        assert(samples_of(selected(x, keep)) =~= samples_of(selected(y, keep)));
    } else {
        let x0 = x.drop_last();
        let y0 = y.drop_last();
        assert(samples_of(x0) =~= samples_of(x).drop_last());
        assert(samples_of(y0) =~= samples_of(y).drop_last());
        lemma_selected_respects_samples(x0, y0, keep);
        assert(samples_of(x)[x.len() - 1] == samples_of(y)[y.len() - 1]);
        assert(x.last().timestamp == y.last().timestamp);
        assert(x =~= x0.push(x.last()));
        assert(y =~= y0.push(y.last()));
        x0.lemma_filter_push(x.last(), pass);
        y0.lemma_filter_push(y.last(), pass);
        if keep(x.last().timestamp) {
            assert(samples_of(selected(x, keep)) =~= samples_of(selected(x0, keep)).push(
                samples_of(x)[x.len() - 1],
            ));
            assert(samples_of(selected(y, keep)) =~= samples_of(selected(y0, keep)).push(
                samples_of(y)[y.len() - 1],
            ));
        }
    }
}

/// The clean deletion of a sample leaves an engine holding what it held of
/// the series, less the samples at the timestamp.
proof fn lemma_point_delete_holds(
    view: EngineView,
    key: Seq<char>,
    timestamp: u64,
    live: Seq<DataPointView>,
)
    requires
        view.memtable.wf(),
        !has_corrupt(view.segments),
        forall|s: int|
            0 <= s < view.segments.len() ==> cleanly_deletable(
                (#[trigger] view.segments[s]).state.readable(),
                key,
                timestamp,
            ),
        holds_inserted(view, key, live),
    ensures
        holds_inserted(
            view.delete(key, Some(timestamp)).0,
            key,
            selected(live, other_than(timestamp)),
        ),
{
    let keep = other_than(timestamp);
    let pass = |p: DataPointView| keep(p.timestamp);
    let after = view.delete(key, Some(timestamp)).0;
    let n = choose|n: int|
        0 <= n <= live.len() && points_of(view.memtable.buckets, key) == #[trigger] live.skip(n)
            && samples_of(segments_query(view.segments, key, None, None)) == samples_of(
            live.take(n),
        );
    let older = live.take(n);
    let newer = live.skip(n);
    let left = selected(live, keep);
    lemma_memtable_after_point_delete(view.memtable.buckets, key, timestamp);
    lemma_segments_after_point_delete(view.segments, key, timestamp);
    lemma_empty_segments_add_nothing(
        segments_deleted(view.segments, key, Some(timestamp)),
        key,
        None,
        None,
    );
    lemma_selected_respects_samples(segments_query(view.segments, key, None, None), older, keep);
    assert(live =~= older + newer);
    Seq::filter_distributes_over_add(older, newer, pass);
    let m = selected(older, keep).len() as int;
    assert(left.skip(m) =~= selected(newer, keep));
    assert(left.take(m) =~= selected(older, keep));
    assert(points_of(after.memtable.buckets, key) == left.skip(m));
}

/// Inserts, flushes and deletions in any order that lose nothing of a series
/// leave the stores holding its live samples, in insertion order.
pub proof fn lemma_changes_hold_live(
    data_dir: Seq<char>,
    threshold: nat,
    changes: Seq<Change>,
    key: Seq<char>,
)
    requires
        clean(empty_engine(data_dir, threshold), changes, key),
    ensures
        after_changes(empty_engine(data_dir, threshold), changes).memtable.wf(),
        holds_inserted(
            after_changes(empty_engine(data_dir, threshold), changes),
            key,
            live_of(changes, key),
        ),
    decreases changes.len(),
{
    let start = empty_engine(data_dir, threshold);
    if changes.len() == 0 {
        assert(total_points(Seq::<BucketView>::empty()) == 0);
        let none = Seq::<DataPointView>::empty();
        assert(points_of(start.memtable.buckets, key) =~= none.skip(0));
        assert(samples_of(segments_query(start.segments, key, None, None)) =~= samples_of(
            none.take(0),
        ));
    } else {
        let earlier = changes.drop_last();
        let before = after_changes(start, earlier);
        let live = live_of(earlier, key);
        lemma_changes_hold_live(data_dir, threshold, earlier, key);
        assert(change_is_clean(before, changes.last(), key));
        match changes.last() {
            Change::Insert { key: k, point, now } => {
                lemma_filled_wf(before, k, point);
                lemma_filled_holds(before, k, point, key, live);
                let between = filled(before, k, point);
                assert(total_points(Seq::<BucketView>::empty()) == 0);
                if between.memtable.size >= between.memtable.threshold {
                    lemma_flush_holds_lossless(between, key, live_of(changes, key), now);
                }
            },
            Change::Flush { now } => {
                assert(total_points(Seq::<BucketView>::empty()) == 0);
                lemma_flush_holds_lossless(before, key, live, now);
            },
            Change::Delete { key: k, timestamp } => {
                lemma_deleted_buckets(before.memtable.buckets, k, timestamp, key);
                if k != key {
                    lemma_other_delete_holds(before, k, timestamp, key, live);
                } else {
                    match timestamp {
                        None => lemma_series_delete_holds(before, key),
                        Some(t) => lemma_point_delete_holds(before, key, t, live),
                    }
                }
            },
        }
    }
}

/// Coverage with deletions: after inserts, flushes and deletions in any
/// order that lose nothing of a series, an unbounded scan collects exactly
/// its live samples, in insertion order.
#[verifier::rlimit(50)]
pub proof fn lemma_stores_hold_live(
    data_dir: Seq<char>,
    threshold: nat,
    changes: Seq<Change>,
    key: Seq<char>,
)
    requires
        clean(empty_engine(data_dir, threshold), changes, key),
    ensures
        stored(after_changes(empty_engine(data_dir, threshold), changes), key) == samples_of(
            live_of(changes, key),
        ),
{
    let view = after_changes(empty_engine(data_dir, threshold), changes);
    let live = live_of(changes, key);
    lemma_changes_hold_live(data_dir, threshold, changes, key);
    let n = choose|n: int|
        0 <= n <= live.len() && points_of(view.memtable.buckets, key) == #[trigger] live.skip(n)
            && samples_of(segments_query(view.segments, key, None, None)) == samples_of(
            live.take(n),
        );
    lemma_filter_all(live.skip(n), |p: DataPointView| in_window(p.timestamp, None, None));
    assert(stored(view, key) =~= samples_of(live.take(n)) + samples_of(live.skip(n)));
    assert(samples_of(live.take(n)) + samples_of(live.skip(n)) =~= samples_of(live));
}

/// Coverage of the result with deletions: where moreover no two live
/// samples of the series have the same timestamp, the unbounded scan yields
/// each of them, ordered by timestamp, and nothing else.
pub proof fn lemma_query_covers_live(
    data_dir: Seq<char>,
    threshold: nat,
    changes: Seq<Change>,
    key: Seq<char>,
)
    requires
        clean(empty_engine(data_dir, threshold), changes, key),
        distinct_timestamps(live_of(changes, key)),
    ensures
        ({
            let result = samples_of(
                after_changes(empty_engine(data_dir, threshold), changes).query(key, None, None),
            );
            let all = samples_of(live_of(changes, key));
            &&& forall|i: int, j: int|
                0 <= i < j < result.len() ==> (#[trigger] result[i]).0 < (#[trigger] result[j]).0
            &&& forall|k: int| 0 <= k < all.len() ==> result.contains(#[trigger] all[k])
            &&& forall|i: int| 0 <= i < result.len() ==> all.contains(#[trigger] result[i])
        }),
{
    let view = after_changes(empty_engine(data_dir, threshold), changes);
    let collected = view.collected(key, None, None);
    let points = view.query(key, None, None);
    let result = samples_of(points);
    let inserted = live_of(changes, key);
    let all = samples_of(inserted);
    lemma_stores_hold_live(data_dir, threshold, changes, key);
    lemma_merge_exists(collected);
    assert(samples_of(collected) == all);
    assert(collected.len() == all.len());
    assert forall|k: int| 0 <= k < collected.len() implies (#[trigger] collected[k]).timestamp
        == inserted[k].timestamp && collected[k].value_bits == inserted[k].value_bits by {
        assert(samples_of(collected)[k] == all[k]);
    }
    assert forall|i: int, j: int| 0 <= i < j < result.len() implies (#[trigger] result[i]).0 < (
    #[trigger] result[j]).0 by {
        assert(points[i].timestamp < points[j].timestamp);
    }
    assert forall|k: int| 0 <= k < all.len() implies result.contains(#[trigger] all[k]) by {
        assert(is_kept_in(points, collected, k));
        let i = choose|i: int|
            0 <= i < points.len() && (#[trigger] points[i]).timestamp == collected[k].timestamp;
        assert(is_first_of(points, collected, i));
        lemma_first_at_exists(collected, points[i].timestamp);
        let f = first_at(collected, points[i].timestamp);
        if f < k {
            assert(inserted[f].timestamp != inserted[k].timestamp);
        }
        if k < f {
            assert(inserted[k].timestamp != inserted[f].timestamp);
        }
        assert(result[i] == all[k]);
    }
    assert forall|i: int| 0 <= i < result.len() implies all.contains(#[trigger] result[i]) by {
        assert(is_first_of(points, collected, i));
        lemma_first_at_exists(collected, points[i].timestamp);
        let f = first_at(collected, points[i].timestamp);
        assert(all[f] == result[i]);
    }
}

} // verus!
