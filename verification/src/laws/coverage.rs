//! Coverage: inserts and flushes, in any order, lose no sample of a series
//! whose timestamps are not repeated, and keep the summaries of the blocks
//! bounding their timestamps. Of the samples of a memtable with one timestamp
//! a flush keeps the last inserted.

use crate::compression::History;
use crate::engine::{flushed_blocks, segments_query, EngineView};
use crate::laws::window::{
    lemma_block_of_bucket_bounded, lemma_block_window, lemma_query_window, segments_well_bounded,
    well_bounded,
};
use crate::memtable::{
    distinct_keys, has_series, index_of, inserted, lemma_total_push, lemma_total_update, points_of,
    total_points, BucketView, MemtableView,
};
use crate::merge::{is_first_of, is_kept_in, merged};
use crate::merge_laws::{lemma_merge_exists, lemma_merge_respects_samples};
use crate::round_trip::lossless;
use crate::seq_lemmas::lemma_filter_all;
use crate::series::{
    distinct_timestamps, first_at, has_timestamp, in_window, last_copies, lemma_first_at_exists,
    lemma_last_copies, lemma_last_copies_of_distinct, lemma_last_copy_is_kept, samples_of,
    window_of, DataPointView, SeriesDataView,
};
use crate::sstable::blocks_query;
use vstd::prelude::*;

verus! {

/// One step of a write workload.
pub enum Step {
    /// A sample of the series `key` is inserted at `now` seconds.
    Insert { key: Seq<char>, point: DataPointView, now: u64 },
    /// The memtable is flushed at `now` seconds.
    Flush { now: u64 },
}

/// The state after the steps `steps` in order.
pub open spec fn run(view: EngineView, steps: Seq<Step>) -> EngineView
    decreases steps.len(),
{
    if steps.len() == 0 {
        view
    } else {
        let before = run(view, steps.drop_last());
        match steps.last() {
            Step::Insert { key, point, now } => before.insert(key, point, now),
            Step::Flush { now } => before.flush(now),
        }
    }
}

/// The samples that the steps insert for the series `key`, in order.
pub open spec fn inserted_of(steps: Seq<Step>, key: Seq<char>) -> Seq<DataPointView>
    decreases steps.len(),
{
    if steps.len() == 0 {
        Seq::empty()
    } else {
        let before = inserted_of(steps.drop_last(), key);
        match steps.last() {
            Step::Insert { key: k, point, .. } => if k == key {
                before.push(point)
            } else {
                before
            },
            Step::Flush { .. } => before,
        }
    }
}

/// An engine without samples.
pub open spec fn empty_engine(data_dir: Seq<char>, threshold: nat) -> EngineView {
    EngineView {
        memtable: MemtableView { buckets: Seq::empty(), size: 0, threshold },
        segments: Seq::empty(),
        data_dir,
        journal: Seq::empty(),
    }
}

/// Whether every run of consecutive samples is stored without loss, wherever
/// a flush cuts the sequence.
pub open spec fn steady(samples: Seq<(u64, u64)>) -> bool {
    forall|i: int, j: int|
        0 <= i <= j <= samples.len() ==> lossless(History::start(), #[trigger] samples.subrange(i, j))
}

/// The samples of a series after one more sample is inserted, and the keys
/// stay distinct.
pub proof fn lemma_inserted_points(
    buckets: Seq<BucketView>,
    inserted_key: Seq<char>,
    point: DataPointView,
    key: Seq<char>,
)
    requires
        distinct_keys(buckets),
    ensures
        distinct_keys(inserted(buckets, inserted_key, point)),
        points_of(inserted(buckets, inserted_key, point), key) == if inserted_key == key {
            points_of(buckets, key).push(point)
        } else {
            points_of(buckets, key)
        },
{
    let after = inserted(buckets, inserted_key, point);
    let place = if has_series(buckets, inserted_key) {
        index_of(buckets, inserted_key)
    } else {
        buckets.len() as int
    };
    assert(0 <= place < after.len() && after[place].series_key == inserted_key);
    assert forall|i: int| 0 <= i < buckets.len() implies (#[trigger] after[i]).series_key
        == buckets[i].series_key by {}
    assert(distinct_keys(after)) by {
        assert forall|i: int, j: int| 0 <= i < j < after.len() implies (
        #[trigger] after[i]).series_key != (#[trigger] after[j]).series_key by {
            if j < buckets.len() {
                assert(buckets[i].series_key != buckets[j].series_key);
            } else {
                assert(buckets[i].series_key == after[i].series_key);
            }
        }
    }
    if has_series(after, key) {
        let a = index_of(after, key);
        assert(0 <= a < after.len() && after[a].series_key == key);
        if inserted_key == key {
            if a < place {
                assert(after[a].series_key != after[place].series_key);
            }
            if place < a {
                assert(after[place].series_key != after[a].series_key);
            }
        } else {
            assert(a < buckets.len());
            assert(buckets[a].series_key == key);
            let b = index_of(buckets, key);
            assert(0 <= b < buckets.len() && buckets[b].series_key == key);
            if a < b {
                assert(buckets[a].series_key != buckets[b].series_key);
            }
            if b < a {
                assert(buckets[b].series_key != buckets[a].series_key);
            }
        }
    } else {
        assert(inserted_key != key);
        if has_series(buckets, key) {
            let b = index_of(buckets, key);
            assert(after[b].series_key == key);
        }
    }
    if inserted_key == key && !has_series(buckets, key) {
        assert(points_of(after, key) =~= points_of(buckets, key).push(point));
    }
}

/// The state after a flush is well formed.
pub proof fn lemma_flush_keeps_wf(view: EngineView, now: u64)
    requires
        view.memtable.wf(),
    ensures
        view.flush(now).wf(),
{
    assert(total_points(Seq::<BucketView>::empty()) == 0);
}

/// What a scan collects from the blocks of a flush: of the samples that the
/// memtable held of the series at one timestamp the last inserted alone,
/// where those are stored without loss.
pub proof fn lemma_flushed_last_copies(buckets: Seq<BucketView>, key: Seq<char>)
    requires
        distinct_keys(buckets),
        lossless(History::start(), samples_of(last_copies(points_of(buckets, key)))),
    ensures
        samples_of(blocks_query(flushed_blocks(buckets), key, None, None)) == samples_of(
            last_copies(points_of(buckets, key)),
        ),
    decreases buckets.len(),
{
    let blocks = flushed_blocks(buckets);
    if buckets.len() == 0 {
        assert(samples_of(blocks_query(blocks, key, None, None)) =~= samples_of(
            last_copies(points_of(buckets, key)),
        ));
    } else {
        let front = buckets.drop_last();
        let last = buckets.last();
        assert(blocks.drop_last() =~= flushed_blocks(front));
        assert(blocks.last() == SeriesDataView::of_bucket(last.series_key, last.points));
        assert(distinct_keys(front)) by {
            assert forall|i: int, j: int| 0 <= i < j < front.len() implies (
            #[trigger] front[i]).series_key != (#[trigger] front[j]).series_key by {
                assert(buckets[i].series_key != buckets[j].series_key);
            }
        }
        if last.series_key == key {
            assert(!has_series(front, key)) by {
                if has_series(front, key) {
                    let i = index_of(front, key);
                    assert(buckets[i].series_key != buckets[buckets.len() - 1].series_key);
                }
            }
            assert(buckets[buckets.len() - 1].series_key == key);
            assert(points_of(buckets, key) == last.points) by {
                let i = index_of(buckets, key);
                if i < buckets.len() - 1 {
                    assert(buckets[i].series_key != buckets[buckets.len() - 1].series_key);
                }
            }
            assert(points_of(front, key) =~= Seq::<DataPointView>::empty());
            assert(samples_of(last_copies(points_of(front, key))) =~= Seq::<(u64, u64)>::empty());
            assert(lossless(History::start(), Seq::<(u64, u64)>::empty()));
            lemma_flushed_last_copies(front, key);
            lemma_block_of_bucket_bounded(key, last.points);
            lemma_block_window(blocks.last(), None, None);
            assert(samples_of(blocks.last().points()) =~= samples_of(last_copies(last.points)));
            assert(samples_of(blocks_query(blocks, key, None, None)) =~= samples_of(
                blocks_query(flushed_blocks(front), key, None, None),
            ) + samples_of(blocks.last().points()));
            assert(samples_of(blocks_query(blocks, key, None, None)) =~= samples_of(
                last_copies(last.points),
            ));
        } else {
            assert(points_of(front, key) == points_of(buckets, key)) by {
                if has_series(buckets, key) {
                    let i = index_of(buckets, key);
                    assert(front[i].series_key == key);
                    let j = index_of(front, key);
                    assert(buckets[j].series_key == key);
                    if i < j {
                        assert(buckets[i].series_key != buckets[j].series_key);
                    }
                    if j < i {
                        assert(buckets[j].series_key != buckets[i].series_key);
                    }
                } else if has_series(front, key) {
                    let j = index_of(front, key);
                    assert(buckets[j].series_key == key);
                }
            }
            lemma_flushed_last_copies(front, key);
            assert(blocks_query(blocks, key, None, None) =~= blocks_query(
                flushed_blocks(front),
                key,
                None,
                None,
            ));
        }
    }
}

/// What a scan collects from the blocks of a flush is what the memtable held
/// of the series, where that has no timestamp twice and is stored without
/// loss.
pub proof fn lemma_flushed_query(buckets: Seq<BucketView>, key: Seq<char>)
    requires
        distinct_keys(buckets),
        distinct_timestamps(points_of(buckets, key)),
        lossless(History::start(), samples_of(points_of(buckets, key))),
    ensures
        samples_of(blocks_query(flushed_blocks(buckets), key, None, None)) == samples_of(
            points_of(buckets, key),
        ),
{
    lemma_last_copies_of_distinct(points_of(buckets, key));
    lemma_flushed_last_copies(buckets, key);
}

/// What the stores of an engine hold of a series, in the order in which a
/// scan collects it, without the tags.
pub open spec fn stored(view: EngineView, key: Seq<char>) -> Seq<(u64, u64)> {
    samples_of(view.collected(key, None, None))
}

/// Whether the engine holds the samples `all` of a series: the memtable the
/// last of them, as inserted, and the segments the ones before.
pub open spec fn holds_inserted(view: EngineView, key: Seq<char>, all: Seq<DataPointView>) -> bool {
    exists|n: int|
        0 <= n <= all.len() && points_of(view.memtable.buckets, key) == #[trigger] all.skip(n)
            && samples_of(segments_query(view.segments, key, None, None)) == samples_of(
            all.take(n),
        )
}

/// A flush keeps an engine holding what was inserted, where what the
/// memtable holds of the series has no timestamp twice and is stored without
/// loss.
pub proof fn lemma_flush_holds_lossless(
    view: EngineView,
    key: Seq<char>,
    all: Seq<DataPointView>,
    now: u64,
)
    requires
        view.memtable.wf(),
        holds_inserted(view, key, all),
        distinct_timestamps(points_of(view.memtable.buckets, key)),
        lossless(History::start(), samples_of(points_of(view.memtable.buckets, key))),
    ensures
        holds_inserted(view.flush(now), key, all),
{
    let after = view.flush(now);
    let n = choose|n: int|
        0 <= n <= all.len() && points_of(view.memtable.buckets, key) == #[trigger] all.skip(n)
            && samples_of(segments_query(view.segments, key, None, None)) == samples_of(
            all.take(n),
        );
    let buckets = view.memtable.buckets;
    if buckets.len() == 0 {
        assert(points_of(after.memtable.buckets, key) == all.skip(n));
    } else {
        let blocks = flushed_blocks(buckets);
        lemma_flushed_query(buckets, key);
        assert(after.segments.drop_last() =~= view.segments);
        assert(after.segments.last().state.readable() == blocks);
        let total = all.len() as int;
        assert(points_of(after.memtable.buckets, key) =~= all.skip(total));
        assert(samples_of(segments_query(after.segments, key, None, None)) =~= samples_of(
            segments_query(view.segments, key, None, None),
        ) + samples_of(blocks_query(blocks, key, None, None)));
        assert(samples_of(all.take(total)) =~= samples_of(all.take(n)) + samples_of(all.skip(n)));
        assert(samples_of(segments_query(after.segments, key, None, None)) == samples_of(
            all.take(total),
        ));
    }
}

/// A flush keeps an engine holding what was inserted, where that is steady
/// and has no timestamp twice.
proof fn lemma_flush_holds(view: EngineView, key: Seq<char>, all: Seq<DataPointView>, now: u64)
    requires
        view.memtable.wf(),
        holds_inserted(view, key, all),
        steady(samples_of(all)),
        distinct_timestamps(all),
    ensures
        holds_inserted(view.flush(now), key, all),
{
    let n = choose|n: int|
        0 <= n <= all.len() && points_of(view.memtable.buckets, key) == #[trigger] all.skip(n)
            && samples_of(segments_query(view.segments, key, None, None)) == samples_of(
            all.take(n),
        );
    assert(samples_of(all.skip(n)) =~= samples_of(all).subrange(n, all.len() as int));
    lemma_distinct_part(all, n, all.len() as int);
    assert(all.subrange(n, all.len() as int) =~= all.skip(n));
    lemma_flush_holds_lossless(view, key, all, now);
}

/// A run of consecutive samples of samples without a timestamp twice has
/// none twice.
pub proof fn lemma_distinct_part(points: Seq<DataPointView>, from: int, to: int)
    requires
        distinct_timestamps(points),
        0 <= from <= to <= points.len(),
    ensures
        distinct_timestamps(points.subrange(from, to)),
{
    let part = points.subrange(from, to);
    assert forall|i: int, j: int| 0 <= i < j < part.len() implies (#[trigger] part[i]).timestamp != (
    #[trigger] part[j]).timestamp by {
        assert(points[from + i].timestamp != points[from + j].timestamp);
    }
}

/// A prefix of a steady sequence is steady.
proof fn lemma_steady_prefix(samples: Seq<(u64, u64)>, n: int)
    requires
        steady(samples),
        0 <= n <= samples.len(),
    ensures
        steady(samples.take(n)),
{
    let prefix = samples.take(n);
    assert forall|i: int, j: int| 0 <= i <= j <= prefix.len() implies lossless(
        History::start(),
        #[trigger] prefix.subrange(i, j),
    ) by {
        assert(prefix.subrange(i, j) =~= samples.subrange(i, j));
    }
}

/// The state after a sample is appended to the memtable, before the flush
/// that it may cause.
pub open spec fn filled(view: EngineView, key: Seq<char>, point: DataPointView) -> EngineView {
    EngineView {
        memtable: MemtableView {
            buckets: inserted(view.memtable.buckets, key, point),
            size: view.memtable.size + 1,
            ..view.memtable
        },
        ..view
    }
}

/// The samples inserted for a series with one more inserted sample, which
/// counts if it is of the series.
pub open spec fn with_inserted(
    known: Seq<DataPointView>,
    inserted_key: Seq<char>,
    point: DataPointView,
    key: Seq<char>,
) -> Seq<DataPointView> {
    if inserted_key == key {
        known.push(point)
    } else {
        known
    }
}

/// The memtable with one more sample is well formed.
pub proof fn lemma_filled_wf(view: EngineView, key: Seq<char>, point: DataPointView)
    requires
        view.memtable.wf(),
    ensures
        filled(view, key, point).memtable.wf(),
{
    let buckets = view.memtable.buckets;
    let more = inserted(buckets, key, point);
    lemma_inserted_points(buckets, key, point, key);
    if has_series(buckets, key) {
        let i = index_of(buckets, key);
        lemma_total_update(buckets, i, more[i]);
    } else {
        lemma_total_push(buckets, more.last());
    }
    assert forall|i: int| 0 <= i < more.len() implies (#[trigger] more[i]).points.len() > 0 by {
        if i < buckets.len() {
            assert(buckets[i].points.len() > 0);
        }
    }
}

/// The state after an insert is well formed.
pub proof fn lemma_insert_keeps_wf(view: EngineView, key: Seq<char>, point: DataPointView, now: u64)
    requires
        view.wf(),
    ensures
        view.insert(key, point, now).wf(),
{
    lemma_filled_wf(view, key, point);
    lemma_flush_keeps_wf(filled(view, key, point), now);
}

/// An engine that holds what was inserted holds it with one more sample.
pub proof fn lemma_filled_holds(
    view: EngineView,
    inserted_key: Seq<char>,
    point: DataPointView,
    key: Seq<char>,
    known: Seq<DataPointView>,
)
    requires
        view.memtable.wf(),
        holds_inserted(view, key, known),
    ensures
        filled(view, inserted_key, point).memtable.wf(),
        holds_inserted(
            filled(view, inserted_key, point),
            key,
            with_inserted(known, inserted_key, point, key),
        ),
{
    let after = filled(view, inserted_key, point);
    let all = with_inserted(known, inserted_key, point, key);
    let buckets = view.memtable.buckets;
    lemma_inserted_points(buckets, inserted_key, point, key);
    lemma_filled_wf(view, inserted_key, point);
    let n = choose|n: int|
        0 <= n <= known.len() && points_of(buckets, key) == #[trigger] known.skip(n) && samples_of(
            segments_query(view.segments, key, None, None),
        ) == samples_of(known.take(n));
    assert(points_of(after.memtable.buckets, key) =~= all.skip(n));
    assert(all.take(n) =~= known.take(n));
}

/// Inserts and flushes, in any order, keep every inserted sample of a series
/// in the stores, in insertion order, where the samples of the series have
/// no timestamp twice and are stored without loss.
pub proof fn lemma_run_holds(data_dir: Seq<char>, threshold: nat, steps: Seq<Step>, key: Seq<char>)
    requires
        steady(samples_of(inserted_of(steps, key))),
        distinct_timestamps(inserted_of(steps, key)),
    ensures
        run(empty_engine(data_dir, threshold), steps).wf(),
        holds_inserted(run(empty_engine(data_dir, threshold), steps), key, inserted_of(steps, key)),
    decreases steps.len(),
{
    let start = empty_engine(data_dir, threshold);
    if steps.len() == 0 {
        assert(total_points(Seq::<BucketView>::empty()) == 0);
        let none = Seq::<DataPointView>::empty();
        assert(points_of(start.memtable.buckets, key) =~= none.skip(0));
        assert(samples_of(segments_query(start.segments, key, None, None)) =~= samples_of(
            none.take(0),
        ));
    } else {
        let earlier = steps.drop_last();
        let before = run(start, earlier);
        let known = inserted_of(earlier, key);
        let all = inserted_of(steps, key);
        assert(samples_of(known) =~= samples_of(all).take(known.len() as int));
        lemma_steady_prefix(samples_of(all), known.len() as int);
        lemma_distinct_part(all, 0, known.len() as int);
        assert(all.subrange(0, known.len() as int) =~= known);
        lemma_run_holds(data_dir, threshold, earlier, key);
        match steps.last() {
            Step::Insert { key: k, point, now } => {
                lemma_insert_keeps_wf(before, k, point, now);
                lemma_filled_holds(before, k, point, key, known);
                let after = filled(before, k, point);
                if after.memtable.size >= after.memtable.threshold {
                    lemma_flush_holds(after, key, all, now);
                }
            },
            Step::Flush { now } => {
                lemma_flush_keeps_wf(before, now);
                lemma_flush_holds(before, key, all, now);
            },
        }
    }
}

/// Coverage: after inserts and flushes in any order, an unbounded scan of a
/// series collects exactly the samples inserted for it, in insertion order,
/// where they have no timestamp twice and are stored without loss.
#[verifier::rlimit(50)]
pub proof fn lemma_stores_cover_inserts(
    data_dir: Seq<char>,
    threshold: nat,
    steps: Seq<Step>,
    key: Seq<char>,
)
    requires
        steady(samples_of(inserted_of(steps, key))),
        distinct_timestamps(inserted_of(steps, key)),
    ensures
        stored(run(empty_engine(data_dir, threshold), steps), key) == samples_of(
            inserted_of(steps, key),
        ),
{
    let view = run(empty_engine(data_dir, threshold), steps);
    let all = inserted_of(steps, key);
    lemma_run_holds(data_dir, threshold, steps, key);
    let n = choose|n: int|
        0 <= n <= all.len() && points_of(view.memtable.buckets, key) == #[trigger] all.skip(n)
            && samples_of(segments_query(view.segments, key, None, None)) == samples_of(
            all.take(n),
        );
    lemma_filter_all(all.skip(n), |p: DataPointView| in_window(p.timestamp, None, None));
    assert(view.memtable.query(key, None, None) == all.skip(n));
    assert(stored(view, key) =~= samples_of(all.take(n)) + samples_of(all.skip(n)));
    assert(samples_of(all.take(n)) + samples_of(all.skip(n)) =~= samples_of(all));
}

/// Coverage of the result: after inserts and flushes in any order, the
/// unbounded scan of a series yields each sample inserted for it, ordered by
/// timestamp, and nothing else, where the samples have no timestamp twice and
/// are stored without loss.
pub proof fn lemma_query_covers_inserts(
    data_dir: Seq<char>,
    threshold: nat,
    steps: Seq<Step>,
    key: Seq<char>,
)
    requires
        steady(samples_of(inserted_of(steps, key))),
        distinct_timestamps(inserted_of(steps, key)),
    ensures
        ({
            let result = samples_of(
                run(empty_engine(data_dir, threshold), steps).query(key, None, None),
            );
            let all = samples_of(inserted_of(steps, key));
            &&& forall|i: int, j: int|
                0 <= i < j < result.len() ==> (#[trigger] result[i]).0 < (#[trigger] result[j]).0
            &&& forall|k: int| 0 <= k < all.len() ==> result.contains(#[trigger] all[k])
            &&& forall|i: int| 0 <= i < result.len() ==> all.contains(#[trigger] result[i])
        }),
{
    let view = run(empty_engine(data_dir, threshold), steps);
    let collected = view.collected(key, None, None);
    let points = view.query(key, None, None);
    let result = samples_of(points);
    let inserted = inserted_of(steps, key);
    let all = samples_of(inserted);
    lemma_stores_cover_inserts(data_dir, threshold, steps, key);
    lemma_merge_exists(collected);
    assert(samples_of(collected) == all);
    assert(collected.len() == all.len());
    assert forall|k: int| 0 <= k < collected.len() implies (#[trigger] collected[k]).timestamp
        == inserted[k].timestamp && collected[k].value_bits == inserted[k].value_bits by {
        assert(samples_of(collected)[k] == all[k]);
    }
    assert forall|i: int, j: int| 0 <= i < j < result.len() implies (#[trigger] result[i]).0 < (
    #[trigger] result[j]).0 by {
        assert(points[i].timestamp < points[j].timestamp);
    }
    assert forall|k: int| 0 <= k < all.len() implies result.contains(#[trigger] all[k]) by {
        assert(is_kept_in(points, collected, k));
        let i = choose|i: int|
            0 <= i < points.len() && (#[trigger] points[i]).timestamp == collected[k].timestamp;
        assert(is_first_of(points, collected, i));
        lemma_first_at_exists(collected, points[i].timestamp);
        let f = first_at(collected, points[i].timestamp);
        if f < k {
            assert(inserted[f].timestamp != inserted[k].timestamp);
        }
        if k < f {
            assert(inserted[k].timestamp != inserted[f].timestamp);
        }
        assert(result[i] == all[k]);
    }
    assert forall|i: int| 0 <= i < result.len() implies all.contains(#[trigger] result[i]) by {
        assert(is_first_of(points, collected, i));
        lemma_first_at_exists(collected, points[i].timestamp);
        let f = first_at(collected, points[i].timestamp);
        assert(all[f] == result[i]);
    }
}

/// The bucket at a place holds the samples of its series.
proof fn lemma_points_of_place(buckets: Seq<BucketView>, i: int)
    requires
        distinct_keys(buckets),
        0 <= i < buckets.len(),
    ensures
        points_of(buckets, buckets[i].series_key) == buckets[i].points,
{
    let key = buckets[i].series_key;
    assert(has_series(buckets, key));
    let j = index_of(buckets, key);
    assert(0 <= j < buckets.len() && buckets[j].series_key == key);
    if i < j {
        assert(buckets[i].series_key != buckets[j].series_key);
    }
    if j < i {
        assert(buckets[j].series_key != buckets[i].series_key);
    }
}

/// A flush of buckets whose last copies are stored without loss keeps the
/// summaries of all blocks bounding their timestamps.
pub proof fn lemma_flush_bounded(view: EngineView, now: u64)
    requires
        segments_well_bounded(view.segments),
        forall|i: int|
            0 <= i < view.memtable.buckets.len() ==> lossless(
                History::start(),
                samples_of(last_copies((#[trigger] view.memtable.buckets[i]).points)),
            ),
    ensures
        segments_well_bounded(view.flush(now).segments),
{
    let after = view.flush(now).segments;
    let buckets = view.memtable.buckets;
    assert forall|s: int, i: int|
        0 <= s < after.len() && 0 <= i < after[s].state.readable().len() implies well_bounded(
        #[trigger] after[s].state.readable()[i],
    ) by {
        if s < view.segments.len() {
            assert(after[s] == view.segments[s]);
            assert(well_bounded(view.segments[s].state.readable()[i]));
        } else {
            assert(after[s].state.readable() == flushed_blocks(buckets));
            assert(lossless(History::start(), samples_of(last_copies(buckets[i].points))));
            lemma_block_of_bucket_bounded(buckets[i].series_key, buckets[i].points);
        }
    }
}

/// The buckets of an engine that holds what was inserted are each a run of
/// consecutive inserted samples, and so their own last copies and stored
/// without loss.
proof fn lemma_bucket_is_lossless(view: EngineView, known: Seq<DataPointView>, i: int)
    requires
        view.memtable.wf(),
        0 <= i < view.memtable.buckets.len(),
        holds_inserted(view, view.memtable.buckets[i].series_key, known),
        steady(samples_of(known)),
        distinct_timestamps(known),
    ensures
        lossless(History::start(), samples_of(last_copies(view.memtable.buckets[i].points))),
{
    let buckets = view.memtable.buckets;
    let key = buckets[i].series_key;
    lemma_points_of_place(buckets, i);
    let n = choose|n: int|
        0 <= n <= known.len() && points_of(buckets, key) == #[trigger] known.skip(n) && samples_of(
            segments_query(view.segments, key, None, None),
        ) == samples_of(known.take(n));
    assert(samples_of(known.skip(n)) =~= samples_of(known).subrange(n, known.len() as int));
    lemma_distinct_part(known, n, known.len() as int);
    assert(known.subrange(n, known.len() as int) =~= known.skip(n));
    lemma_last_copies_of_distinct(known.skip(n));
}

/// Whether the samples inserted for every series have no timestamp twice and
/// are stored without loss, wherever a flush cuts them.
pub open spec fn all_steady(steps: Seq<Step>) -> bool {
    forall|key: Seq<char>|
        steady(samples_of(#[trigger] inserted_of(steps, key))) && distinct_timestamps(
            inserted_of(steps, key),
        )
}

/// After inserts and flushes in any order, the summaries of all blocks bound
/// their timestamps, where the samples of every series have no timestamp
/// twice and are stored without loss.
pub proof fn lemma_run_well_bounded(data_dir: Seq<char>, threshold: nat, steps: Seq<Step>)
    requires
        all_steady(steps),
    ensures
        segments_well_bounded(run(empty_engine(data_dir, threshold), steps).segments),
    decreases steps.len(),
{
    let start = empty_engine(data_dir, threshold);
    if steps.len() > 0 {
        let earlier = steps.drop_last();
        let before = run(start, earlier);
        assert forall|key: Seq<char>|
            steady(samples_of(#[trigger] inserted_of(earlier, key))) && distinct_timestamps(
                inserted_of(earlier, key),
            ) by {
            let known = inserted_of(earlier, key);
            let all = inserted_of(steps, key);
            assert(steady(samples_of(all)));
            assert(samples_of(known) =~= samples_of(all).take(known.len() as int));
            lemma_steady_prefix(samples_of(all), known.len() as int);
            lemma_distinct_part(all, 0, known.len() as int);
            assert(all.subrange(0, known.len() as int) =~= known);
        }
        lemma_run_well_bounded(data_dir, threshold, earlier);
        match steps.last() {
            Step::Insert { key: k, point, now } => {
                let after = filled(before, k, point);
                if after.memtable.size >= after.memtable.threshold {
                    assert forall|i: int| 0 <= i < after.memtable.buckets.len() implies lossless(
                        History::start(),
                        samples_of(last_copies((#[trigger] after.memtable.buckets[i]).points)),
                    ) by {
                        let key = after.memtable.buckets[i].series_key;
                        let known = inserted_of(earlier, key);
                        assert(steady(samples_of(inserted_of(steps, key))));
                        lemma_run_holds(data_dir, threshold, earlier, key);
                        lemma_filled_holds(before, k, point, key, known);
                        lemma_bucket_is_lossless(after, inserted_of(steps, key), i);
                    }
                    lemma_flush_bounded(after, now);
                }
            },
            Step::Flush { now } => {
                assert forall|i: int| 0 <= i < before.memtable.buckets.len() implies lossless(
                    History::start(),
                    samples_of(last_copies((#[trigger] before.memtable.buckets[i]).points)),
                ) by {
                    let key = before.memtable.buckets[i].series_key;
                    assert(steady(samples_of(inserted_of(steps, key))));
                    lemma_run_holds(data_dir, threshold, earlier, key);
                    lemma_bucket_is_lossless(before, inserted_of(steps, key), i);
                }
                lemma_flush_bounded(before, now);
            },
        }
    }
}

/// Window correctness after inserts and flushes in any order: a range scan
/// yields exactly the samples of the unbounded scan whose timestamps lie in
/// the window, where the samples of every series have no timestamp twice and
/// are stored without loss.
pub proof fn lemma_run_query_window(
    data_dir: Seq<char>,
    threshold: nat,
    steps: Seq<Step>,
    key: Seq<char>,
    start: Option<u64>,
    end: Option<u64>,
)
    requires
        all_steady(steps),
    ensures
        run(empty_engine(data_dir, threshold), steps).query(key, start, end) == window_of(
            run(empty_engine(data_dir, threshold), steps).query(key, None, None),
            start,
            end,
        ),
{
    lemma_run_well_bounded(data_dir, threshold, steps);
    lemma_query_window(run(empty_engine(data_dir, threshold), steps), key, start, end);
}

/// What the stores hold of a series after a flush: what the segments held of
/// it, then of the samples that the memtable held of it at one timestamp the
/// last inserted alone, where those are stored without loss.
pub proof fn lemma_flush_stores_last_copies(view: EngineView, now: u64, key: Seq<char>)
    requires
        view.memtable.wf(),
        lossless(History::start(), samples_of(last_copies(points_of(view.memtable.buckets, key)))),
    ensures
        stored(view.flush(now), key) == samples_of(
            segments_query(view.segments, key, None, None),
        ) + samples_of(last_copies(points_of(view.memtable.buckets, key))),
{
    let after = view.flush(now);
    let buckets = view.memtable.buckets;
    let held = points_of(buckets, key);
    let older = segments_query(view.segments, key, None, None);
    lemma_filter_all(Seq::<DataPointView>::empty(), |p: DataPointView| in_window(p.timestamp, None, None));
    assert(points_of(after.memtable.buckets, key) =~= Seq::<DataPointView>::empty());
    if buckets.len() == 0 {
        assert(held =~= Seq::<DataPointView>::empty());
        assert(samples_of(last_copies(held)) =~= Seq::<(u64, u64)>::empty());
        assert(stored(after, key) =~= samples_of(older) + samples_of(last_copies(held)));
    } else {
        let blocks = flushed_blocks(buckets);
        lemma_flushed_last_copies(buckets, key);
        assert(after.segments.drop_last() =~= view.segments);
        assert(after.segments.last().state.readable() == blocks);
        let newer = blocks_query(blocks, key, None, None);
        assert(stored(after, key) =~= samples_of(older) + samples_of(newer));
    }
}

/// A flush does not change the timestamps and values that an unbounded scan
/// of a series yields, where what the memtable holds of it has no timestamp
/// twice and is stored without loss.
pub proof fn lemma_flush_keeps_queries(view: EngineView, now: u64, key: Seq<char>)
    requires
        view.memtable.wf(),
        distinct_timestamps(points_of(view.memtable.buckets, key)),
        lossless(History::start(), samples_of(points_of(view.memtable.buckets, key))),
    ensures
        samples_of(view.flush(now).query(key, None, None)) == samples_of(
            view.query(key, None, None),
        ),
{
    let after = view.flush(now);
    let held = points_of(view.memtable.buckets, key);
    let older = segments_query(view.segments, key, None, None);
    lemma_filter_all(held, |p: DataPointView| in_window(p.timestamp, None, None));
    lemma_last_copies_of_distinct(held);
    lemma_flush_stores_last_copies(view, now, key);
    assert(samples_of(view.collected(key, None, None)) =~= samples_of(older) + samples_of(held));
    lemma_merge_respects_samples(after.collected(key, None, None), view.collected(key, None, None));
}

/// The last write of the memtable at a timestamp is the one seen after a
/// flush: where no segment holds a sample of the series at the timestamp of
/// a sample of the memtable that no later one of the series has the
/// timestamp of, the unbounded scan after the flush yields that sample's
/// timestamp and value, and no other value at the timestamp.
pub proof fn lemma_flush_shows_last_write(view: EngineView, now: u64, key: Seq<char>, i: int)
    requires
        view.memtable.wf(),
        lossless(History::start(), samples_of(last_copies(points_of(view.memtable.buckets, key)))),
        0 <= i < points_of(view.memtable.buckets, key).len(),
        forall|j: int|
            i < j < points_of(view.memtable.buckets, key).len() ==> (#[trigger] points_of(
                view.memtable.buckets,
                key,
            )[j]).timestamp != points_of(view.memtable.buckets, key)[i].timestamp,
        !has_timestamp(
            segments_query(view.segments, key, None, None),
            points_of(view.memtable.buckets, key)[i].timestamp,
        ),
    ensures
        ({
            let written = points_of(view.memtable.buckets, key)[i];
            let result = view.flush(now).query(key, None, None);
            &&& has_timestamp(result, written.timestamp)
            &&& forall|k: int|
                0 <= k < result.len() && (#[trigger] result[k]).timestamp == written.timestamp
                    ==> result[k].value_bits == written.value_bits
        }),
{
    let after = view.flush(now);
    let held = points_of(view.memtable.buckets, key);
    let written = held[i];
    let kept = last_copies(held);
    let older = segments_query(view.segments, key, None, None);
    let collected = after.collected(key, None, None);
    let result = after.query(key, None, None);
    lemma_flush_stores_last_copies(view, now, key);
    lemma_last_copies(held);
    lemma_last_copy_is_kept(held, i);
    let m = choose|m: int| 0 <= m < kept.len() && kept[m] == written;
    let place = older.len() + m;
    assert(samples_of(collected).len() == collected.len());
    assert(samples_of(older).len() == older.len());
    assert(samples_of(kept).len() == kept.len());
    // What is collected has the timestamps and values of the segments'
    // samples, then of the last copies.
    assert forall|c: int| 0 <= c < collected.len() implies (#[trigger] collected[c]).timestamp == (
    if c < older.len() {
        older[c].timestamp
    } else {
        kept[c - older.len()].timestamp
    }) && collected[c].value_bits == (if c < older.len() {
        older[c].value_bits
    } else {
        kept[c - older.len()].value_bits
    }) by {
        let both = samples_of(older) + samples_of(kept);
        assert(samples_of(collected)[c] == both[c]);
        if c < older.len() {
            assert(both[c] == samples_of(older)[c]);
        } else {
            assert(both[c] == samples_of(kept)[c - older.len()]);
        }
    }
    assert(collected[place].timestamp == written.timestamp);
    // The one place at which the timestamp is collected.
    assert forall|c: int|
        0 <= c < collected.len() && (#[trigger] collected[c]).timestamp
            == written.timestamp implies c == place by {
        if c < older.len() {
            assert(older[c].timestamp == written.timestamp);
        } else {
            let a = c - older.len();
            if a < m {
                assert(kept[a].timestamp != kept[m].timestamp);
            }
            if m < a {
                assert(kept[m].timestamp != kept[a].timestamp);
            }
        }
    }
    lemma_merge_exists(collected);
    assert(is_kept_in(result, collected, place));
    assert forall|k: int|
        0 <= k < result.len() && (#[trigger] result[k]).timestamp
            == written.timestamp implies result[k].value_bits == written.value_bits by {
        assert(is_first_of(result, collected, k));
        lemma_first_at_exists(collected, result[k].timestamp);
    }
}

/// A write is visible to the scans after it: an unbounded scan after an
/// insert yields the timestamps and values of the merge of what it collected
/// before and the new sample, and so a sample at the new timestamp, where
/// the insert fills the memtable only if what that then holds of the series
/// has no timestamp twice and is stored without loss.
pub proof fn lemma_insert_is_visible(view: EngineView, key: Seq<char>, point: DataPointView, now: u64)
    requires
        view.wf(),
        view.memtable.size + 1 >= view.memtable.threshold ==> distinct_timestamps(
            points_of(view.memtable.buckets, key).push(point),
        ) && lossless(
            History::start(),
            samples_of(points_of(view.memtable.buckets, key).push(point)),
        ),
    ensures
        samples_of(view.insert(key, point, now).query(key, None, None)) == samples_of(
            merged(view.collected(key, None, None).push(point)),
        ),
        has_timestamp(view.insert(key, point, now).query(key, None, None), point.timestamp),
{
    let after = view.insert(key, point, now);
    let between = filled(view, key, point);
    let every = |p: DataPointView| in_window(p.timestamp, None, None);
    let before = view.collected(key, None, None);
    let longer = before.push(point);
    lemma_inserted_points(view.memtable.buckets, key, point, key);
    lemma_filter_all(points_of(view.memtable.buckets, key), every);
    lemma_filter_all(points_of(between.memtable.buckets, key), every);
    assert(between.collected(key, None, None) =~= longer);
    if between.memtable.size >= between.memtable.threshold {
        lemma_filled_wf(view, key, point);
        lemma_flush_keeps_queries(between, now, key);
    }
    lemma_merge_exists(longer);
    let expected = merged(longer);
    let result = after.query(key, None, None);
    assert(is_kept_in(expected, longer, before.len() as int));
    let j = choose|j: int|
        0 <= j < expected.len() && (#[trigger] expected[j]).timestamp == point.timestamp;
    assert(samples_of(result).len() == result.len());
    assert(samples_of(expected).len() == expected.len());
    assert(samples_of(result)[j] == samples_of(expected)[j]);
    assert(result[j].timestamp == point.timestamp);
}

} // verus!
