//! Compaction: it keeps what the segments hold of each series and what scans
//! yield, and doing it twice is doing it once.

use crate::compression::History;
use crate::engine::{
    compacted_blocks, distinct, segment_keys, segments_query, with_key, EngineView, FileActionView,
};
use crate::laws::window::{lemma_block_of_points_bounded, lemma_block_window};
use crate::merge::merged;
use crate::merge_laws::{lemma_merge_of_merged, lemma_merge_of_none, lemma_merge_respects_samples};
use crate::round_trip::lossless;
use crate::series::{samples_of, DataPointView, SeriesDataView};
use crate::sstable::{block_keys, blocks_query, SSTableView};
use vstd::prelude::*;

verus! {

/// Compacting twice is compacting once.
pub proof fn lemma_compact_twice(view: EngineView, now: u64, later: u64)
    ensures
        view.compact(now).compact(later) == view.compact(now),
{
    assert(view.compact(now).segments.len() < 2);
}

/// The distinct keys hold each key once, and no other key.
pub proof fn lemma_distinct(keys: Seq<Seq<char>>)
    ensures
        distinct(keys).no_duplicates(),
        forall|k: Seq<char>| #[trigger] distinct(keys).contains(k) ==> keys.contains(k),
        forall|k: Seq<char>| #[trigger] keys.contains(k) ==> distinct(keys).contains(k),
    decreases keys.len(),
{
    if keys.len() > 0 {
        let front = keys.drop_last();
        let last = keys.last();
        lemma_distinct(front);
        let before = distinct(front);
        let after = distinct(keys);
        assert(after == with_key(before, last));
        assert forall|k: Seq<char>| #[trigger] after.contains(k) implies keys.contains(k) by {
            let i = choose|i: int| 0 <= i < after.len() && after[i] == k;
            if i < before.len() {
                assert(before[i] == k);
                assert(before.contains(k));
                assert(front.contains(k));
                let j = choose|j: int| 0 <= j < front.len() && front[j] == k;
                assert(keys[j] == k);
            } else {
                assert(keys[keys.len() - 1] == k);
            }
        }
        assert forall|k: Seq<char>| #[trigger] keys.contains(k) implies after.contains(k) by {
            let j = choose|j: int| 0 <= j < keys.len() && keys[j] == k;
            if j < front.len() {
                assert(front[j] == k);
                assert(front.contains(k));
                assert(before.contains(k));
                let i = choose|i: int| 0 <= i < before.len() && before[i] == k;
                assert(after[i] == k);
            } else if before.contains(last) {
                let i = choose|i: int| 0 <= i < before.len() && before[i] == last;
                assert(after[i] == k);
            } else {
                assert(after[before.len() as int] == k);
            }
        }
    }
}

/// A scan of a series that no block is of collects nothing.
proof fn lemma_blocks_without_key(
    blocks: Seq<SeriesDataView>,
    key: Seq<char>,
    start: Option<u64>,
    end: Option<u64>,
)
    requires
        !block_keys(blocks).contains(key),
    ensures
        blocks_query(blocks, key, start, end) == Seq::<DataPointView>::empty(),
    decreases blocks.len(),
{
    if blocks.len() > 0 {
        let front = blocks.drop_last();
        assert(block_keys(blocks)[blocks.len() - 1] == blocks.last().series_key);
        if block_keys(front).contains(key) {
            let i = choose|i: int| 0 <= i < front.len() && block_keys(front)[i] == key;
            assert(block_keys(blocks)[i] == key);
        }
        lemma_blocks_without_key(front, key, start, end);
    }
}

/// A scan of a series that no segment holds collects nothing.
pub proof fn lemma_segments_without_key(
    segments: Seq<SSTableView>,
    key: Seq<char>,
    start: Option<u64>,
    end: Option<u64>,
)
    requires
        !segment_keys(segments).contains(key),
    ensures
        segments_query(segments, key, start, end) == Seq::<DataPointView>::empty(),
    decreases segments.len(),
{
    if segments.len() > 0 {
        let front = segments.drop_last();
        let last = block_keys(segments.last().state.readable());
        let before = segment_keys(front);
        if before.contains(key) {
            let i = choose|i: int| 0 <= i < before.len() && before[i] == key;
            assert(segment_keys(segments)[i] == key);
        }
        if last.contains(key) {
            let i = choose|i: int| 0 <= i < last.len() && last[i] == key;
            assert(segment_keys(segments)[before.len() + i] == key);
        }
        lemma_segments_without_key(front, key, start, end);
        lemma_blocks_without_key(segments.last().state.readable(), key, start, end);
    }
}

/// What a scan collects from the blocks of a compaction is the merge of what
/// the segments held of the series, where that is stored without loss.
proof fn lemma_compacted_query(segments: Seq<SSTableView>, keys: Seq<Seq<char>>, key: Seq<char>)
    requires
        keys.no_duplicates(),
        lossless(
            History::start(),
            samples_of(merged(segments_query(segments, key, None, None))),
        ),
    ensures
        samples_of(blocks_query(compacted_blocks(segments, keys), key, None, None)) == if keys.contains(
            key,
        ) {
            samples_of(merged(segments_query(segments, key, None, None)))
        } else {
            Seq::<(u64, u64)>::empty()
        },
    decreases keys.len(),
{
    let blocks = compacted_blocks(segments, keys);
    if keys.len() == 0 {
        assert(samples_of(blocks_query(blocks, key, None, None)) =~= Seq::<(u64, u64)>::empty());
    } else {
        let front = keys.drop_last();
        let last = keys.last();
        let before = compacted_blocks(segments, front);
        let points = merged(segments_query(segments, last, None, None));
        assert(front.no_duplicates()) by {
            assert forall|i: int, j: int| 0 <= i < front.len() && 0 <= j < front.len() && i
                != j implies front[i] != front[j] by {
                assert(keys[i] != keys[j]);
            }
        }
        lemma_compacted_query(segments, front, key);
        assert(front.contains(key) ==> keys.contains(key)) by {
            if front.contains(key) {
                let i = choose|i: int| 0 <= i < front.len() && front[i] == key;
                assert(keys[i] == key);
            }
        }
        if last == key {
            assert(keys[keys.len() - 1] == key);
            assert(!front.contains(key)) by {
                if front.contains(key) {
                    let i = choose|i: int| 0 <= i < front.len() && front[i] == key;
                    assert(keys[i] != keys[keys.len() - 1]);
                }
            }
            if points.len() > 0 {
                let block = SeriesDataView::of_points(key, points);
                assert(blocks.drop_last() =~= before);
                assert(blocks.last() == block);
                lemma_block_of_points_bounded(key, points);
                lemma_block_window(block, None, None);
                assert(samples_of(block.points()) =~= samples_of(points));
                assert(samples_of(blocks_query(blocks, key, None, None)) =~= samples_of(
                    blocks_query(before, key, None, None),
                ) + samples_of(block.points()));
                assert(samples_of(blocks_query(blocks, key, None, None)) =~= samples_of(points));
            } else {
                assert(samples_of(points) =~= Seq::<(u64, u64)>::empty());
            }
        } else {
            assert(keys.contains(key) ==> front.contains(key)) by {
                if keys.contains(key) {
                    let i = choose|i: int| 0 <= i < keys.len() && keys[i] == key;
                    assert(front[i] == key);
                }
            }
            if points.len() > 0 {
                assert(blocks.drop_last() =~= before);
                assert(blocks_query(blocks, key, None, None) =~= blocks_query(
                    before,
                    key,
                    None,
                    None,
                ));
            }
        }
    }
}

/// A compaction keeps, for each series, what the segments held of it with
/// the samples of equal timestamps collapsed to the first: that is what a
/// scan collects from the segments afterwards, where it is stored without
/// loss.
pub proof fn lemma_compaction_keeps_samples(view: EngineView, now: u64, key: Seq<char>)
    requires
        view.segments.len() >= 2,
        lossless(
            History::start(),
            samples_of(merged(segments_query(view.segments, key, None, None))),
        ),
    ensures
        samples_of(segments_query(view.compact(now).segments, key, None, None)) == samples_of(
            merged(segments_query(view.segments, key, None, None)),
        ),
{
    let after = view.compact(now);
    let keys = distinct(segment_keys(view.segments));
    lemma_distinct(segment_keys(view.segments));
    if !keys.contains(key) {
        assert(!segment_keys(view.segments).contains(key));
        lemma_segments_without_key(view.segments, key, None, None);
        lemma_merge_of_none();
    }
    if keys.len() == 0 {
        assert(samples_of(segments_query(after.segments, key, None, None)) =~= Seq::<
            (u64, u64),
        >::empty());
        assert(samples_of(Seq::<DataPointView>::empty()) =~= Seq::<(u64, u64)>::empty());
    } else {
        let blocks = compacted_blocks(view.segments, keys);
        lemma_compacted_query(view.segments, keys, key);
        assert(after.segments.drop_last() =~= Seq::<SSTableView>::empty());
        assert(after.segments.last().state.readable() == blocks);
        assert(segments_query(after.segments.drop_last(), key, None, None) =~= Seq::<
            DataPointView,
        >::empty());
        assert(segments_query(after.segments, key, None, None) =~= blocks_query(
            blocks,
            key,
            None,
            None,
        ));
        assert(samples_of(Seq::<DataPointView>::empty()) =~= Seq::<(u64, u64)>::empty());
    }
}

/// A compaction does not change the timestamps and values that an unbounded
/// scan of a series yields, where what the segments hold of it, merged, is
/// stored without loss.
pub proof fn lemma_compaction_keeps_queries(view: EngineView, now: u64, key: Seq<char>)
    requires
        view.segments.len() >= 2,
        lossless(
            History::start(),
            samples_of(merged(segments_query(view.segments, key, None, None))),
        ),
    ensures
        samples_of(view.compact(now).query(key, None, None)) == samples_of(
            view.query(key, None, None),
        ),
{
    let after = view.compact(now);
    let old_part = segments_query(view.segments, key, None, None);
    let new_part = segments_query(after.segments, key, None, None);
    let recent = view.memtable.query(key, None, None);
    lemma_compaction_keeps_samples(view, now, key);
    assert(samples_of(new_part + recent) =~= samples_of(new_part) + samples_of(recent));
    assert(samples_of(merged(old_part) + recent) =~= samples_of(merged(old_part)) + samples_of(
        recent,
    ));
    lemma_merge_respects_samples(new_part + recent, merged(old_part) + recent);
    lemma_merge_of_merged(old_part, recent);
}

/// A compaction in steps is the compaction at once: where there is a file to
/// write, ending the planned compaction after a write that went through
/// gives the state of `compact`, whose journal holds the write before the
/// removals; and ending it after a write that failed changes nothing.
pub proof fn lemma_compact_in_steps(view: EngineView, now: u64)
    ensures
        view.compaction_plan(now).is_some() ==> {
            let path = view.compaction_plan(now).unwrap().0;
            let blocks = view.compaction_plan(now).unwrap().1;
            &&& view.compact(now) == (EngineView {
                journal: view.journal.push(FileActionView::Write { path, series: blocks }),
                ..view
            }).finish_compaction(path, blocks, true)
            &&& view.finish_compaction(path, blocks, false) == view
        },
        view.segments.len() < 2 ==> view.compaction_plan(now).is_none() && view.compact(now)
            == view,
{
    if view.compaction_plan(now).is_some() {
        let path = view.compaction_plan(now).unwrap().0;
        let blocks = view.compaction_plan(now).unwrap().1;
        let before = EngineView {
            journal: view.journal.push(FileActionView::Write { path, series: blocks }),
            ..view
        };
        assert(before.finish_compaction(path, blocks, true).journal =~= view.compact(now).journal);
    }
}

} // verus!
