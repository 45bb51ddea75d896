//! Window correctness: where the summaries of the blocks bound their
//! timestamps, a range scan selects from the unbounded scan by timestamp
//! alone.

use crate::compression::History;
use crate::engine::{segments_query, EngineView};
use crate::laws::coverage::stored;
use crate::memtable::points_of;
use crate::merge_laws::lemma_merge_window;
use crate::round_trip::{lemma_round_trip, lossless};
use crate::seq_lemmas::{lemma_filter_all, lemma_filter_none};
use crate::series::{
    in_window, last_copies, lemma_timestamp_bounds, samples_of, window_of, DataPointView,
    SeriesDataView,
};
use crate::sstable::{blocks_query, SSTableView};
use vstd::prelude::*;

verus! {

/// Whether the summaries of a block bound the timestamps of its payload.
pub open spec fn well_bounded(block: SeriesDataView) -> bool {
    forall|i: int|
        0 <= i < block.samples().len() ==> block.min_timestamp <= (
        #[trigger] block.samples()[i]).0 <= block.max_timestamp
}

/// Whether the summaries of every block of every segment bound the
/// timestamps of its payload.
pub open spec fn segments_well_bounded(segments: Seq<SSTableView>) -> bool {
    forall|s: int, i: int|
        0 <= s < segments.len() && 0 <= i < segments[s].state.readable().len() ==> well_bounded(
            #[trigger] segments[s].state.readable()[i],
        )
}

/// The summaries of the block built of samples that are stored without loss
/// bound the timestamps of its payload.
pub proof fn lemma_block_of_points_bounded(key: Seq<char>, points: Seq<DataPointView>)
    requires
        lossless(History::start(), samples_of(points)),
    ensures
        well_bounded(SeriesDataView::of_points(key, points)),
        SeriesDataView::of_points(key, points).samples() == samples_of(points),
{
    let block = SeriesDataView::of_points(key, points);
    lemma_round_trip(samples_of(points));
    assert forall|i: int| 0 <= i < block.samples().len() implies block.min_timestamp <= (
    #[trigger] block.samples()[i]).0 <= block.max_timestamp by {
        lemma_timestamp_bounds(points, i);
    }
}

/// The block that a flush makes of a bucket holds the last copies of its
/// samples, and its summaries bound their timestamps, where they are stored
/// without loss.
pub proof fn lemma_block_of_bucket_bounded(key: Seq<char>, points: Seq<DataPointView>)
    requires
        lossless(History::start(), samples_of(last_copies(points))),
    ensures
        well_bounded(SeriesDataView::of_bucket(key, points)),
        SeriesDataView::of_bucket(key, points).samples() == samples_of(last_copies(points)),
{
    let built = SeriesDataView::of_points(key, last_copies(points));
    let block = SeriesDataView::of_bucket(key, points);
    lemma_block_of_points_bounded(key, last_copies(points));
    assert(block.samples() == built.samples());
    assert forall|i: int| 0 <= i < block.samples().len() implies block.min_timestamp <= (
    #[trigger] block.samples()[i]).0 <= block.max_timestamp by {
        assert(built.min_timestamp <= built.samples()[i].0 <= built.max_timestamp);
    }
}

/// An unbounded scan of a block yields all its samples.
pub proof fn lemma_block_scan(block: SeriesDataView)
    ensures
        block.query(None, None) == block.points(),
{
    lemma_filter_all(block.points(), |p: DataPointView| in_window(p.timestamp, None, None));
}

/// A window of a well bounded block selects from all its samples.
pub proof fn lemma_block_window(block: SeriesDataView, start: Option<u64>, end: Option<u64>)
    requires
        well_bounded(block),
    ensures
        block.query(None, None) == block.points(),
        block.query(start, end) == window_of(block.points(), start, end),
{
    let points = block.points();
    lemma_filter_all(points, |p: DataPointView| in_window(p.timestamp, None, None));
    if block.pruned(start, end) {
        assert forall|i: int| 0 <= i < points.len() implies !in_window(
            (#[trigger] points[i]).timestamp,
            start,
            end,
        ) by {
            assert(points[i].timestamp == block.samples()[i].0);
        }
        lemma_filter_none(points, |p: DataPointView| in_window(p.timestamp, start, end));
    }
}

/// A window over well bounded blocks selects from all their samples.
pub proof fn lemma_blocks_window(
    blocks: Seq<SeriesDataView>,
    key: Seq<char>,
    start: Option<u64>,
    end: Option<u64>,
)
    requires
        forall|i: int| 0 <= i < blocks.len() ==> well_bounded(#[trigger] blocks[i]),
    ensures
        blocks_query(blocks, key, start, end) == window_of(
            blocks_query(blocks, key, None, None),
            start,
            end,
        ),
    decreases blocks.len(),
{
    let inside = |p: DataPointView| in_window(p.timestamp, start, end);
    if blocks.len() == 0 {
        lemma_filter_all(Seq::<DataPointView>::empty(), inside);
    } else {
        let front = blocks.drop_last();
        let last = blocks.last();
        assert forall|i: int| 0 <= i < front.len() implies well_bounded(#[trigger] front[i]) by {
            assert(front[i] == blocks[i]);
        }
        lemma_blocks_window(front, key, start, end);
        assert(well_bounded(blocks[blocks.len() - 1]));
        lemma_block_window(last, start, end);
        let whole = if last.series_key == key {
            last.query(None, None)
        } else {
            Seq::empty()
        };
        if last.series_key != key {
            lemma_filter_all(Seq::<DataPointView>::empty(), inside);
        }
        Seq::filter_distributes_over_add(blocks_query(front, key, None, None), whole, inside);
    }
}

/// A window over well bounded segments selects from all their samples.
pub proof fn lemma_segments_window(
    segments: Seq<SSTableView>,
    key: Seq<char>,
    start: Option<u64>,
    end: Option<u64>,
)
    requires
        segments_well_bounded(segments),
    ensures
        segments_query(segments, key, start, end) == window_of(
            segments_query(segments, key, None, None),
            start,
            end,
        ),
    decreases segments.len(),
{
    let inside = |p: DataPointView| in_window(p.timestamp, start, end);
    if segments.len() == 0 {
        lemma_filter_all(Seq::<DataPointView>::empty(), inside);
    } else {
        let front = segments.drop_last();
        let blocks = segments.last().state.readable();
        assert(segments_well_bounded(front)) by {
            assert forall|s: int, i: int|
                0 <= s < front.len() && 0 <= i < front[s].state.readable().len() implies well_bounded(
                #[trigger] front[s].state.readable()[i],
            ) by {
                assert(front[s] == segments[s]);
                assert(well_bounded(segments[s].state.readable()[i]));
            }
        }
        lemma_segments_window(front, key, start, end);
        assert forall|i: int| 0 <= i < blocks.len() implies well_bounded(#[trigger] blocks[i]) by {
            assert(well_bounded(segments[segments.len() - 1].state.readable()[i]));
        }
        lemma_blocks_window(blocks, key, start, end);
        Seq::filter_distributes_over_add(
            segments_query(front, key, None, None),
            blocks_query(blocks, key, None, None),
            inside,
        );
    }
}

/// Window correctness: where the summaries of the blocks bound their
/// timestamps, a range scan yields exactly the samples of the unbounded scan
/// whose timestamps lie in the window.
pub proof fn lemma_query_window(
    view: EngineView,
    key: Seq<char>,
    start: Option<u64>,
    end: Option<u64>,
)
    requires
        segments_well_bounded(view.segments),
    ensures
        view.query(key, start, end) == window_of(view.query(key, None, None), start, end),
{
    let inside = |p: DataPointView| in_window(p.timestamp, start, end);
    let stored = points_of(view.memtable.buckets, key);
    lemma_segments_window(view.segments, key, start, end);
    lemma_filter_all(stored, |p: DataPointView| in_window(p.timestamp, None, None));
    assert(view.memtable.query(key, None, None) == stored);
    Seq::filter_distributes_over_add(
        segments_query(view.segments, key, None, None),
        stored,
        inside,
    );
    assert(view.collected(key, start, end) == window_of(
        view.collected(key, None, None),
        start,
        end,
    ));
    lemma_merge_window(view.collected(key, None, None), start, end);
}

/// A block that the summaries prune yields nothing, whatever its payload.
pub proof fn lemma_pruned_block_yields_nothing(
    block: SeriesDataView,
    payload: Seq<u8>,
    start: Option<u64>,
    end: Option<u64>,
)
    requires
        block.pruned(start, end),
    ensures
        (SeriesDataView { compressed_data: payload, ..block }).query(start, end) == Seq::<
            DataPointView,
        >::empty(),
{
}

} // verus!
