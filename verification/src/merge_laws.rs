//! Facts about merges: every sequence of samples has one, it commutes with
//! windows, and it can be taken in stages.

use crate::merge::{
    is_first_of, is_kept_in, is_merge_of, lemma_first_at_push, lemma_is_merged, lemma_merge_insert,
    lemma_merge_skip, merged, strictly_ordered,
};
use crate::seq_lemmas::{lemma_filter_all, lemma_filter_element};
use crate::series::{
    first_at, has_timestamp, in_window, lemma_first_at, lemma_first_at_exists, samples_of,
    window_of, DataPointView,
};
use vstd::prelude::*;

verus! {

/// How many samples of a strictly ordered sequence come before `timestamp`.
pub open spec fn rank(points: Seq<DataPointView>, timestamp: u64) -> int
    decreases points.len(),
{
    if points.len() == 0 {
        0
    } else if points.last().timestamp < timestamp {
        points.len() as int
    } else {
        rank(points.drop_last(), timestamp)
    }
}

proof fn lemma_rank(points: Seq<DataPointView>, timestamp: u64)
    requires
        strictly_ordered(points),
        !has_timestamp(points, timestamp),
    ensures
        0 <= rank(points, timestamp) <= points.len(),
        forall|k: int|
            0 <= k < rank(points, timestamp) ==> (#[trigger] points[k]).timestamp < timestamp,
        forall|k: int|
            rank(points, timestamp) <= k < points.len() ==> (#[trigger] points[k]).timestamp
                > timestamp,
    decreases points.len(),
{
    if points.len() > 0 {
        let last = points.last();
        let front = points.drop_last();
        if last.timestamp < timestamp {
            assert forall|k: int| 0 <= k < points.len() implies (#[trigger] points[k]).timestamp
                < timestamp by {
                if k < points.len() - 1 {
                    assert(points[k].timestamp < points[points.len() - 1].timestamp);
                }
            }
        } else {
            assert(points[points.len() - 1].timestamp != timestamp);
            assert(strictly_ordered(front)) by {
                assert forall|i: int, j: int| 0 <= i < j < front.len() implies (
                #[trigger] front[i]).timestamp < (#[trigger] front[j]).timestamp by {
                    assert(points[i].timestamp < points[j].timestamp);
                }
            }
            if has_timestamp(front, timestamp) {
                let j = choose|j: int|
                    0 <= j < front.len() && (#[trigger] front[j]).timestamp == timestamp;
                assert(points[j].timestamp == timestamp);
            }
            lemma_rank(front, timestamp);
            assert forall|k: int| rank(points, timestamp) <= k < points.len() implies (
            #[trigger] points[k]).timestamp > timestamp by {
                if k < points.len() - 1 {
                    assert(front[k].timestamp > timestamp);
                }
            }
            assert forall|k: int| 0 <= k < rank(points, timestamp) implies (
            #[trigger] points[k]).timestamp < timestamp by {
                assert(front[k].timestamp < timestamp);
            }
        }
    }
}

/// Every sequence of samples has a merge, and `merged` is it.
pub proof fn lemma_merge_exists(collected: Seq<DataPointView>)
    ensures
        is_merge_of(merged(collected), collected),
    decreases collected.len(),
{
    if collected.len() == 0 {
        assert(is_merge_of(Seq::<DataPointView>::empty(), collected));
    } else {
        let seen = collected.drop_last();
        let point = collected.last();
        lemma_merge_exists(seen);
        let before = merged(seen);
        assert(collected =~= seen.push(point));
        if has_timestamp(before, point.timestamp) {
            lemma_merge_skip(before, seen, point);
        } else {
            lemma_rank(before, point.timestamp);
            lemma_merge_insert(before, seen, point, rank(before, point.timestamp));
        }
    }
}

/// The samples whose timestamps pass `keep`, in order.
pub open spec fn selected(points: Seq<DataPointView>, keep: spec_fn(u64) -> bool) -> Seq<
    DataPointView,
> {
    points.filter(|p: DataPointView| keep(p.timestamp))
}

/// The timestamps of a selection are those of the samples that pass.
pub proof fn lemma_selected_timestamps(
    points: Seq<DataPointView>,
    keep: spec_fn(u64) -> bool,
    timestamp: u64,
)
    ensures
        has_timestamp(selected(points, keep), timestamp) == (has_timestamp(points, timestamp)
            && keep(timestamp)),
{
    let inside = |p: DataPointView| keep(p.timestamp);
    let window = selected(points, keep);
    if has_timestamp(window, timestamp) {
        let j = choose|j: int| 0 <= j < window.len() && (#[trigger] window[j]).timestamp == timestamp;
        lemma_filter_element(points, inside, j);
        let k = choose|k: int| 0 <= k < points.len() && #[trigger] points[k] == window[j];
        assert(points[k].timestamp == timestamp);
    }
    if has_timestamp(points, timestamp) && keep(timestamp) {
        let k = choose|k: int| 0 <= k < points.len() && (#[trigger] points[k]).timestamp == timestamp;
        points.lemma_filter_contains(inside, k);
        let j = choose|j: int| 0 <= j < window.len() && window[j] == points[k];
        assert(window[j].timestamp == timestamp);
    }
}

/// The first sample of a selection with a timestamp is the first of all the
/// samples with it.
pub proof fn lemma_selected_first(
    points: Seq<DataPointView>,
    keep: spec_fn(u64) -> bool,
    timestamp: u64,
)
    requires
        has_timestamp(points, timestamp),
        keep(timestamp),
    ensures
        has_timestamp(selected(points, keep), timestamp),
        selected(points, keep)[first_at(selected(points, keep), timestamp)]
            == points[first_at(points, timestamp)],
    decreases points.len(),
{
    let inside = |p: DataPointView| keep(p.timestamp);
    lemma_selected_timestamps(points, keep, timestamp);
    let front = points.drop_last();
    let last = points.last();
    assert(points.len() > 0);
    assert(points =~= front.push(last));
    front.lemma_filter_push(last, inside);
    lemma_selected_timestamps(front, keep, timestamp);
    let front_window = selected(front, keep);
    if has_timestamp(front, timestamp) {
        lemma_selected_first(front, keep, timestamp);
        lemma_first_at_push(front, last, timestamp);
        lemma_first_at_exists(front, timestamp);
        if inside(last) {
            lemma_first_at_push(front_window, last, timestamp);
            lemma_first_at_exists(front_window, timestamp);
        }
    } else {
        assert(last.timestamp == timestamp) by {
            let k = choose|k: int|
                0 <= k < points.len() && (#[trigger] points[k]).timestamp == timestamp;
            if k < front.len() {
                assert(front[k].timestamp == timestamp);
            }
        }
        assert forall|k: int| 0 <= k < front.len() implies (#[trigger] points[k]).timestamp
            != timestamp by {
            assert(front[k].timestamp != timestamp);
        }
        lemma_first_at(points, timestamp, front.len() as int);
        let window = front_window.push(last);
        assert forall|k: int| 0 <= k < front_window.len() implies (#[trigger] window[k]).timestamp
            != timestamp by {
            assert(front_window[k].timestamp != timestamp);
        }
        lemma_first_at(window, timestamp, front_window.len() as int);
    }
}

/// A selection of a strictly ordered sequence is strictly ordered.
pub proof fn lemma_selected_ordered(points: Seq<DataPointView>, keep: spec_fn(u64) -> bool)
    requires
        strictly_ordered(points),
    ensures
        strictly_ordered(selected(points, keep)),
    decreases points.len(),
{
    let inside = |p: DataPointView| keep(p.timestamp);
    if points.len() == 0 {
        lemma_filter_all(points, inside);
    } else {
        let front = points.drop_last();
        let last = points.last();
        assert(points =~= front.push(last));
        front.lemma_filter_push(last, inside);
        assert(strictly_ordered(front)) by {
            assert forall|i: int, j: int| 0 <= i < j < front.len() implies (
            #[trigger] front[i]).timestamp < (#[trigger] front[j]).timestamp by {
                assert(points[i].timestamp < points[j].timestamp);
            }
        }
        lemma_selected_ordered(front, keep);
        let front_window = selected(front, keep);
        if inside(last) {
            let window = front_window.push(last);
            assert forall|i: int, j: int| 0 <= i < j < window.len() implies (
            #[trigger] window[i]).timestamp < (#[trigger] window[j]).timestamp by {
                if j < front_window.len() {
                    assert(front_window[i].timestamp < front_window[j].timestamp);
                } else {
                    lemma_filter_element(front, inside, i);
                    let k = choose|k: int|
                        0 <= k < front.len() && #[trigger] front[k] == front_window[i];
                    assert(points[k].timestamp < points[points.len() - 1].timestamp);
                }
            }
        }
    }
}

/// Merging a selection of samples gives the selection of the merge.
pub proof fn lemma_merge_selected(collected: Seq<DataPointView>, keep: spec_fn(u64) -> bool)
    ensures
        merged(selected(collected, keep)) == selected(merged(collected), keep),
{
    let inside = |p: DataPointView| keep(p.timestamp);
    lemma_merge_exists(collected);
    let all = merged(collected);
    let window = selected(all, keep);
    let inputs = selected(collected, keep);
    lemma_selected_ordered(all, keep);
    assert forall|i: int| 0 <= i < window.len() implies #[trigger] is_first_of(
        window,
        inputs,
        i,
    ) by {
        lemma_filter_element(all, inside, i);
        let j = choose|j: int| 0 <= j < all.len() && #[trigger] all[j] == window[i];
        assert(is_first_of(all, collected, j));
        lemma_selected_first(collected, keep, window[i].timestamp);
    }
    assert forall|k: int| 0 <= k < inputs.len() implies #[trigger] is_kept_in(
        window,
        inputs,
        k,
    ) by {
        lemma_filter_element(collected, inside, k);
        let j = choose|j: int| 0 <= j < collected.len() && #[trigger] collected[j] == inputs[k];
        assert(is_kept_in(all, collected, j));
        lemma_selected_timestamps(all, keep, inputs[k].timestamp);
    }
    lemma_is_merged(window, inputs);
}

/// Merging the samples of a window gives the window of the merge.
pub proof fn lemma_merge_window(collected: Seq<DataPointView>, start: Option<u64>, end: Option<u64>)
    ensures
        merged(window_of(collected, start, end)) == window_of(merged(collected), start, end),
{
    let keep = |t: u64| in_window(t, start, end);
    let inside = |p: DataPointView| in_window(p.timestamp, start, end);
    let chosen = |p: DataPointView| keep(p.timestamp);
    assert(inside =~= chosen);
    lemma_merge_selected(collected, keep);
}

/// The merge of no samples is empty.
pub proof fn lemma_merge_of_none()
    ensures
        merged(Seq::<DataPointView>::empty()) == Seq::<DataPointView>::empty(),
{
    let none = Seq::<DataPointView>::empty();
    assert(is_merge_of(none, none));
    lemma_is_merged(none, none);
}

/// A timestamp occurs in two sequences in a row where it occurs in one of
/// them.
proof fn lemma_has_timestamp_add(p: Seq<DataPointView>, q: Seq<DataPointView>, timestamp: u64)
    ensures
        has_timestamp(p + q, timestamp) == (has_timestamp(p, timestamp) || has_timestamp(
            q,
            timestamp,
        )),
{
    let both = p + q;
    if has_timestamp(both, timestamp) {
        let k = choose|k: int| 0 <= k < both.len() && (#[trigger] both[k]).timestamp == timestamp;
        if k < p.len() {
            assert(p[k] == both[k]);
            assert(has_timestamp(p, timestamp));
        } else {
            assert(q[k - p.len()] == both[k]);
            assert(has_timestamp(q, timestamp));
        }
    }
    if has_timestamp(p, timestamp) {
        let k = choose|k: int| 0 <= k < p.len() && (#[trigger] p[k]).timestamp == timestamp;
        assert(both[k] == p[k]);
        assert(has_timestamp(both, timestamp));
    }
    if has_timestamp(q, timestamp) {
        let k = choose|k: int| 0 <= k < q.len() && (#[trigger] q[k]).timestamp == timestamp;
        assert(both[p.len() + k] == q[k]);
        assert(has_timestamp(both, timestamp));
    }
}

/// The first place of a timestamp in two sequences in a row is its first
/// place in the first, where it occurs there.
proof fn lemma_first_at_left(p: Seq<DataPointView>, q: Seq<DataPointView>, timestamp: u64)
    requires
        has_timestamp(p, timestamp),
    ensures
        first_at(p + q, timestamp) == first_at(p, timestamp),
{
    let both = p + q;
    lemma_first_at_exists(p, timestamp);
    let f = first_at(p, timestamp);
    assert(both[f] == p[f]);
    assert forall|k: int| 0 <= k < f implies (#[trigger] both[k]).timestamp != timestamp by {
        assert(both[k] == p[k]);
    }
    lemma_first_at(both, timestamp, f);
}

/// The first place of a timestamp in two sequences in a row is after the
/// first, at its first place in the second, where it occurs only there.
proof fn lemma_first_at_right(p: Seq<DataPointView>, q: Seq<DataPointView>, timestamp: u64)
    requires
        !has_timestamp(p, timestamp),
        has_timestamp(q, timestamp),
    ensures
        first_at(p + q, timestamp) == p.len() + first_at(q, timestamp),
{
    let both = p + q;
    lemma_first_at_exists(q, timestamp);
    let f = first_at(q, timestamp);
    assert(both[p.len() + f] == q[f]);
    assert forall|k: int| 0 <= k < p.len() + f implies (#[trigger] both[k]).timestamp
        != timestamp by {
        if k < p.len() {
            assert(both[k] == p[k]);
            assert(p[k].timestamp != timestamp);
        } else {
            assert(both[k] == q[k - p.len()]);
        }
    }
    lemma_first_at(both, timestamp, p.len() + f);
}

/// The first place of a timestamp in two sequences in a row: in the first,
/// where it occurs there, else after it, in the second.
proof fn lemma_first_at_add(p: Seq<DataPointView>, q: Seq<DataPointView>, timestamp: u64)
    ensures
        has_timestamp(p + q, timestamp) == (has_timestamp(p, timestamp) || has_timestamp(
            q,
            timestamp,
        )),
        has_timestamp(p, timestamp) ==> first_at(p + q, timestamp) == first_at(p, timestamp),
        !has_timestamp(p, timestamp) && has_timestamp(q, timestamp) ==> first_at(p + q, timestamp)
            == p.len() + first_at(q, timestamp),
{
    lemma_has_timestamp_add(p, q, timestamp);
    if has_timestamp(p, timestamp) {
        lemma_first_at_left(p, q, timestamp);
    } else if has_timestamp(q, timestamp) {
        lemma_first_at_right(p, q, timestamp);
    }
}

/// Merging the merge of some samples with more samples is merging all of
/// them.
pub proof fn lemma_merge_of_merged(a: Seq<DataPointView>, b: Seq<DataPointView>)
    ensures
        merged(merged(a) + b) == merged(a + b),
{
    lemma_merge_exists(a);
    lemma_merge_exists(a + b);
    let ma = merged(a);
    let m = merged(a + b);
    let c = ma + b;
    assert forall|i: int| 0 <= i < m.len() implies #[trigger] is_first_of(m, c, i) by {
        let t = m[i].timestamp;
        assert(is_first_of(m, a + b, i));
        lemma_first_at_add(a, b, t);
        lemma_first_at_add(ma, b, t);
        if has_timestamp(a, t) {
            lemma_first_at_exists(a, t);
            let f = first_at(a, t);
            assert(is_kept_in(ma, a, f));
            lemma_first_at_exists(ma, t);
            let j = first_at(ma, t);
            assert(is_first_of(ma, a, j));
            assert(c[j] == ma[j]);
        } else {
            if has_timestamp(ma, t) {
                let j = choose|j: int| 0 <= j < ma.len() && (#[trigger] ma[j]).timestamp == t;
                assert(is_first_of(ma, a, j));
            }
            lemma_first_at_exists(b, t);
            assert(c[ma.len() + first_at(b, t)] == b[first_at(b, t)]);
            assert((a + b)[a.len() + first_at(b, t)] == b[first_at(b, t)]);
        }
    }
    assert forall|k: int| 0 <= k < c.len() implies #[trigger] is_kept_in(m, c, k) by {
        if k < ma.len() {
            assert(is_first_of(ma, a, k));
            lemma_first_at_exists(a, ma[k].timestamp);
            let f = first_at(a, ma[k].timestamp);
            assert((a + b)[f] == a[f]);
            assert(is_kept_in(m, a + b, f));
        } else {
            let f = a.len() + (k - ma.len());
            assert((a + b)[f] == b[k - ma.len()]);
            assert(is_kept_in(m, a + b, f));
        }
    }
    lemma_is_merged(m, c);
}

/// The timestamps and values of a merge depend on the timestamps and values
/// of the samples alone, not on their tags.
pub proof fn lemma_merge_respects_samples(x: Seq<DataPointView>, y: Seq<DataPointView>)
    requires
        samples_of(x) == samples_of(y),
    ensures
        samples_of(merged(x)) == samples_of(merged(y)),
{
    lemma_merge_exists(x);
    let mx = merged(x);
    let my = Seq::new(mx.len(), |i: int| y[first_at(x, mx[i].timestamp)]);
    assert(x.len() == y.len()) by {
        assert(samples_of(x).len() == x.len());
        assert(samples_of(y).len() == y.len());
    }
    assert forall|k: int| 0 <= k < x.len() implies (#[trigger] x[k]).timestamp == y[k].timestamp
        && x[k].value_bits == y[k].value_bits by {
        assert(samples_of(x)[k] == samples_of(y)[k]);
    }
    assert forall|t: u64| #[trigger] has_timestamp(x, t) implies has_timestamp(y, t) && first_at(
        y,
        t,
    ) == first_at(x, t) by {
        lemma_first_at_exists(x, t);
        let f = first_at(x, t);
        assert(y[f].timestamp == t);
        assert forall|k: int| 0 <= k < f implies (#[trigger] y[k]).timestamp != t by {
            assert(x[k].timestamp != t);
        }
        lemma_first_at(y, t, f);
    }
    assert forall|i: int| 0 <= i < mx.len() implies (#[trigger] my[i]).timestamp
        == mx[i].timestamp && my[i].value_bits == mx[i].value_bits && is_first_of(my, y, i) by {
        assert(is_first_of(mx, x, i));
        assert(has_timestamp(x, mx[i].timestamp));
        lemma_first_at_exists(x, mx[i].timestamp);
    }
    assert(strictly_ordered(my)) by {
        assert forall|i: int, j: int| 0 <= i < j < my.len() implies (#[trigger] my[i]).timestamp < (
        #[trigger] my[j]).timestamp by {
            assert(mx[i].timestamp < mx[j].timestamp);
        }
    }
    assert forall|k: int| 0 <= k < y.len() implies #[trigger] is_kept_in(my, y, k) by {
        assert(is_kept_in(mx, x, k));
        let j = choose|j: int| 0 <= j < mx.len() && (#[trigger] mx[j]).timestamp == x[k].timestamp;
        assert(my[j].timestamp == y[k].timestamp);
    }
    lemma_is_merged(my, y);
    assert(samples_of(my) =~= samples_of(mx));
}

} // verus!
