//! Merging the samples collected from several stores: ordered by timestamp,
//! one sample for each timestamp, the first collected.

use crate::series::{
    first_at, has_timestamp, lemma_first_at, lemma_first_at_exists, point_views, DataPoint,
    DataPointView,
};
use vstd::prelude::*;

verus! {

/// Timestamps strictly increase along the sequence.
pub open spec fn strictly_ordered(points: Seq<DataPointView>) -> bool {
    forall|i: int, j: int|
        0 <= i < j < points.len() ==> (#[trigger] points[i]).timestamp < (
        #[trigger] points[j]).timestamp
}

/// Whether `merged` is what stably sorting `collected` by timestamp and
/// keeping the first sample of each run of equal timestamps gives: timestamps
/// strictly increase, every sample is the first collected one with its
/// timestamp, and every collected timestamp occurs.
pub open spec fn is_merge_of(merged: Seq<DataPointView>, collected: Seq<DataPointView>) -> bool {
    &&& strictly_ordered(merged)
    &&& forall|i: int| 0 <= i < merged.len() ==> #[trigger] is_first_of(merged, collected, i)
    &&& forall|k: int| 0 <= k < collected.len() ==> #[trigger] is_kept_in(merged, collected, k)
}

/// The sample at place `i` of `merged` is the first of `collected` with its
/// timestamp.
pub open spec fn is_first_of(merged: Seq<DataPointView>, collected: Seq<DataPointView>, i: int) -> bool {
    has_timestamp(collected, merged[i].timestamp) && merged[i] == collected[first_at(
        collected,
        merged[i].timestamp,
    )]
}

/// The timestamp of the sample at place `k` of `collected` occurs in
/// `merged`.
pub open spec fn is_kept_in(merged: Seq<DataPointView>, collected: Seq<DataPointView>, k: int) -> bool {
    has_timestamp(merged, collected[k].timestamp)
}

/// The merge of `collected`.
pub open spec fn merged(collected: Seq<DataPointView>) -> Seq<DataPointView> {
    choose|m: Seq<DataPointView>| is_merge_of(m, collected)
}

/// Two merges of the same samples are the same.
pub proof fn lemma_merge_unique(
    a: Seq<DataPointView>,
    b: Seq<DataPointView>,
    collected: Seq<DataPointView>,
)
    requires
        is_merge_of(a, collected),
        is_merge_of(b, collected),
    ensures
        a == b,
    decreases a.len() + b.len(),
{
    if a.len() == 0 || b.len() == 0 {
        if a.len() > 0 {
            assert(is_first_of(a, collected, 0));
            let k = first_at(collected, a[0].timestamp);
            lemma_first_at_exists(collected, a[0].timestamp);
            assert(is_kept_in(b, collected, k));
        }
        if b.len() > 0 {
            assert(is_first_of(b, collected, 0));
            let k = first_at(collected, b[0].timestamp);
            lemma_first_at_exists(collected, b[0].timestamp);
            assert(is_kept_in(a, collected, k));
        }
        assert(a =~= b);
    } else {
        lemma_same_timestamps(a, b, collected);
        lemma_same_timestamps(b, a, collected);
        lemma_ordered_same_timestamps(a, b);
        assert forall|i: int| 0 <= i < a.len() implies a[i] == b[i] by {
            assert(is_first_of(a, collected, i));
            assert(is_first_of(b, collected, i));
        }
        assert(a =~= b);
    }
}

/// Every timestamp of one merge occurs in another merge of the same samples.
proof fn lemma_same_timestamps(
    a: Seq<DataPointView>,
    b: Seq<DataPointView>,
    collected: Seq<DataPointView>,
)
    requires
        is_merge_of(a, collected),
        is_merge_of(b, collected),
    ensures
        forall|i: int| 0 <= i < a.len() ==> has_timestamp(b, (#[trigger] a[i]).timestamp),
{
    assert forall|i: int| 0 <= i < a.len() implies has_timestamp(b, (#[trigger] a[i]).timestamp) by {
        assert(is_first_of(a, collected, i));
        lemma_first_at_exists(collected, a[i].timestamp);
        let k = first_at(collected, a[i].timestamp);
        assert(is_kept_in(b, collected, k));
    }
}

/// Two strictly ordered sequences with the same timestamps have them at the
/// same places.
proof fn lemma_ordered_same_timestamps(a: Seq<DataPointView>, b: Seq<DataPointView>)
    requires
        strictly_ordered(a),
        strictly_ordered(b),
        forall|i: int| 0 <= i < a.len() ==> has_timestamp(b, (#[trigger] a[i]).timestamp),
        forall|i: int| 0 <= i < b.len() ==> has_timestamp(a, (#[trigger] b[i]).timestamp),
    ensures
        a.len() == b.len(),
        forall|i: int| 0 <= i < a.len() ==> (#[trigger] a[i]).timestamp == b[i].timestamp,
    decreases a.len(),
{
    if a.len() == 0 {
        if b.len() > 0 {
            assert(has_timestamp(a, b[0].timestamp));
        }
    } else if b.len() == 0 {
        assert(has_timestamp(b, a[0].timestamp));
    } else {
        let x = a.last();
        let y = b.last();
        // The greatest timestamps agree.
        assert(has_timestamp(b, x.timestamp));
        assert(has_timestamp(a, y.timestamp));
        let jx = choose|j: int| 0 <= j < b.len() && (#[trigger] b[j]).timestamp == x.timestamp;
        let jy = choose|j: int| 0 <= j < a.len() && (#[trigger] a[j]).timestamp == y.timestamp;
        assert(b[jx].timestamp <= y.timestamp);
        assert(a[jy].timestamp <= x.timestamp);
        assert(x.timestamp == y.timestamp);
        let a0 = a.drop_last();
        let b0 = b.drop_last();
        assert forall|i: int| 0 <= i < a0.len() implies has_timestamp(
            b0,
            (#[trigger] a0[i]).timestamp,
        ) by {
            assert(has_timestamp(b, a[i].timestamp));
            let j = choose|j: int| 0 <= j < b.len() && (#[trigger] b[j]).timestamp == a[i].timestamp;
            assert(a[i].timestamp < x.timestamp);
            assert(j < b.len() - 1);
            assert(b0[j].timestamp == a0[i].timestamp);
        }
        assert forall|i: int| 0 <= i < b0.len() implies has_timestamp(
            a0,
            (#[trigger] b0[i]).timestamp,
        ) by {
            assert(has_timestamp(a, b[i].timestamp));
            let j = choose|j: int| 0 <= j < a.len() && (#[trigger] a[j]).timestamp == b[i].timestamp;
            assert(b[i].timestamp < y.timestamp);
            assert(j < a.len() - 1);
            assert(a0[j].timestamp == b0[i].timestamp);
        }
        lemma_ordered_same_timestamps(a0, b0);
        assert forall|i: int| 0 <= i < a.len() implies (#[trigger] a[i]).timestamp
            == b[i].timestamp by {
            if i < a.len() - 1 {
                assert(a0[i].timestamp == b0[i].timestamp);
            }
        }
    }
}

/// What the exec merge returns is the merge.
pub proof fn lemma_is_merged(m: Seq<DataPointView>, collected: Seq<DataPointView>)
    requires
        is_merge_of(m, collected),
    ensures
        m == merged(collected),
{
    lemma_merge_unique(m, merged(collected), collected);
}

/// Appending a sample does not move the first place of a timestamp that
/// already occurs.
pub proof fn lemma_first_at_push(points: Seq<DataPointView>, extra: DataPointView, timestamp: u64)
    requires
        has_timestamp(points, timestamp),
    ensures
        has_timestamp(points.push(extra), timestamp),
        first_at(points.push(extra), timestamp) == first_at(points, timestamp),
{
    lemma_first_at_exists(points, timestamp);
    let f = first_at(points, timestamp);
    let longer = points.push(extra);
    assert(longer[f].timestamp == timestamp);
    assert forall|k: int| 0 <= k < f implies (#[trigger] longer[k]).timestamp != timestamp by {
        assert(points[k].timestamp != timestamp);
    }
    lemma_first_at(longer, timestamp, f);
}

/// A merge stays a merge of the samples and one more whose timestamp it
/// already has.
pub proof fn lemma_merge_skip(before: Seq<DataPointView>, seen: Seq<DataPointView>, point: DataPointView)
    requires
        is_merge_of(before, seen),
        has_timestamp(before, point.timestamp),
    ensures
        is_merge_of(before, seen.push(point)),
{
    let longer = seen.push(point);
    assert forall|k: int| 0 <= k < before.len() implies #[trigger] is_first_of(
        before,
        longer,
        k,
    ) by {
        assert(is_first_of(before, seen, k));
        lemma_first_at_push(seen, point, before[k].timestamp);
        lemma_first_at_exists(seen, before[k].timestamp);
    }
    assert forall|k: int| 0 <= k < longer.len() implies #[trigger] is_kept_in(
        before,
        longer,
        k,
    ) by {
        if k < seen.len() {
            assert(is_kept_in(before, seen, k));
        }
    }
}

/// A merge with a sample of a new timestamp put at its place in the order is
/// a merge of the samples and that one more.
pub proof fn lemma_merge_insert(
    before: Seq<DataPointView>,
    seen: Seq<DataPointView>,
    point: DataPointView,
    place: int,
)
    requires
        is_merge_of(before, seen),
        0 <= place <= before.len(),
        forall|k: int| 0 <= k < place ==> (#[trigger] before[k]).timestamp < point.timestamp,
        forall|k: int|
            place <= k < before.len() ==> (#[trigger] before[k]).timestamp > point.timestamp,
    ensures
        is_merge_of(before.insert(place, point), seen.push(point)),
{
    let longer = seen.push(point);
    let after = before.insert(place, point);
    let timestamp = point.timestamp;
    assert forall|k: int| 0 <= k < seen.len() implies (#[trigger] longer[k]).timestamp
        != timestamp by {
        assert(is_kept_in(before, seen, k));
        let j = choose|j: int|
            0 <= j < before.len() && (#[trigger] before[j]).timestamp == seen[k].timestamp;
        assert(before[j].timestamp != timestamp);
    }
    lemma_first_at(longer, timestamp, seen.len() as int);
    assert(strictly_ordered(after)) by {
        assert forall|a: int, b: int| 0 <= a < b < after.len() implies (
        #[trigger] after[a]).timestamp < (#[trigger] after[b]).timestamp by {
            let a0 = if a < place {
                a
            } else {
                a - 1
            };
            let b0 = if b < place {
                b
            } else {
                b - 1
            };
            if a != place && b != place {
                assert(before[a0].timestamp < before[b0].timestamp);
            } else if a == place {
                assert(before[b0].timestamp > timestamp);
            } else {
                assert(before[a0].timestamp < timestamp);
            }
        }
    }
    assert forall|k: int| 0 <= k < after.len() implies #[trigger] is_first_of(after, longer, k) by {
        if k != place {
            let k0 = if k < place {
                k
            } else {
                k - 1
            };
            assert(after[k] == before[k0]);
            assert(is_first_of(before, seen, k0));
            lemma_first_at_push(seen, point, before[k0].timestamp);
            lemma_first_at_exists(seen, before[k0].timestamp);
        }
    }
    assert forall|k: int| 0 <= k < longer.len() implies #[trigger] is_kept_in(after, longer, k) by {
        if k < seen.len() {
            assert(is_kept_in(before, seen, k));
            let j = choose|j: int|
                0 <= j < before.len() && (#[trigger] before[j]).timestamp == seen[k].timestamp;
            let j1 = if j < place {
                j
            } else {
                j + 1
            };
            assert(after[j1].timestamp == longer[k].timestamp);
        } else {
            assert(after[place].timestamp == timestamp);
        }
    }
}

/// Merges samples: ordered by timestamp, and of the samples with one
/// timestamp only the first in `collected`.
pub fn merge_by_timestamp(collected: &Vec<DataPoint>) -> (result: Vec<DataPoint>)
    ensures
        point_views(result@) == merged(point_views(collected@)),
{
    let ghost all = point_views(collected@);
    let mut result: Vec<DataPoint> = Vec::new();
    let mut i: usize = 0;
    assert(is_merge_of(point_views(result@), all.take(0)));
    while i < collected.len()
        invariant
            i <= collected.len(),
            all == point_views(collected@),
            is_merge_of(point_views(result@), all.take(i as int)),
        decreases collected.len() - i,
    {
        let timestamp: u64 = collected[i].timestamp;
        let ghost seen = all.take(i as int);
        let ghost before = point_views(result@);
        let ghost point = collected[i as int]@;
        let mut place: usize = result.len();
        while place > 0 && result[place - 1].timestamp > timestamp
            invariant
                place <= result.len(),
                before == point_views(result@),
                forall|k: int|
                    place <= k < before.len() ==> (#[trigger] before[k]).timestamp > timestamp,
            decreases place,
        {
            place = place - 1;
        }
        assert(all.take(i + 1) =~= seen.push(point));
        if place > 0 && result[place - 1].timestamp == timestamp {
            proof {
                assert(before[place - 1].timestamp == timestamp);
                lemma_merge_skip(before, seen, point);
            }
        } else {
            result.insert(place, collected[i].duplicate());
            proof {
                assert forall|k: int| 0 <= k < place implies (#[trigger] before[k]).timestamp
                    < timestamp by {
                    assert(before[place - 1].timestamp < timestamp);
                    if k < place - 1 {
                        assert(before[k].timestamp < before[place - 1].timestamp);
                    }
                }
                lemma_merge_insert(before, seen, point, place as int);
                assert(point_views(result@) =~= before.insert(place as int, point));
            }
        }
        i = i + 1;
    }
    proof {
        assert(all.take(i as int) =~= all);
        lemma_is_merged(point_views(result@), all);
    }
    result
}

} // verus!
