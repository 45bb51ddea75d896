//! Facts about filtered sequences.

use vstd::prelude::*;

verus! {

/// A filter keeps a sequence whose elements all pass.
pub proof fn lemma_filter_all<A>(s: Seq<A>, pred: spec_fn(A) -> bool)
    requires
        forall|i: int| 0 <= i < s.len() ==> pred(#[trigger] s[i]),
    ensures
        s.filter(pred) == s,
    decreases s.len(),
{
    if s.len() == 0 {
        assert(s =~= Seq::<A>::empty());
        Seq::<A>::empty().lemma_filter_len(pred);
        assert(s.filter(pred) =~= s);
    } else {
        lemma_filter_all(s.drop_last(), pred);
        assert(s =~= s.drop_last().push(s.last()));
        s.drop_last().lemma_filter_push(s.last(), pred);
    }
}

/// A filter leaves nothing of a sequence whose elements all fail.
pub proof fn lemma_filter_none<A>(s: Seq<A>, pred: spec_fn(A) -> bool)
    requires
        forall|i: int| 0 <= i < s.len() ==> !pred(#[trigger] s[i]),
    ensures
        s.filter(pred) == Seq::<A>::empty(),
    decreases s.len(),
{
    if s.len() == 0 {
        assert(s =~= Seq::<A>::empty());
        Seq::<A>::empty().lemma_filter_len(pred);
        assert(s.filter(pred) =~= Seq::<A>::empty());
    } else {
        lemma_filter_none(s.drop_last(), pred);
        assert(s =~= s.drop_last().push(s.last()));
        s.drop_last().lemma_filter_push(s.last(), pred);
    }
}

/// Every element of a filtered sequence passes and is an element of the
/// sequence.
pub proof fn lemma_filter_element<A>(s: Seq<A>, pred: spec_fn(A) -> bool, i: int)
    requires
        0 <= i < s.filter(pred).len(),
    ensures
        pred(s.filter(pred)[i]),
        exists|j: int| 0 <= j < s.len() && #[trigger] s[j] == s.filter(pred)[i],
{
    s.lemma_filter_pred(pred, i);
    let e = s.filter(pred)[i];
    assert(s.filter(pred).contains(e));
    s.lemma_filter_contains_rev(pred, e);
    let j = choose|j: int| 0 <= j < s.len() && s[j] == e;
    assert(s[j] == s.filter(pred)[i]);
}

/// A filter that only the element at one place fails removes that element.
pub proof fn lemma_filter_removes_one<A>(s: Seq<A>, pred: spec_fn(A) -> bool, place: int)
    requires
        0 <= place < s.len(),
        !pred(s[place]),
        forall|i: int| 0 <= i < s.len() && i != place ==> pred(#[trigger] s[i]),
    ensures
        s.filter(pred) == s.remove(place),
    decreases s.len(),
{
    let front = s.drop_last();
    let last = s.last();
    assert(s =~= front.push(last));
    front.lemma_filter_push(last, pred);
    if place == s.len() - 1 {
        assert forall|i: int| 0 <= i < front.len() implies pred(#[trigger] front[i]) by {
            assert(front[i] == s[i]);
        }
        lemma_filter_all(front, pred);
        assert(s.remove(place) =~= front);
    } else {
        assert(front[place] == s[place]);
        assert forall|i: int| 0 <= i < front.len() && i != place implies pred(
            #[trigger] front[i],
        ) by {
            assert(front[i] == s[i]);
        }
        lemma_filter_removes_one(front, pred, place);
        assert(pred(s[s.len() - 1]));
        assert(s.remove(place) =~= front.remove(place).push(last));
    }
}

} // verus!
