//! Facts about filtered sequences.

use vstd::prelude::*;

verus! {

/// Filtering one element more keeps what was filtered so far and adds
/// the new element if it passes.
pub proof fn lemma_filter_take_step<A>(s: Seq<A>, pred: spec_fn(A) -> bool, k: int)
    requires
        0 <= k < s.len(),
    ensures
        s.take(k + 1).filter(pred) == if pred(s[k]) {
            s.take(k).filter(pred).push(s[k])
        } else {
            s.take(k).filter(pred)
        },
{
    reveal(Seq::filter);
    assert(s.take(k + 1).drop_last() =~= s.take(k));
}

/// A filter keeps exactly the elements that pass, and it keeps them in
/// their order: what ascends before ascends after.
pub proof fn lemma_filter_ascending<A>(s: Seq<A>, pred: spec_fn(A) -> bool, rank: spec_fn(A) -> int)
    requires
        forall|i: int, j: int| 0 <= i < j < s.len() ==> rank(s[i]) < rank(s[j]),
    ensures
        s.filter(pred).len() <= s.len(),
        forall|i: int, j: int|
            0 <= i < j < s.filter(pred).len() ==> rank(s.filter(pred)[i]) < rank(
                s.filter(pred)[j],
            ),
        forall|i: int|
            0 <= i < s.filter(pred).len() ==> pred(#[trigger] s.filter(pred)[i]) && s.contains(
                s.filter(pred)[i],
            ),
        forall|k: int| 0 <= k < s.len() && pred(s[k]) ==> s.filter(pred).contains(#[trigger] s[k]),
    decreases s.len(),
{
    reveal(Seq::filter);
    if s.len() > 0 {
        let front = s.drop_last();
        let last = s.last();
        lemma_filter_ascending(front, pred, rank);
        let kept = front.filter(pred);
        let all = s.filter(pred);
        assert forall|i: int| 0 <= i < kept.len() implies rank(#[trigger] kept[i]) < rank(last)
            && s.contains(kept[i]) by {
            assert(front.contains(kept[i]));
            let k = choose|k: int| 0 <= k < front.len() && front[k] == kept[i];
            assert(s[k] == kept[i]);
        }
        assert forall|i: int| 0 <= i < all.len() implies pred(#[trigger] all[i]) && s.contains(
            all[i],
        ) by {
            if i < kept.len() {
                assert(all[i] == kept[i]);
            } else {
                assert(all[i] == s[s.len() - 1]);
            }
        }
        assert forall|k: int| 0 <= k < s.len() && pred(s[k]) implies all.contains(
            #[trigger] s[k],
        ) by {
            if k < front.len() {
                assert(front[k] == s[k]);
                assert(kept.contains(front[k]));
                let i = choose|i: int| 0 <= i < kept.len() && kept[i] == s[k];
                assert(all[i] == s[k]);
            } else {
                assert(all[all.len() - 1] == s[k]);
            }
        }
        assert forall|i: int, j: int| 0 <= i < j < all.len() implies rank(all[i]) < rank(
            all[j],
        ) by {
            if j < kept.len() {
                assert(all[i] == kept[i] && all[j] == kept[j]);
            } else {
                assert(all[i] == kept[i]);
            }
        }
    }
}

} // verus!
