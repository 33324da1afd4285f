use vstd::prelude::*;
use crate::index::{has_pair, lists_pairs, pairs_contrib, sum_scores};
use crate::maps::{NumMap, lemma_num_map_contains, num_keys_unique, num_map_of};

verus! {

/// In a posting list with distinct keys, a document's summed contribution
/// is its stored score, or nothing.
pub proof fn lemma_contrib_unique(ps: Seq<(i32, i32)>, n: int)
    requires
        num_keys_unique(ps),
    ensures
        has_pair(ps, n) ==> num_map_of(ps).contains_key(n) && pairs_contrib(ps, n) == num_map_of(
            ps,
        )[n],
        !has_pair(ps, n) ==> pairs_contrib(ps, n) == 0,
    decreases ps.len(),
{
    lemma_num_map_contains(ps, n);
    if ps.len() > 0 {
        let t = ps.drop_last();
        assert(num_keys_unique(t)) by {
            assert(forall|i: int| 0 <= i < t.len() ==> #[trigger] t[i] == ps[i]);
        }
        lemma_contrib_unique(t, n);
        lemma_num_map_contains(t, n);
        if ps.last().0 == n {
            assert(!has_pair(t, n)) by {
                if has_pair(t, n) {
                    let j = choose|j: int| 0 <= j < t.len() && #[trigger] t[j].0 == n;
                    assert(ps[j].0 == ps[ps.len() - 1].0);
                }
            }
        } else {
            if has_pair(ps, n) {
                let j = choose|j: int| 0 <= j < ps.len() && #[trigger] ps[j].0 == n;
                assert(t[j].0 == n);
            }
            if has_pair(t, n) {
                let j = choose|j: int| 0 <= j < t.len() && #[trigger] t[j].0 == n;
                assert(ps[j].0 == n);
            }
        }
    }
}

/// Query additivity: when a document is posted in only one of two posting
/// lists, its aggregate score over both is exactly that list's stored
/// score.
pub proof fn lemma_query_additivity(l1: NumMap<i32>, l2: NumMap<i32>, n: int)
    requires
        l1.wf(),
        l2.wf(),
        !(l1.as_map().contains_key(n) && l2.as_map().contains_key(n)),
    ensures
        l1.as_map().contains_key(n) ==> sum_scores(lists_pairs(seq![l1, l2]), n) == l1.as_map()[n],
        l2.as_map().contains_key(n) ==> sum_scores(lists_pairs(seq![l1, l2]), n) == l2.as_map()[n],
{
    let lp = lists_pairs(seq![l1, l2]);
    assert(lp.drop_last() =~= lists_pairs(seq![l1]));
    assert(lists_pairs(seq![l1]).drop_last() =~= Seq::<Seq<(i32, i32)>>::empty());
    assert(sum_scores(Seq::<Seq<(i32, i32)>>::empty(), n) == 0);
    assert(lp.last() == l2.pairs());
    assert(lists_pairs(seq![l1]).last() == l1.pairs());
    lemma_contrib_unique(l1.pairs(), n);
    lemma_contrib_unique(l2.pairs(), n);
    lemma_num_map_contains(l1.pairs(), n);
    lemma_num_map_contains(l2.pairs(), n);
    assert(sum_scores(lists_pairs(seq![l1]), n) == pairs_contrib(l1.pairs(), n));
    assert(sum_scores(lp, n) == pairs_contrib(l1.pairs(), n) + pairs_contrib(l2.pairs(), n));
}

} // verus!
