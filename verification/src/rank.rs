//! The ranking engine: orders all store indices by descending similarity
//! score, with store order breaking ties, and truncates to a caller-imposed
//! cap without disturbing the retained prefix.

use vstd::prelude::*;

use crate::order::lemma_order_seq_multiset;
use crate::order::lemma_order_seq_sorted;
use crate::order::lemma_score_order_strict;
use crate::order::order_seq;
use crate::order::score_order;
use crate::order::sort_indices_by_score;
use crate::order::sorted_by;

verus! {

/// The sequence `0, 1, ..., n - 1` of store indices.
pub open spec fn index_seq(n: nat) -> Seq<usize> {
    Seq::new(n, |i: int| i as usize)
}

/// The ranking of a store with the given per-index scores: every index,
/// ordered by descending score, ties in store order.
pub open spec fn rank_spec(scores: Seq<u64>) -> Seq<usize> {
    order_seq(score_order(scores), index_seq(scores.len()))
}

/// Ranks the whole store by its scores: `scores[k]` is the similarity of
/// the store entry at index `k` to the query, and the result lists every
/// index in descending score order, equal scores in store order. The result
/// is a function of the scores alone, so equal inputs rank equally.
pub fn rank(scores: &Vec<u64>) -> (r: Vec<usize>)
    ensures
        r@ == rank_spec(scores@),
{
    let n = scores.len();
    let mut idx: Vec<usize> = Vec::new();
    let mut i: usize = 0;
    proof {
        assert(idx@ =~= index_seq(0));
    }
    while i < n
        invariant
            n == scores@.len(),
            0 <= i <= n,
            idx@ == index_seq(i as nat),
        decreases n - i,
    {
        idx.push(i);
        proof {
            assert(idx@ =~= index_seq(i as nat + 1));
        }
        i += 1;
    }
    proof {
        assert forall|k: int| 0 <= k < idx@.len() implies idx@[k] < scores@.len() by {
            assert(idx@[k] == k as usize);
        }
    }
    sort_indices_by_score(&idx, scores)
}

/// Ranks the store and truncates to at most `cap` results; the retained
/// prefix is exactly the front of the full ranking.
pub fn rank_capped(scores: &Vec<u64>, cap: usize) -> (r: Vec<usize>)
    ensures
        cap as int <= rank_spec(scores@).len() ==> r@ == rank_spec(scores@).take(cap as int),
        cap as int > rank_spec(scores@).len() ==> r@ == rank_spec(scores@),
{
    let full = rank(scores);
    if cap >= full.len() {
        proof {
            if cap as int <= full@.len() {
                assert(full@.take(cap as int) =~= full@);
            }
        }
        return full;
    }
    let mut out: Vec<usize> = Vec::new();
    let mut i: usize = 0;
    proof {
        assert(out@ =~= full@.take(0));
    }
    while i < cap
        invariant
            cap <= full@.len(),
            0 <= i <= cap,
            full@ == rank_spec(scores@),
            out@ == full@.take(i as int),
        decreases cap - i,
    {
        out.push(full[i]);
        proof {
            assert(out@ =~= full@.take(i as int + 1));
        }
        i += 1;
    }
    out
}

/// The ranking is a permutation of all store indices, sorted strictly under
/// the descending-score order: the ordered sequence is unique, so ranking
/// the same scores twice gives the same result.
pub proof fn lemma_rank_spec_correct(scores: Seq<u64>)
    requires
        scores.len() <= usize::MAX as nat,
    ensures
        rank_spec(scores).to_multiset() == index_seq(scores.len()).to_multiset(),
        sorted_by(score_order(scores), rank_spec(scores)),
{
    let idx = index_seq(scores.len());
    lemma_order_seq_multiset(score_order(scores), idx);
    lemma_score_order_strict(scores, idx);
    assert(idx.no_duplicates()) by {
        assert forall|i: int, j: int|
            0 <= i < idx.len() && 0 <= j < idx.len() && i != j implies idx[i] != idx[j] by {
            assert(idx[i] == i as usize);
            assert(idx[j] == j as usize);
        }
    }
    lemma_order_seq_sorted(score_order(scores), idx);
}

/// Truncating the ranking keeps each retained position unchanged: the
/// capped result is position-for-position the front of the full ranking.
pub proof fn lemma_rank_capped_prefix(scores: Seq<u64>, cap: int)
    requires
        0 <= cap <= rank_spec(scores).len(),
    ensures
        rank_spec(scores).take(cap).len() == cap,
        forall|i: int| 0 <= i < cap ==> rank_spec(scores).take(cap)[i] == rank_spec(scores)[i],
{
}

} // verus!
