//! Search in two stages: the closest candidates by sign bits, then the best of them by score.
use crate::compression::hamming::{distance, distance_keys, hamming_top_k, law_distance_bound};
use crate::compression::qjl::BitVector;
use crate::scalar::{lemma_descending_key, Scalar};
use crate::sorting::{is_leading, law_leading_are_least, leading};
use vstd::prelude::*;

verus! {

/// A vector found, its score, and the distance of its sign bits from those of the query.
#[derive(Debug, Clone, Copy)]
pub struct SearchResult {
    pub id: u64,
    pub score: Scalar,
    pub distance: u32,
}

/// `candidates` are the closest of the indexed sign bits, with their distances, from the
/// closest on.
pub open spec fn are_candidates(query: Seq<u8>, index: Seq<BitVector>, k: int, candidates: Seq<(usize, u32)>) -> bool {
    &&& is_leading(distance_keys(query, index), candidates.map_values(|p: (usize, u32)| p.0), k)
    &&& forall|i: int|
        0 <= i < candidates.len() ==> (#[trigger] candidates[i]).1 == distance(query, index[candidates[i].0 as int].0@)
}

/// Each candidate has a place in the storage and an identifier, and the vector at the place can
/// be scored.
pub open spec fn are_known<F: Fn(usize) -> Scalar>(
    candidates: Seq<(usize, u32)>,
    storage_indices: Seq<usize>,
    ids: Seq<u64>,
    score: F,
) -> bool {
    forall|i: int|
        0 <= i < candidates.len() ==> {
            &&& (#[trigger] candidates[i]).0 < storage_indices.len()
            &&& candidates[i].0 < ids.len()
            &&& score.requires((storage_indices[candidates[i].0 as int],))
        }
}

/// `scored` holds the candidates with their scores, in order.
pub open spec fn are_scored<F: Fn(usize) -> Scalar>(
    candidates: Seq<(usize, u32)>,
    storage_indices: Seq<usize>,
    ids: Seq<u64>,
    score: F,
    scored: Seq<SearchResult>,
) -> bool {
    &&& scored.len() == candidates.len()
    &&& forall|i: int|
        0 <= i < scored.len() ==> {
            &&& (#[trigger] scored[i]).id == ids[candidates[i].0 as int]
            &&& scored[i].distance == candidates[i].1
            &&& score.ensures((storage_indices[candidates[i].0 as int],), scored[i].score)
        }
}

/// The keys that order results from the highest score on.
pub open spec fn score_keys(scored: Seq<SearchResult>) -> Seq<i128> {
    scored.map_values(|r: SearchResult| r.score.descending_key())
}

/// `results` are the best `top_k` of the scored candidates, from the highest score on, and of
/// equal scores the closer one first.
pub open spec fn are_top(scored: Seq<SearchResult>, top_k: int, results: Seq<SearchResult>) -> bool {
    exists|picks: Seq<usize>| #[trigger]
        is_leading(score_keys(scored), picks, top_k) && results == picks.map_values(|k: usize| scored[k as int])
}

/// The best `top_k` of the `pre_filter_k` vectors whose sign bits are closest to those of the
/// query.
///
/// `score` gives the similarity of the query to the vector at a place in the storage, and
/// `storage_indices` and `ids` the place and the identifier of each of the indexed vectors.
pub fn two_stage_search<F: Fn(usize) -> Scalar>(
    query: &BitVector,
    index: &[BitVector],
    storage_indices: &[usize],
    ids: &[u64],
    top_k: usize,
    pre_filter_k: usize,
    score: &F,
) -> (r: Vec<SearchResult>)
    requires
        pre_filter_k > 0 ==> forall|i: int|
            0 <= i < index@.len() ==> (#[trigger] index@[i]).0@.len() == query.0@.len() && distance(
                query.0@,
                index@[i].0@,
            ) <= u32::MAX,
        forall|candidates: Seq<(usize, u32)>| #[trigger]
            are_candidates(query.0@, index@, pre_filter_k as int, candidates) ==> are_known(
                candidates,
                storage_indices@,
                ids@,
                *score,
            ),
    ensures
        exists|candidates: Seq<(usize, u32)>, scored: Seq<SearchResult>|
            #![trigger are_scored(candidates, storage_indices@, ids@, *score, scored)]
            {
                &&& are_candidates(query.0@, index@, pre_filter_k as int, candidates)
                &&& are_scored(candidates, storage_indices@, ids@, *score, scored)
                &&& are_top(scored, top_k as int, r@)
                &&& scored.len() == candidates.len()
                &&& forall|c: int, i: int|
                    #![trigger scored[c], r@[i]]
                    0 <= c < scored.len() && 0 <= i < r@.len() && !r@.contains(scored[c]) ==> r@[i].score.at_least(
                        scored[c].score,
                    ) || scored[c].score.nan()
            },
        r@.len() <= top_k && r@.len() <= pre_filter_k && r@.len() <= index@.len(),
        r@.len() == top_k || r@.len() == pre_filter_k || r@.len() == index@.len(),
        forall|i: int, j: int|
            0 <= i < j < r@.len() ==> (#[trigger] r@[i]).score.at_least((#[trigger] r@[j]).score) || r@[j].score.nan(),
{
    let effective: usize = if pre_filter_k < index.len() {
        pre_filter_k
    } else {
        index.len()
    };
    let candidates: Vec<(usize, u32)> = hamming_top_k(query, index, effective);
    proof {
        let picked = candidates@.map_values(|p: (usize, u32)| p.0);
        assert(is_leading(distance_keys(query.0@, index@), picked, pre_filter_k as int));
        assert(are_candidates(query.0@, index@, pre_filter_k as int, candidates@));
    }
    let mut scored: Vec<SearchResult> = Vec::with_capacity(candidates.len());
    let mut keys: Vec<i128> = Vec::with_capacity(candidates.len());
    let mut i: usize = 0;
    while i < candidates.len()
        invariant
            i <= candidates@.len(),
            are_known(candidates@, storage_indices@, ids@, *score),
            are_scored(candidates@.take(i as int), storage_indices@, ids@, *score, scored@),
            keys@ =~= score_keys(scored@),
        decreases candidates@.len() - i,
    {
        let idx: usize = candidates[i].0;
        let value: Scalar = score(storage_indices[idx]);
        scored.push(SearchResult { id: ids[idx], score: value, distance: candidates[i].1 });
        keys.push(value.sort_key());
        i = i + 1;
    }
    assert(candidates@.take(i as int) =~= candidates@);
    let picks: Vec<usize> = leading(&keys, top_k);
    let mut r: Vec<SearchResult> = Vec::with_capacity(picks.len());
    let mut j: usize = 0;
    while j < picks.len()
        invariant
            j <= picks@.len(),
            forall|n: int| 0 <= n < picks@.len() ==> #[trigger] picks@[n] < scored@.len(),
            r@ =~= picks@.take(j as int).map_values(|k: usize| scored@[k as int]),
        decreases picks@.len() - j,
    {
        r.push(scored[picks[j]]);
        j = j + 1;
    }
    assert(r@ =~= picks@.map_values(|k: usize| scored@[k as int]));
    assert(are_scored(candidates@, storage_indices@, ids@, *score, scored@));
    assert(are_top(scored@, top_k as int, r@));
    proof {
        law_best_candidates_are_returned(scored@, top_k as int, r@);
    }
    r
}

/// The candidates are the closest: as many as asked for, or all where there are fewer, no
/// position twice, each with the distance of its sign bits. No vector that is left out is closer
/// than a candidate, and no candidate is closer than one before it.
pub proof fn law_candidates_are_closest(query: Seq<u8>, index: Seq<BitVector>, k: int, candidates: Seq<(usize, u32)>)
    requires
        0 <= k,
        query.len() <= usize::MAX,
        index.len() <= usize::MAX,
        forall|i: int| 0 <= i < index.len() ==> (#[trigger] index[i]).0@.len() == query.len(),
        are_candidates(query, index, k, candidates),
    ensures
        candidates.len() <= k,
        candidates.len() <= index.len(),
        candidates.len() == k || candidates.len() == index.len(),
        forall|i: int|
            0 <= i < candidates.len() ==> (#[trigger] candidates[i]).0 < index.len() && candidates[i].1 == distance(
                query,
                index[candidates[i].0 as int].0@,
            ),
        forall|i: int, j: int|
            0 <= i < j < candidates.len() ==> (#[trigger] candidates[i]).0 != (#[trigger] candidates[j]).0
                && candidates[i].1 <= candidates[j].1 && (candidates[i].1 == candidates[j].1 ==> candidates[i].0
                < candidates[j].0),
        forall|m: int, i: int|
            #![trigger index[m], candidates[i]]
            0 <= m < index.len() && 0 <= i < candidates.len() && !candidates.contains(
                (m as usize, distance(query, index[m].0@) as u32),
            ) ==> candidates[i].1 <= distance(query, index[m].0@),
{
    let keys = distance_keys(query, index);
    let picks = candidates.map_values(|p: (usize, u32)| p.0);
    law_leading_are_least(keys, picks, k);
    assert forall|m: int| 0 <= m < index.len() implies #[trigger] keys[m] == distance(query, index[m].0@) by {
        law_distance_bound(query, index[m].0@);
    }
    assert forall|i: int| 0 <= i < candidates.len() implies (#[trigger] candidates[i]).0 < index.len() by {
        assert(picks[i] < keys.len());
    }
    assert forall|i: int, j: int| 0 <= i < j < candidates.len() implies (#[trigger] candidates[i]).0 != (
    #[trigger] candidates[j]).0 && candidates[i].1 <= candidates[j].1 && (candidates[i].1 == candidates[j].1
        ==> candidates[i].0 < candidates[j].0) by {
        assert(picks[i] == candidates[i].0 && picks[j] == candidates[j].0);
        assert(keys[picks[i] as int] <= keys[picks[j] as int]);
    }
    assert forall|m: int, i: int|
        #![trigger index[m], candidates[i]]
        0 <= m < index.len() && 0 <= i < candidates.len() && !candidates.contains(
            (m as usize, distance(query, index[m].0@) as u32),
        ) implies candidates[i].1 <= distance(query, index[m].0@) by {
        if picks.contains(m as usize) {
            let n = choose|n: int| 0 <= n < picks.len() && picks[n] == m as usize;
            assert(candidates[n].0 == m);
            assert(candidates[n].1 == distance(query, index[m].0@));
            assert(candidates[n] == (m as usize, distance(query, index[m].0@) as u32));
        }
        assert(keys[picks[i] as int] <= keys[m]);
        assert(picks[i] == candidates[i].0);
    }
}

/// The second stage keeps the best: as many of the scored candidates as asked for, or all where
/// there are fewer. No candidate that is left out scores higher than one returned, and no result
/// scores higher than one before it. What is no number comes last.
pub proof fn law_best_candidates_are_returned(scored: Seq<SearchResult>, top_k: int, r: Seq<SearchResult>)
    requires
        0 <= top_k,
        scored.len() <= usize::MAX,
        are_top(scored, top_k, r),
    ensures
        r.len() <= top_k,
        r.len() <= scored.len(),
        r.len() == top_k || r.len() == scored.len(),
        forall|i: int| 0 <= i < r.len() ==> scored.contains(#[trigger] r[i]),
        forall|i: int, j: int|
            0 <= i < j < r.len() ==> (#[trigger] r[i]).score.at_least((#[trigger] r[j]).score) || r[j].score.nan(),
        forall|c: int, i: int|
            #![trigger scored[c], r[i]]
            0 <= c < scored.len() && 0 <= i < r.len() && !r.contains(scored[c]) ==> r[i].score.at_least(scored[c].score)
                || scored[c].score.nan(),
        (forall|a: int, b: int| 0 <= a < b < scored.len() ==> (#[trigger] scored[a]).id != (#[trigger] scored[b]).id)
            ==> forall|i: int, j: int| 0 <= i < j < r.len() ==> (#[trigger] r[i]).id != (#[trigger] r[j]).id,
{
    let keys = score_keys(scored);
    let picks = choose|picks: Seq<usize>| #[trigger]
        is_leading(keys, picks, top_k) && r == picks.map_values(|k: usize| scored[k as int]);
    law_leading_are_least(keys, picks, top_k);
    assert forall|i: int| 0 <= i < r.len() implies scored.contains(#[trigger] r[i]) by {
        assert(r[i] == scored[picks[i] as int]);
    }
    assert forall|i: int, j: int| 0 <= i < j < r.len() implies (#[trigger] r[i]).score.at_least(
        (#[trigger] r[j]).score,
    ) || r[j].score.nan() by {
        assert(keys[picks[i] as int] <= keys[picks[j] as int]);
        lemma_descending_key(r[i].score, r[j].score);
        lemma_descending_key(r[j].score, r[i].score);
    }
    assert forall|c: int, i: int|
        #![trigger scored[c], r[i]]
        0 <= c < scored.len() && 0 <= i < r.len() && !r.contains(scored[c]) implies r[i].score.at_least(scored[c].score)
        || scored[c].score.nan() by {
        if picks.contains(c as usize) {
            let n = choose|n: int| 0 <= n < picks.len() && picks[n] == c as usize;
            assert(r[n] == scored[c]);
        }
        assert(keys[picks[i] as int] <= keys[c]);
        lemma_descending_key(r[i].score, scored[c].score);
        lemma_descending_key(scored[c].score, r[i].score);
    }
    if forall|a: int, b: int| 0 <= a < b < scored.len() ==> (#[trigger] scored[a]).id != (#[trigger] scored[b]).id {
        assert forall|i: int, j: int| 0 <= i < j < r.len() implies (#[trigger] r[i]).id != (#[trigger] r[j]).id by {
            let (a, b) = (picks[i] as int, picks[j] as int);
            assert(picks[i] != picks[j]);
            if a < b {
                assert(scored[a].id != scored[b].id);
            } else {
                assert(scored[b].id != scored[a].id);
            }
        }
    }
}

/// Every result of a two-stage search is a vector of the index, with its identifier, the distance
/// of its sign bits, and the score of the vector at its place. There are as many as asked for, or
/// as the first stage lets through, or as there are.
pub proof fn law_two_stage_search<F: Fn(usize) -> Scalar>(
    query: Seq<u8>,
    index: Seq<BitVector>,
    storage_indices: Seq<usize>,
    ids: Seq<u64>,
    top_k: int,
    pre_filter_k: int,
    score: F,
    candidates: Seq<(usize, u32)>,
    scored: Seq<SearchResult>,
    r: Seq<SearchResult>,
)
    requires
        0 <= top_k,
        0 <= pre_filter_k,
        query.len() <= usize::MAX,
        index.len() <= usize::MAX,
        forall|i: int| 0 <= i < index.len() ==> (#[trigger] index[i]).0@.len() == query.len(),
        are_candidates(query, index, pre_filter_k, candidates),
        are_scored(candidates, storage_indices, ids, score, scored),
        are_top(scored, top_k, r),
    ensures
        r.len() == top_k || r.len() == pre_filter_k || r.len() == index.len(),
        r.len() <= top_k && r.len() <= pre_filter_k && r.len() <= index.len(),
        forall|i: int|
            0 <= i < r.len() ==> exists|m: int|
                {
                    &&& 0 <= m < index.len()
                    &&& (#[trigger] r[i]).id == ids[m]
                    &&& r[i].distance == distance(query, (#[trigger] index[m]).0@)
                    &&& score.ensures((storage_indices[m],), r[i].score)
                },
{
    law_candidates_are_closest(query, index, pre_filter_k, candidates);
    law_best_candidates_are_returned(scored, top_k, r);
    assert forall|i: int| 0 <= i < r.len() implies exists|m: int|
        {
            &&& 0 <= m < index.len()
            &&& (#[trigger] r[i]).id == ids[m]
            &&& r[i].distance == distance(query, (#[trigger] index[m]).0@)
            &&& score.ensures((storage_indices[m],), r[i].score)
        } by {
        let n = choose|n: int| 0 <= n < scored.len() && scored[n] == r[i];
        assert(scored.contains(r[i]));
        let m = candidates[n].0 as int;
        assert(scored[n].id == ids[m]);
        assert(index[m].0@.len() == query.len());
    }
}

/// Of candidates with equal scores the closer one comes first, and a farther one is never returned
/// in its place.
pub proof fn law_closer_one_first(scored: Seq<SearchResult>, top_k: int, r: Seq<SearchResult>, i: int, j: int, q: int)
    requires
        0 <= top_k,
        scored.len() <= usize::MAX,
        are_top(scored, top_k, r),
        forall|a: int, b: int| 0 <= a < b < scored.len() ==> (#[trigger] scored[a]).id != (#[trigger] scored[b]).id,
        0 <= i < j < scored.len(),
        scored[i].score == scored[j].score,
        0 <= q < r.len(),
        r[q] == scored[j],
    ensures
        exists|p: int| 0 <= p < q && #[trigger] r[p] == scored[i],
{
    let keys = score_keys(scored);
    let picks = choose|picks: Seq<usize>| #[trigger]
        is_leading(keys, picks, top_k) && r == picks.map_values(|k: usize| scored[k as int]);
    law_leading_are_least(keys, picks, top_k);
    let b = picks[q] as int;
    assert(r[q] == scored[b]);
    if b < j {
        assert(scored[b].id != scored[j].id);
    }
    if j < b {
        assert(scored[j].id != scored[b].id);
    }
    assert(keys[i] == keys[j]);
    if !picks.contains(i as usize) {
        assert(keys[picks[q] as int] <= keys[i]);
        assert(picks[q] < i);
    }
    let p = choose|p: int| 0 <= p < picks.len() && picks[p] == i as usize;
    if q < p {
        assert(picks[q] != picks[p] && keys[picks[q] as int] <= keys[picks[p] as int]);
    }
    assert(p != q);
    assert(r[p] == scored[i]);
}

} // verus!
