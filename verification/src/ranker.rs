//! Ranking of search results by relevance and recency.
use crate::document::{find_document, first_with, has_id, Document, DocumentFields};
use crate::index::SearchResult;
use crate::scalar::{lemma_descending_key, Scalar};
use crate::sorting::{is_stable_order, lemma_order_is_permutation, precedes, stable_order};
use crate::text::{decimal, is_digit, law_parse_after_decimal, parse_u64, parsed, without_plus};
use vstd::prelude::*;

verus! {

/// How relevance and recency are weighed, and how many recent documents are always kept.
pub struct RankingConfig {
    pub relevance_weight: Scalar,
    pub recency_weight: Scalar,
    pub always_keep_recent: usize,
}

impl RankingConfig {
    /// Six tenths for relevance, four tenths for recency, and four recent documents.
    pub open spec fn is_default(&self) -> bool {
        &&& self.relevance_weight.bits == 0x3f19_999a
        &&& self.recency_weight.bits == 0x3ecc_cccd
        &&& self.always_keep_recent == 4
    }
}

impl Default for RankingConfig {
    fn default() -> (r: RankingConfig)
        ensures
            r.is_default(),
            r.relevance_weight.bits == 0x3f19_999a && r.recency_weight.bits == 0x3ecc_cccd,
            r.always_keep_recent == 4,
    {
        RankingConfig {
            relevance_weight: Scalar::from_bits(0x3f19_999a),
            recency_weight: Scalar::from_bits(0x3ecc_cccd),
            always_keep_recent: 4,
        }
    }
}

/// A search result with its scores.
#[derive(Debug, Clone, Copy)]
pub struct RankedResult {
    pub id: u64,
    pub relevance_score: Scalar,
    pub recency_score: Scalar,
    pub combined_score: Scalar,
}

/// What a document's age is counted from: its turn, where its metadata gives one, and else
/// its time.
pub open spec fn reference_of(d: DocumentFields) -> u64 {
    let key = "turn_number"@;
    if d.metadata.dom().contains(key) && parsed(d.metadata[key]) is Some {
        parsed(d.metadata[key])->0
    } else {
        d.timestamp
    }
}

/// The age of a document, zero where it lies ahead of the reference.
pub open spec fn age_of(d: DocumentFields, current_reference: u64) -> u64 {
    if current_reference >= reference_of(d) {
        (current_reference - reference_of(d)) as u64
    } else {
        0
    }
}

/// What a document's age is counted from.
pub fn document_reference(doc: &Document) -> (r: u64)
    ensures
        r == reference_of(doc@),
{
    match doc.metadata.get("turn_number") {
        Some(turn) => match parse_u64(turn.as_str()) {
            Some(n) => n,
            None => doc.timestamp,
        },
        None => doc.timestamp,
    }
}

/// The search results of which there is a document, in order.
pub open spec fn known(results: Seq<SearchResult>, documents: Seq<Document>) -> Seq<SearchResult>
    decreases results.len(),
{
    if results.len() == 0 {
        Seq::empty()
    } else {
        let before = known(results.drop_last(), documents);
        if has_id(documents, results.last().id) {
            before.push(results.last())
        } else {
            before
        }
    }
}

/// `r` is the search result with its scores: the relevance is the similarity held between
/// zero and one, `recency` gives the recency of the document's age, and `combine` weighs
/// the two.
pub open spec fn is_scored<R: Fn(u64) -> Scalar, C: Fn(Scalar, Scalar, Scalar, Scalar) -> Scalar>(
    found: SearchResult,
    doc: DocumentFields,
    current_reference: u64,
    config: RankingConfig,
    recency: R,
    combine: C,
    r: RankedResult,
) -> bool {
    &&& r.id == found.id
    &&& r.relevance_score == found.score.clamped_unit()
    &&& recency.ensures((age_of(doc, current_reference),), r.recency_score)
    &&& combine.ensures(
        (config.relevance_weight, r.relevance_score, config.recency_weight, r.recency_score),
        r.combined_score,
    )
}

/// The keys that order results from the highest combined score on.
pub open spec fn combined_keys(scored: Seq<RankedResult>) -> Seq<i128> {
    scored.map_values(|r: RankedResult| r.combined_score.descending_key())
}

/// `ranked` holds the scored results from the highest combined score on, those of equal
/// scores in the order of the search.
pub open spec fn is_ranking(scored: Seq<RankedResult>, ranked: Seq<RankedResult>) -> bool {
    exists|order: Seq<usize>| #[trigger]
        is_stable_order(combined_keys(scored), order) && ranked == order.map_values(|k: usize| scored[k as int])
}

/// Every search result of which there is a document, scored.
pub open spec fn all_scored<R: Fn(u64) -> Scalar, C: Fn(Scalar, Scalar, Scalar, Scalar) -> Scalar>(
    results: Seq<SearchResult>,
    documents: Seq<Document>,
    current_reference: u64,
    config: RankingConfig,
    recency: R,
    combine: C,
    scored: Seq<RankedResult>,
) -> bool {
    &&& scored.len() == known(results, documents).len()
    &&& forall|k: int|
        0 <= k < scored.len() ==> is_scored(
            known(results, documents)[k],
            first_with(documents, known(results, documents)[k].id)@,
            current_reference,
            config,
            recency,
            combine,
            #[trigger] scored[k],
        )
}

/// Ranks the search results of which there is a document, from the highest combined score on.
///
/// `recency` gives the recency of an age, and `combine` the sum of the relevance weight
/// times the relevance and the recency weight times the recency.
pub fn rank<R: Fn(u64) -> Scalar, C: Fn(Scalar, Scalar, Scalar, Scalar) -> Scalar>(
    results: &[SearchResult],
    documents: &Vec<Document>,
    current_reference: u64,
    config: &RankingConfig,
    recency: &R,
    combine: &C,
) -> (r: Vec<RankedResult>)
    requires
        forall|age: u64| #[trigger] recency.requires((age,)),
        forall|a: Scalar, b: Scalar, c: Scalar, d: Scalar| #[trigger] combine.requires((a, b, c, d)),
    ensures
        exists|scored: Seq<RankedResult>| #[trigger]
            all_scored(results@, documents@, current_reference, *config, *recency, *combine, scored) && is_ranking(
                scored,
                r@,
            ),
{
    let mut scored: Vec<RankedResult> = Vec::new();
    let mut keys: Vec<i128> = Vec::new();
    let mut i: usize = 0;
    while i < results.len()
        invariant
            i <= results@.len(),
            forall|age: u64| #[trigger] recency.requires((age,)),
            forall|a: Scalar, b: Scalar, c: Scalar, d: Scalar| #[trigger] combine.requires((a, b, c, d)),
            all_scored(
                results@.take(i as int),
                documents@,
                current_reference,
                *config,
                *recency,
                *combine,
                scored@,
            ),
            keys@ =~= combined_keys(scored@),
        decreases results@.len() - i,
    {
        let found: SearchResult = results[i];
        let ghost before = scored@;
        assert(results@.take(i + 1).drop_last() =~= results@.take(i as int));
        match find_document(documents, found.id) {
            Some(at) => {
                let reference: u64 = document_reference(&documents[at]);
                let age: u64 = if current_reference >= reference {
                    current_reference - reference
                } else {
                    0
                };
                let recency_score: Scalar = recency(age);
                let relevance_score: Scalar = found.score.clamp_unit();
                let combined_score: Scalar = combine(
                    config.relevance_weight,
                    relevance_score,
                    config.recency_weight,
                    recency_score,
                );
                let one = RankedResult { id: found.id, relevance_score, recency_score, combined_score };
                scored.push(one);
                keys.push(combined_score.sort_key());
                proof {
                    let list = known(results@.take(i + 1), documents@);
                    assert forall|k: int| 0 <= k < scored@.len() implies is_scored(
                        list[k],
                        first_with(documents@, list[k].id)@,
                        current_reference,
                        *config,
                        *recency,
                        *combine,
                        #[trigger] scored@[k],
                    ) by {
                        if k < before.len() {
                            assert(scored@[k] == before[k]);
                        }
                    }
                }
            },
            None => {},
        }
        i = i + 1;
    }
    assert(results@.take(i as int) =~= results@);
    let order: Vec<usize> = stable_order(&keys);
    let mut r: Vec<RankedResult> = Vec::with_capacity(order.len());
    let mut j: usize = 0;
    while j < order.len()
        invariant
            j <= order@.len(),
            forall|n: int| 0 <= n < order@.len() ==> #[trigger] order@[n] < scored@.len(),
            r@ =~= order@.take(j as int).map_values(|k: usize| scored@[k as int]),
        decreases order@.len() - j,
    {
        r.push(scored[order[j]]);
        j = j + 1;
    }
    assert(r@ =~= order@.map_values(|k: usize| scored@[k as int]));
    r
}

/// The ranking starts with the highest combined score and never rises. It holds every
/// scored result, and no other.
pub proof fn law_ranking_descends(scored: Seq<RankedResult>, ranked: Seq<RankedResult>)
    requires
        is_ranking(scored, ranked),
        scored.len() <= usize::MAX,
        forall|k: int| 0 <= k < scored.len() ==> !(#[trigger] scored[k]).combined_score.nan(),
    ensures
        ranked.len() == scored.len(),
        forall|i: int, j: int|
            0 <= i < j < ranked.len() ==> (#[trigger] ranked[i]).combined_score.at_least(
                (#[trigger] ranked[j]).combined_score,
            ),
        forall|k: int| 0 <= k < scored.len() ==> ranked.contains(#[trigger] scored[k]),
        forall|k: int| 0 <= k < ranked.len() ==> scored.contains(#[trigger] ranked[k]),
{
    let keys = combined_keys(scored);
    let order = choose|order: Seq<usize>| #[trigger]
        is_stable_order(keys, order) && ranked == order.map_values(|k: usize| scored[k as int]);
    lemma_order_is_permutation(keys, order);
    assert forall|i: int, j: int| 0 <= i < j < ranked.len() implies (#[trigger] ranked[i]).combined_score.at_least(
        (#[trigger] ranked[j]).combined_score,
    ) by {
        assert(precedes(keys, order[i] as int, order[j] as int));
        lemma_descending_key(scored[order[i] as int].combined_score, scored[order[j] as int].combined_score);
    }
    assert forall|k: int| 0 <= k < scored.len() implies ranked.contains(#[trigger] scored[k]) by {
        assert(order.contains(k as usize));
        let i = choose|i: int| 0 <= i < order.len() && order[i] == k as usize;
        assert(ranked[i] == scored[k]);
    }
    assert forall|k: int| 0 <= k < ranked.len() implies scored.contains(#[trigger] ranked[k]) by {
        assert(scored[order[k] as int] == ranked[k]);
    }
}

/// The age that the recency is asked for reaches from the document's reference to the current
/// one, and is zero where the document lies ahead. The relevance is the similarity where that
/// lies between zero and one, and else the bound that it passes.
pub proof fn law_age_and_relevance<R: Fn(u64) -> Scalar, C: Fn(Scalar, Scalar, Scalar, Scalar) -> Scalar>(
    found: SearchResult,
    doc: DocumentFields,
    current_reference: u64,
    config: RankingConfig,
    recency: R,
    combine: C,
    r: RankedResult,
)
    requires
        is_scored(found, doc, current_reference, config, recency, combine, r),
    ensures
        exists|age: u64|
            {
                &&& #[trigger] recency.ensures((age,), r.recency_score)
                &&& current_reference >= reference_of(doc) ==> age + reference_of(doc) == current_reference
                &&& current_reference < reference_of(doc) ==> age == 0
            },
        combine.ensures(
            (config.relevance_weight, r.relevance_score, config.recency_weight, r.recency_score),
            r.combined_score,
        ),
        r.id == found.id,
        ({
            let zero = Scalar { bits: 0 };
            let one = Scalar { bits: 0x3f80_0000 };
            &&& zero.at_least(found.score) && !found.score.at_least(zero) ==> r.relevance_score == zero
            &&& found.score.at_least(one) && !one.at_least(found.score) ==> r.relevance_score == one
            &&& found.score.at_least(zero) && one.at_least(found.score) ==> r.relevance_score == found.score
            &&& found.score.nan() ==> r.relevance_score == found.score
        }),
{
    let age = age_of(doc, current_reference);
    assert(recency.ensures((age,), r.recency_score));
}

/// A document's age is counted from its time, unless its metadata gives the number of its turn.
/// Of two documents without one, the age of the earlier is greater by what lies between them.
pub proof fn law_ages_differ_by_times(a: DocumentFields, b: DocumentFields, n: u64, current_reference: u64)
    ensures
        !a.metadata.dom().contains("turn_number"@) ==> reference_of(a) == a.timestamp,
        a.metadata.dom().contains("turn_number"@) && a.metadata["turn_number"@] == decimal(n as nat) ==> reference_of(a)
            == n,
        a.metadata.dom().contains("turn_number"@) && (exists|i: int|
            0 < i < a.metadata["turn_number"@].len() && !('0' <= #[trigger] a.metadata["turn_number"@][i] <= '9'))
            ==> reference_of(a) == a.timestamp,
        !a.metadata.dom().contains("turn_number"@) && !b.metadata.dom().contains("turn_number"@) && a.timestamp
            <= b.timestamp <= current_reference ==> age_of(a, current_reference) - age_of(b, current_reference)
            == b.timestamp - a.timestamp,
        age_of(a, reference_of(a)) == 0,
{
    law_parse_after_decimal(n);
    let key = "turn_number"@;
    if a.metadata.dom().contains(key) {
        let s = a.metadata[key];
        if exists|i: int| 0 < i < s.len() && !('0' <= #[trigger] s[i] <= '9') {
            let i = choose|i: int| 0 < i < s.len() && !('0' <= #[trigger] s[i] <= '9');
            let digits = without_plus(s);
            let at = if s[0] == '+' {
                i - 1
            } else {
                i
            };
            assert(digits[at] == s[i]);
            assert(!is_digit(digits[at]));
        }
    }
}

/// `r` scores one of the search results, of which there is a document.
pub open spec fn is_of_one<R: Fn(u64) -> Scalar, C: Fn(Scalar, Scalar, Scalar, Scalar) -> Scalar>(
    results: Seq<SearchResult>,
    documents: Seq<Document>,
    current_reference: u64,
    config: RankingConfig,
    recency: R,
    combine: C,
    r: RankedResult,
) -> bool {
    exists|i: int|
        0 <= i < results.len() && has_id(documents, (#[trigger] results[i]).id) && is_scored(
            results[i],
            first_with(documents, results[i].id)@,
            current_reference,
            config,
            recency,
            combine,
            r,
        )
}

/// `found` is scored as one of the ranked results.
pub open spec fn is_ranked_in<R: Fn(u64) -> Scalar, C: Fn(Scalar, Scalar, Scalar, Scalar) -> Scalar>(
    found: SearchResult,
    documents: Seq<Document>,
    current_reference: u64,
    config: RankingConfig,
    recency: R,
    combine: C,
    ranked: Seq<RankedResult>,
) -> bool {
    exists|k: int|
        0 <= k < ranked.len() && is_scored(
            found,
            first_with(documents, found.id)@,
            current_reference,
            config,
            recency,
            combine,
            #[trigger] ranked[k],
        )
}

/// Every search result of which there is a document is ranked, and nothing else is. Where there is
/// a document of each, there are as many. The ranking never rises.
#[verifier::rlimit(40)]
pub proof fn law_rank<R: Fn(u64) -> Scalar, C: Fn(Scalar, Scalar, Scalar, Scalar) -> Scalar>(
    results: Seq<SearchResult>,
    documents: Seq<Document>,
    current_reference: u64,
    config: RankingConfig,
    recency: R,
    combine: C,
    scored: Seq<RankedResult>,
    ranked: Seq<RankedResult>,
)
    requires
        results.len() <= usize::MAX,
        all_scored(results, documents, current_reference, config, recency, combine, scored),
        is_ranking(scored, ranked),
    ensures
        ranked.len() == results.filter(|r: SearchResult| has_id(documents, r.id)).len(),
        forall|i: int|
            0 <= i < results.len() && has_id(documents, (#[trigger] results[i]).id) ==> is_ranked_in(
                results[i],
                documents,
                current_reference,
                config,
                recency,
                combine,
                ranked,
            ),
        forall|k: int|
            0 <= k < ranked.len() ==> is_of_one(
                results,
                documents,
                current_reference,
                config,
                recency,
                combine,
                #[trigger] ranked[k],
            ),
        forall|i: int, j: int|
            0 <= i < j < ranked.len() ==> (#[trigger] ranked[i]).combined_score.at_least(
                (#[trigger] ranked[j]).combined_score,
            ) || ranked[j].combined_score.nan(),
{
    let list = known(results, documents);
    let keys = combined_keys(scored);
    let order = choose|order: Seq<usize>| #[trigger]
        is_stable_order(keys, order) && ranked == order.map_values(|k: usize| scored[k as int]);
    law_known(results, documents);
    lemma_known(results, documents);
    lemma_order_is_permutation(keys, order);
    assert forall|i: int| 0 <= i < results.len() && has_id(documents, (#[trigger] results[i]).id) implies is_ranked_in(
        results[i],
        documents,
        current_reference,
        config,
        recency,
        combine,
        ranked,
    ) by {
        assert(list.contains(results[i]));
        let a = choose|a: int| 0 <= a < list.len() && list[a] == results[i];
        assert(order.contains(a as usize));
        let k = choose|k: int| 0 <= k < order.len() && order[k] == a as usize;
        lemma_scored_at(results, documents, current_reference, config, recency, combine, scored, a);
        assert(ranked[k] == scored[a]);
    }
    assert forall|k: int| 0 <= k < ranked.len() implies is_of_one(
        results,
        documents,
        current_reference,
        config,
        recency,
        combine,
        #[trigger] ranked[k],
    ) by {
        let a = order[k] as int;
        assert(ranked[k] == scored[a]);
        lemma_scored_at(results, documents, current_reference, config, recency, combine, scored, a);
        assert(results.contains(list[a]));
        let i = choose|i: int| 0 <= i < results.len() && results[i] == list[a];
        assert(has_id(documents, results[i].id));
    }
    assert forall|i: int, j: int| 0 <= i < j < ranked.len() implies (#[trigger] ranked[i]).combined_score.at_least(
        (#[trigger] ranked[j]).combined_score,
    ) || ranked[j].combined_score.nan() by {
        assert(precedes(keys, order[i] as int, order[j] as int));
        lemma_descending_key(ranked[i].combined_score, ranked[j].combined_score);
        lemma_descending_key(ranked[j].combined_score, ranked[i].combined_score);
    }
}

/// The score at a position is that of the result there.
pub proof fn lemma_scored_at<R: Fn(u64) -> Scalar, C: Fn(Scalar, Scalar, Scalar, Scalar) -> Scalar>(
    results: Seq<SearchResult>,
    documents: Seq<Document>,
    current_reference: u64,
    config: RankingConfig,
    recency: R,
    combine: C,
    scored: Seq<RankedResult>,
    a: int,
)
    requires
        all_scored(results, documents, current_reference, config, recency, combine, scored),
        0 <= a < scored.len(),
    ensures
        scored.len() == known(results, documents).len(),
        is_scored(
            known(results, documents)[a],
            first_with(documents, known(results, documents)[a].id)@,
            current_reference,
            config,
            recency,
            combine,
            scored[a],
        ),
{
}

/// The results of which there is a document are among all results, and none of them is missing.
pub proof fn lemma_known(results: Seq<SearchResult>, documents: Seq<Document>)
    ensures
        known(results, documents).len() <= results.len(),
        (forall|i: int| 0 <= i < results.len() ==> has_id(documents, (#[trigger] results[i]).id)) ==> known(
            results,
            documents,
        ) == results,
        forall|k: int|
            0 <= k < known(results, documents).len() ==> results.contains(#[trigger] known(results, documents)[k])
                && has_id(documents, known(results, documents)[k].id),
        forall|i: int|
            0 <= i < results.len() && has_id(documents, (#[trigger] results[i]).id) ==> known(
                results,
                documents,
            ).contains(results[i]),
    decreases results.len(),
{
    if results.len() > 0 {
        let rest = results.drop_last();
        lemma_known(rest, documents);
        let before = known(rest, documents);
        let all = known(results, documents);
        if forall|i: int| 0 <= i < results.len() ==> has_id(documents, (#[trigger] results[i]).id) {
            assert forall|i: int| 0 <= i < rest.len() implies has_id(documents, (#[trigger] rest[i]).id) by {
                assert(rest[i] == results[i]);
            }
            assert(has_id(documents, results[results.len() - 1].id));
            assert(all =~= results);
        }
        assert forall|k: int| 0 <= k < all.len() implies results.contains(#[trigger] all[k]) && has_id(
            documents,
            all[k].id,
        ) by {
            if k < before.len() {
                assert(all[k] == before[k]);
                let n = choose|n: int| 0 <= n < rest.len() && rest[n] == before[k];
                assert(results[n] == all[k]);
            } else {
                assert(results[results.len() - 1] == all[k]);
            }
        }
        assert forall|i: int| 0 <= i < results.len() && has_id(documents, (#[trigger] results[i]).id) implies all.contains(
            results[i],
        ) by {
            if i < rest.len() {
                assert(rest[i] == results[i]);
                let n = choose|n: int| 0 <= n < before.len() && before[n] == results[i];
                assert(all[n] == results[i]);
            } else {
                assert(all[all.len() - 1] == results[i]);
            }
        }
    } else {
        assert(known(results, documents) =~= results);
    }
}

/// What is ranked are the results of which there is a document, in the order in which they were
/// found.
pub proof fn law_known(results: Seq<SearchResult>, documents: Seq<Document>)
    ensures
        known(results, documents) == results.filter(|r: SearchResult| has_id(documents, r.id)),
    decreases results.len(),
{
    reveal(Seq::filter);
    if results.len() > 0 {
        law_known(results.drop_last(), documents);
    } else {
        assert(known(results, documents) =~= results.filter(|r: SearchResult| has_id(documents, r.id)));
    }
}

/// The ranking follows the scores: a result with a higher combined score stands before one with a
/// lower one, a number before what is none, and of two equal ones the one that was found first.
pub proof fn law_ranking_follows_scores(scored: Seq<RankedResult>, ranked: Seq<RankedResult>, i: int, j: int, p: int, q: int)
    requires
        scored.len() <= usize::MAX,
        is_ranking(scored, ranked),
        forall|a: int, b: int| 0 <= a < b < scored.len() ==> (#[trigger] scored[a]).id != (#[trigger] scored[b]).id,
        0 <= i < scored.len(),
        0 <= j < scored.len(),
        0 <= p < ranked.len(),
        0 <= q < ranked.len(),
        ranked[p].id == scored[i].id,
        ranked[q].id == scored[j].id,
        scored[i].combined_score.greater(scored[j].combined_score) || (!scored[i].combined_score.nan()
            && scored[j].combined_score.nan()) || (i < j && scored[i].combined_score == scored[j].combined_score),
    ensures
        ranked.len() == scored.len(),
        ranked[p] == scored[i],
        ranked[q] == scored[j],
        p < q,
{
    let keys = combined_keys(scored);
    let order = choose|order: Seq<usize>| #[trigger]
        is_stable_order(keys, order) && ranked == order.map_values(|k: usize| scored[k as int]);
    let (a, b) = (order[p] as int, order[q] as int);
    assert(ranked[p] == scored[a] && ranked[q] == scored[b]);
    if a < i {
        assert(scored[a].id != scored[i].id);
    }
    if i < a {
        assert(scored[i].id != scored[a].id);
    }
    if b < j {
        assert(scored[b].id != scored[j].id);
    }
    if j < b {
        assert(scored[j].id != scored[b].id);
    }
    lemma_descending_key(scored[i].combined_score, scored[j].combined_score);
    lemma_descending_key(scored[j].combined_score, scored[i].combined_score);
    if q < p {
        assert(precedes(keys, order[q] as int, order[p] as int));
    }
}

} // verus!
