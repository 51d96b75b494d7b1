//! What is ingested is recalled: the documents of a memory and the vectors of its index go
//! together, and a recall finds all documents that it is asked for.
use crate::document::{
    first_with, has_id, lemma_first_with, Document, DocumentFields, DocumentKind, DocumentType, Recalled,
};
use crate::index::{lemma_live, live, SearchResult, TurboIndex};
use crate::persistent::{
    after_ingest, at_most, contents, is_recall_config, is_wanted, lemma_remembered, recalled, without, MemoryState,
    PersistentMemory,
};
use crate::ranker::{
    all_scored, combined_keys, is_ranking, is_scored, known, lemma_known, lemma_scored_at, RankedResult, RankingConfig,
};
use crate::scalar::{lemma_descending_key, Scalar};
use crate::session::SEARCH_LIMIT;
use crate::sorting::{is_leading, is_stable_order, lemma_order_is_permutation, precedes};
use crate::turboquant::PreparedQuery;
use vstd::prelude::*;

verus! {

/// The identifiers of documents.
pub open spec fn ids_of(documents: Seq<DocumentFields>) -> Seq<u64> {
    documents.map_values(|d: DocumentFields| d.id)
}

/// The vectors of the index that are not deleted are those of the documents, no two documents
/// have the same identifier, and the next one is above all that were used.
pub open spec fn goes_with(memory: MemoryState, index: TurboIndex) -> bool {
    &&& index.live_identifiers() == ids_of(memory.documents)
    &&& ids_of(memory.documents).no_duplicates()
    &&& forall|i: int| 0 <= i < memory.documents.len() ==> (#[trigger] memory.documents[i]).id < memory.next_id
    &&& forall|x: u64| #[trigger] index.removed().contains(x) ==> x < memory.next_id
}

/// A memory and an index that go together still do after a text was ingested: the document is
/// remembered, and its vector inserted under its identifier.
pub proof fn law_ingest_keeps_together(
    before: MemoryState,
    index: TurboIndex,
    content: Seq<char>,
    kind: DocumentKind,
    path: Option<Seq<char>>,
    timestamp: u64,
    after: TurboIndex,
)
    requires
        goes_with(before, index),
        before.next_id < u64::MAX,
        after.identifiers() == index.identifiers().push(before.next_id),
        after.removed() == index.removed(),
    ensures
        goes_with(after_ingest(before, content, kind, path, timestamp), after),
{
    let state = after_ingest(before, content, kind, path, timestamp);
    let ids = after.identifiers();
    assert(ids.drop_last() =~= index.identifiers());
    assert(!index.removed().contains(before.next_id));
    lemma_live(index.identifiers(), index.removed());
    assert(after.live_positions() =~= index.live_positions().push(ids.len() - 1));
    assert(ids_of(state.documents) =~= ids_of(before.documents).push(before.next_id));
    assert(after.live_identifiers() =~= index.live_identifiers().push(before.next_id));
    assert forall|i: int, j: int|
        0 <= i < ids_of(state.documents).len() && 0 <= j < ids_of(state.documents).len() && i != j implies ids_of(
        state.documents,
    )[i] != ids_of(state.documents)[j] by {
        if i < before.documents.len() && j < before.documents.len() {
            assert(ids_of(before.documents)[i] != ids_of(before.documents)[j]);
        } else if i < before.documents.len() {
            assert(before.documents[i].id < before.next_id);
        } else {
            assert(before.documents[j].id < before.next_id);
        }
    }
    assert forall|i: int| 0 <= i < state.documents.len() implies (#[trigger] state.documents[i]).id < state.next_id by {
        if i < before.documents.len() {
            assert(before.documents[i].id < before.next_id);
        }
    }
}

proof fn lemma_delete_without(ids: Seq<u64>, removed: Set<u64>, documents: Seq<DocumentFields>, id: u64)
    requires
        live(ids, removed).map_values(|i: int| ids[i]) == ids_of(documents),
    ensures
        live(ids, removed.insert(id)).map_values(|i: int| ids[i]) == ids_of(without(documents, id)),
    decreases ids.len(),
{
    let before = live(ids, removed).map_values(|i: int| ids[i]);
    let after = live(ids, removed.insert(id)).map_values(|i: int| ids[i]);
    if ids.len() == 0 {
        assert(documents.len() == 0) by {
            assert(ids_of(documents).len() == documents.len());
        }
        assert(after =~= ids_of(without(documents, id)));
    } else {
        let rest = ids.drop_last();
        lemma_live(rest, removed);
        lemma_live(rest, removed.insert(id));
        let short = live(rest, removed).map_values(|i: int| rest[i]);
        let short_after = live(rest, removed.insert(id)).map_values(|i: int| rest[i]);
        if removed.contains(ids.last()) {
            assert(before =~= short);
            lemma_delete_without(rest, removed, documents, id);
            assert(after =~= short_after);
        } else {
            assert(before =~= short.push(ids.last()));
            assert(ids_of(documents).len() == documents.len());
            assert(ids_of(documents.drop_last()) =~= before.drop_last());
            assert(before.drop_last() =~= short);
            lemma_delete_without(rest, removed, documents.drop_last(), id);
            assert(documents.last().id == ids.last()) by {
                assert(ids_of(documents)[documents.len() - 1] == before[before.len() - 1]);
            }
            let kept = without(documents.drop_last(), id);
            if ids.last() == id {
                assert(after =~= short_after);
            } else {
                assert(after =~= short_after.push(ids.last()));
                assert(ids_of(kept.push(documents.last())) =~= ids_of(kept).push(ids.last()));
            }
        }
    }
}

/// A memory and an index that go together still do after a document was removed: it is
/// forgotten, and its identifier deleted from the index.
pub proof fn law_remove_keeps_together(before: MemoryState, index: TurboIndex, id: u64, state: MemoryState, after: TurboIndex)
    requires
        goes_with(before, index),
        index.identifiers().contains(id),
        state.documents == without(before.documents, id),
        state.next_id == before.next_id,
        after.identifiers() == index.identifiers(),
        after.removed() == index.removed().insert(id),
    ensures
        goes_with(state, after),
{
    if !index.removed().contains(id) {
        lemma_live(index.identifiers(), index.removed());
        let at = choose|at: int| 0 <= at < index.identifiers().len() && index.identifiers()[at] == id;
        assert(index.live_positions().contains(at));
        let k = choose|k: int| 0 <= k < index.live_positions().len() && index.live_positions()[k] == at;
        assert(index.live_identifiers()[k] == id);
        assert(ids_of(before.documents).len() == before.documents.len());
        assert(ids_of(before.documents)[k] == before.documents[k].id);
    }
    lemma_delete_without(index.identifiers(), index.removed(), before.documents, id);
    assert(after.live_identifiers() =~= ids_of(state.documents));
    lemma_without_distinct(before.documents, id);
    crate::persistent::law_removed_is_forgotten(before.documents, id);
    assert forall|i: int| 0 <= i < state.documents.len() implies (#[trigger] state.documents[i]).id < state.next_id by {
        let k = choose|k: int| 0 <= k < before.documents.len() && before.documents[k] == state.documents[i];
        assert(before.documents[k].id < before.next_id);
    }
}

proof fn lemma_without_distinct(documents: Seq<DocumentFields>, id: u64)
    requires
        ids_of(documents).no_duplicates(),
    ensures
        ids_of(without(documents, id)).no_duplicates(),
    decreases documents.len(),
{
    if documents.len() > 0 {
        let rest = documents.drop_last();
        assert forall|i: int, j: int|
            0 <= i < ids_of(rest).len() && 0 <= j < ids_of(rest).len() && i != j implies ids_of(rest)[i]
            != ids_of(rest)[j] by {
            assert(ids_of(documents)[i] != ids_of(documents)[j]);
        }
        lemma_without_distinct(rest, id);
        crate::persistent::law_removed_is_forgotten(rest, id);
        let before = without(rest, id);
        let all = without(documents, id);
        if documents.last().id != id {
            assert forall|i: int, j: int|
                0 <= i < ids_of(all).len() && 0 <= j < ids_of(all).len() && i != j implies ids_of(all)[i]
                != ids_of(all)[j] by {
                let (a, b) = if i < j {
                    (i, j)
                } else {
                    (j, i)
                };
                assert(ids_of(all)[a] == ids_of(before)[a]);
                if b < before.len() {
                    assert(ids_of(all)[b] == ids_of(before)[b]);
                    assert(ids_of(before)[a] != ids_of(before)[b]);
                } else {
                    let k = choose|k: int| 0 <= k < rest.len() && rest[k] == before[a];
                    assert(rest.contains(before[a]));
                    assert(ids_of(documents)[k] != ids_of(documents)[documents.len() - 1]);
                }
            }
        }
    }
}

/// How many of the documents are of the listed types, or of any where none is listed.
pub open spec fn wanted_count(documents: Seq<DocumentFields>, types: Seq<DocumentType>) -> nat
    decreases documents.len(),
{
    if documents.len() == 0 {
        0
    } else {
        wanted_count(documents.drop_last(), types) + (if is_wanted(documents.last().kind, types) {
            1nat
        } else {
            0nat
        })
    }
}

/// The document with the identifier is of the listed types.
spec fn is_asked(documents: Seq<Document>, types: Seq<DocumentType>, id: u64) -> bool {
    has_id(documents, id) && is_wanted(first_with(documents, id)@.kind, types)
}

/// How many of the identifiers are those of documents of the listed types.
spec fn asked_count(ids: Seq<u64>, documents: Seq<Document>, types: Seq<DocumentType>) -> nat
    decreases ids.len(),
{
    if ids.len() == 0 {
        0
    } else {
        asked_count(ids.drop_last(), documents, types) + (if is_asked(documents, types, ids.last()) {
            1nat
        } else {
            0nat
        })
    }
}

proof fn lemma_asked_remove(ids: Seq<u64>, i: int, documents: Seq<Document>, types: Seq<DocumentType>)
    requires
        0 <= i < ids.len(),
    ensures
        asked_count(ids, documents, types) == asked_count(ids.remove(i), documents, types) + (if is_asked(
            documents,
            types,
            ids[i],
        ) {
            1nat
        } else {
            0nat
        }),
    decreases ids.len(),
{
    if i == ids.len() - 1 {
        assert(ids.remove(i) =~= ids.drop_last());
    } else {
        lemma_asked_remove(ids.drop_last(), i, documents, types);
        assert(ids.remove(i).drop_last() =~= ids.drop_last().remove(i));
        assert(ids.remove(i).last() == ids.last());
    }
}

/// Lists of the same identifiers, each without duplicates, have the same count.
proof fn lemma_same_count(a: Seq<u64>, b: Seq<u64>, documents: Seq<Document>, types: Seq<DocumentType>)
    requires
        a.no_duplicates(),
        b.no_duplicates(),
        forall|x: u64| #[trigger] a.contains(x) <==> b.contains(x),
    ensures
        asked_count(a, documents, types) == asked_count(b, documents, types),
    decreases a.len(),
{
    if a.len() == 0 {
        if b.len() > 0 {
            assert(b.contains(b[0]));
            assert(a.contains(b[0]));
        }
    } else {
        let x = a.last();
        let rest = a.drop_last();
        assert(a.contains(x));
        let i = choose|i: int| 0 <= i < b.len() && b[i] == x;
        let less = b.remove(i);
        lemma_asked_remove(b, i, documents, types);
        assert(rest.no_duplicates());
        assert forall|m: int, n: int| 0 <= m < less.len() && 0 <= n < less.len() && m != n implies less[m] != less[n] by {
            let p = if m < i {
                m
            } else {
                m + 1
            };
            let q = if n < i {
                n
            } else {
                n + 1
            };
            assert(b[p] != b[q]);
        }
        assert forall|y: u64| #[trigger] rest.contains(y) <==> less.contains(y) by {
            if rest.contains(y) {
                let k = choose|k: int| 0 <= k < rest.len() && rest[k] == y;
                assert(a[k] == y && a[k] != a[a.len() - 1]);
                assert(a.contains(y));
                let m = choose|m: int| 0 <= m < b.len() && b[m] == y;
                if m < i {
                    assert(less[m] == y);
                } else {
                    assert(less[m - 1] == y);
                }
            }
            if less.contains(y) {
                let m = choose|m: int| 0 <= m < less.len() && less[m] == y;
                let p = if m < i {
                    m
                } else {
                    m + 1
                };
                assert(b[p] == y && b[p] != b[i]);
                assert(b.contains(y));
                assert(a.contains(y));
                let k = choose|k: int| 0 <= k < a.len() && a[k] == y;
                assert(rest[k] == y);
            }
        }
        lemma_same_count(rest, less, documents, types);
    }
}

/// Each document is asked for by its own identifier.
proof fn lemma_own_count(documents: Seq<Document>, types: Seq<DocumentType>, n: int)
    requires
        ids_of(contents(documents)).no_duplicates(),
        0 <= n <= documents.len(),
    ensures
        asked_count(ids_of(contents(documents)).take(n), documents, types) == wanted_count(
            contents(documents).take(n),
            types,
        ),
    decreases n,
{
    if n > 0 {
        lemma_own_count(documents, types, n - 1);
        let ids = ids_of(contents(documents));
        assert(ids.take(n).drop_last() =~= ids.take(n - 1));
        assert(contents(documents).take(n).drop_last() =~= contents(documents).take(n - 1));
        lemma_own(documents, n - 1);
    }
}

proof fn lemma_own(documents: Seq<Document>, i: int)
    requires
        ids_of(contents(documents)).no_duplicates(),
        0 <= i < documents.len(),
    ensures
        has_id(documents, documents[i].id),
        first_with(documents, documents[i].id) == documents[i],
{
    let ids = ids_of(contents(documents));
    assert(ids[i] == documents[i].id);
    assert forall|k: int| 0 <= k < i implies (#[trigger] documents[k]).id != documents[i].id by {
        assert(ids[k] != ids[i]);
    }
    lemma_first_with(documents, documents[i].id, i);
}

proof fn lemma_known_all(results: Seq<SearchResult>, documents: Seq<Document>)
    requires
        forall|k: int| 0 <= k < results.len() ==> has_id(documents, (#[trigger] results[k]).id),
    ensures
        known(results, documents) == results,
    decreases results.len(),
{
    if results.len() > 0 {
        lemma_known_all(results.drop_last(), documents);
        assert(has_id(documents, results[results.len() - 1].id));
        assert(results.drop_last().push(results.last()) =~= results);
    }
}

spec fn ranked_ids(ranked: Seq<RankedResult>) -> Seq<u64> {
    ranked.map_values(|r: RankedResult| r.id)
}

/// What is recalled is the documents of the ranked identifiers that are asked for.
proof fn lemma_recalled(ranked: Seq<RankedResult>, documents: Seq<Document>, types: Seq<DocumentType>)
    ensures
        recalled(ranked, documents, types).len() == asked_count(ranked_ids(ranked), documents, types),
        forall|k: int|
            0 <= k < ranked.len() && is_asked(documents, types, (#[trigger] ranked[k]).id) ==> exists|n: int|
                0 <= n < recalled(ranked, documents, types).len() && (#[trigger] recalled(
                    ranked,
                    documents,
                    types,
                )[n]).document == first_with(documents, ranked[k].id)@,
    decreases ranked.len(),
{
    if ranked.len() > 0 {
        let rest = ranked.drop_last();
        lemma_recalled(rest, documents, types);
        assert(ranked_ids(ranked).drop_last() =~= ranked_ids(rest));
        let before = recalled(rest, documents, types);
        let all = recalled(ranked, documents, types);
        assert forall|k: int|
            0 <= k < ranked.len() && is_asked(documents, types, (#[trigger] ranked[k]).id) implies exists|n: int|
            0 <= n < all.len() && (#[trigger] all[n]).document == first_with(documents, ranked[k].id)@ by {
            if k < rest.len() {
                assert(rest[k] == ranked[k]);
                let n = choose|n: int|
                    0 <= n < before.len() && (#[trigger] before[n]).document == first_with(documents, rest[k].id)@;
                assert(all[n] == before[n]);
            } else {
                assert(all[all.len() - 1].document == first_with(documents, ranked[k].id)@);
            }
        }
    }
}

/// A search for at least as many as there are finds every live vector once.
proof fn lemma_finds_all(index: TurboIndex, scores: Seq<Scalar>, picks: Seq<usize>, top_k: int)
    requires
        scores.len() == index.live_positions().len(),
        scores.len() <= top_k,
        scores.len() <= usize::MAX,
        is_leading(TurboIndex::score_keys(scores), picks, top_k),
        index.live_identifiers().no_duplicates(),
    ensures
        picks.len() == scores.len(),
        ({
            let found = Seq::new(picks.len(), |i: int| index.live_identifiers()[picks[i] as int]);
            found.no_duplicates() && forall|x: u64| #[trigger]
                found.contains(x) <==> index.live_identifiers().contains(x)
        }),
{
    let keys = TurboIndex::score_keys(scores);
    let ids = index.live_identifiers();
    let found = Seq::new(picks.len(), |i: int| ids[picks[i] as int]);
    assert(is_stable_order(keys, picks));
    lemma_order_is_permutation(keys, picks);
    lemma_reordered(ids, picks, found);
}

/// Identifiers in another order are the same identifiers.
proof fn lemma_reordered(ids: Seq<u64>, order: Seq<usize>, found: Seq<u64>)
    requires
        ids.no_duplicates(),
        ids.len() <= usize::MAX,
        order.len() == ids.len(),
        order.no_duplicates(),
        forall|i: int| 0 <= i < order.len() ==> #[trigger] order[i] < ids.len(),
        forall|k: int| 0 <= k < ids.len() ==> #[trigger] order.contains(k as usize),
        found.len() == order.len(),
        forall|i: int| 0 <= i < found.len() ==> #[trigger] found[i] == ids[order[i] as int],
    ensures
        found.no_duplicates(),
        forall|x: u64| #[trigger] found.contains(x) <==> ids.contains(x),
{
    assert forall|i: int, j: int| 0 <= i < found.len() && 0 <= j < found.len() && i != j implies found[i]
        != found[j] by {
        assert(order[i] != order[j]);
    }
    assert forall|x: u64| #[trigger] found.contains(x) <==> ids.contains(x) by {
        if found.contains(x) {
            let i = choose|i: int| 0 <= i < found.len() && found[i] == x;
            assert(ids[order[i] as int] == x);
        }
        if ids.contains(x) {
            let k = choose|k: int| 0 <= k < ids.len() && ids[k] == x;
            assert(order.contains(k as usize));
            let i = choose|i: int| 0 <= i < order.len() && order[i] == k as usize;
            assert(found[i] == x);
        }
    }
}

/// The ranking of search results names each of them once.
proof fn lemma_ranked(
    results: Seq<SearchResult>,
    scored: Seq<RankedResult>,
    ranked: Seq<RankedResult>,
)
    requires
        scored.len() == results.len(),
        scored.len() <= usize::MAX,
        forall|k: int| 0 <= k < scored.len() ==> (#[trigger] scored[k]).id == results[k].id,
        is_ranking(scored, ranked),
        results.map_values(|r: SearchResult| r.id).no_duplicates(),
    ensures
        ranked_ids(ranked).no_duplicates(),
        forall|x: u64| #[trigger]
            ranked_ids(ranked).contains(x) <==> results.map_values(|r: SearchResult| r.id).contains(x),
{
    let ids = results.map_values(|r: SearchResult| r.id);
    let keys = combined_keys(scored);
    let order = choose|order: Seq<usize>| #[trigger]
        is_stable_order(keys, order) && ranked == order.map_values(|k: usize| scored[k as int]);
    lemma_order_is_permutation(keys, order);
    assert forall|i: int| 0 <= i < ranked_ids(ranked).len() implies #[trigger] ranked_ids(ranked)[i]
        == ids[order[i] as int] by {
        assert(ranked[i] == scored[order[i] as int]);
    }
    lemma_reordered(ids, order, ranked_ids(ranked));
}

/// What was ingested is recalled. Where the index goes with the memory and has no more vectors
/// than a search looks for, a recall gives as many documents as are asked for, or all of the
/// listed types where these are fewer; and where they are no more, every one of them.
pub proof fn law_ingested_is_recalled<
    T: Fn(&[Scalar], &[Scalar]) -> Scalar,
    F: Fn(Scalar, bool, Scalar) -> Scalar,
    G: Fn(Scalar, Scalar) -> Scalar,
    H: Fn(Scalar, Scalar, Scalar) -> Scalar,
    R: Fn(u64) -> Scalar,
    C: Fn(Scalar, Scalar, Scalar, Scalar) -> Scalar,
>(
    memory: PersistentMemory,
    index: TurboIndex,
    q: PreparedQuery,
    file: Seq<u8>,
    dot: T,
    step: F,
    scale: G,
    finish: H,
    found: Seq<SearchResult>,
    top_k: usize,
    types: Seq<DocumentType>,
    now: u64,
    recency: R,
    combine: C,
    r: Seq<Recalled>,
)
    requires
        goes_with(memory@, index),
        memory@.documents.len() <= 50,
        index.finds(q, file, SEARCH_LIMIT as int, dot, step, scale, finish, found),
        memory.recalled_from(found, top_k, types, now, recency, combine, r),
    ensures
        r.len() == (if wanted_count(memory@.documents, types) <= top_k {
            wanted_count(memory@.documents, types)
        } else {
            top_k as nat
        }),
        wanted_count(memory@.documents, types) <= top_k ==> forall|i: int|
            0 <= i < memory@.documents.len() && is_wanted((#[trigger] memory@.documents[i]).kind, types) ==> exists|n: int|
                0 <= n < r.len() && (#[trigger] r[n]).document == memory@.documents[i],
{
    let documents = memory.remembered();
    lemma_remembered(memory);
    let own = ids_of(contents(documents));
    assert(index.live_identifiers().len() == own.len());
    let scores = choose|scores: Seq<Scalar>|
        {
            &&& #[trigger] index.are_best(scores, SEARCH_LIMIT as int, found)
            &&& scores.len() == index.live_positions().len()
            &&& forall|k: int|
                0 <= k < scores.len() ==> index.scored(
                    q,
                    file,
                    index.live_positions()[k],
                    dot,
                    step,
                    scale,
                    finish,
                    #[trigger] scores[k],
                )
        };
    let picks = choose|picks: Seq<usize>| #[trigger]
        is_leading(TurboIndex::score_keys(scores), picks, SEARCH_LIMIT as int) && found == picks.map_values(
            |k: usize|
                SearchResult {
                    id: index.identifiers()[index.live_positions()[k as int]],
                    score: scores[k as int],
                },
        );
    lemma_finds_all(index, scores, picks, SEARCH_LIMIT as int);
    let found_ids = found.map_values(|r: SearchResult| r.id);
    assert(found_ids =~= Seq::new(picks.len(), |i: int| index.live_identifiers()[picks[i] as int]));
    assert forall|k: int| 0 <= k < found.len() implies has_id(documents, (#[trigger] found[k]).id) by {
        assert(found_ids[k] == found[k].id);
        assert(found_ids.contains(found[k].id));
        let n = choose|n: int| 0 <= n < own.len() && own[n] == found[k].id;
        assert(documents[n].id == found[k].id);
    }
    lemma_known_all(found, documents);
    let (config, scored, ranked) = choose|
        config: RankingConfig,
        scored: Seq<RankedResult>,
        ranked: Seq<RankedResult>,
    |
        #![trigger all_scored(found, memory.remembered(), now, config, recency, combine, scored), is_ranking(scored, ranked)]
        {
            &&& is_recall_config(config)
            &&& all_scored(found, memory.remembered(), now, config, recency, combine, scored)
            &&& is_ranking(scored, ranked)
            &&& r == at_most(recalled(ranked, memory.remembered(), types), top_k as int)
        };
    lemma_ranked(found, scored, ranked);
    assert forall|x: u64| #[trigger] ranked_ids(ranked).contains(x) <==> own.contains(x) by {
        assert(ranked_ids(ranked).contains(x) <==> found_ids.contains(x));
        assert(found_ids.contains(x) <==> index.live_identifiers().contains(x));
    }
    lemma_same_count(ranked_ids(ranked), own, documents, types);
    lemma_own_count(documents, types, documents.len() as int);
    assert(own.take(documents.len() as int) =~= own);
    assert(contents(documents).take(documents.len() as int) =~= contents(documents));
    lemma_recalled(ranked, documents, types);
    let all = recalled(ranked, documents, types);
    if wanted_count(memory@.documents, types) <= top_k {
        assert forall|i: int|
            0 <= i < memory@.documents.len() && is_wanted((#[trigger] memory@.documents[i]).kind, types) implies exists|
            n: int,
        |
            0 <= n < r.len() && (#[trigger] r[n]).document == memory@.documents[i] by {
            lemma_own(documents, i);
            assert(own[i] == documents[i].id);
            assert(own.contains(documents[i].id));
            assert(ranked_ids(ranked).contains(documents[i].id));
            let k = choose|k: int| 0 <= k < ranked_ids(ranked).len() && ranked_ids(ranked)[k] == documents[i].id;
            assert(ranked[k].id == documents[i].id);
            assert(is_asked(documents, types, ranked[k].id));
            let n = choose|n: int|
                0 <= n < all.len() && (#[trigger] all[n]).document == first_with(documents, ranked[k].id)@;
            assert(r[n] == all[n]);
        }
    }
}

/// A document with the scores of its result.
pub open spec fn with_scores(d: DocumentFields, x: RankedResult) -> Recalled {
    Recalled {
        document: d,
        relevance_score: x.relevance_score,
        recency_score: x.recency_score,
        combined_score: x.combined_score,
    }
}

/// The result has a document, and its type is asked for.
pub open spec fn is_sought(documents: Seq<Document>, types: Seq<DocumentType>, id: u64) -> bool {
    has_id(documents, id) && is_wanted(first_with(documents, id)@.kind, types)
}

proof fn lemma_recalled_members(ranked: Seq<RankedResult>, documents: Seq<Document>, types: Seq<DocumentType>)
    requires
        forall|i: int, j: int|
            0 <= i < j < ranked.len() ==> (#[trigger] ranked[i]).combined_score.descending_key() <= (
            #[trigger] ranked[j]).combined_score.descending_key(),
    ensures
        ({
            let list = recalled(ranked, documents, types);
            &&& forall|p: int|
                0 <= p < ranked.len() && is_sought(documents, types, (#[trigger] ranked[p]).id) ==> list.contains(
                    with_scores(first_with(documents, ranked[p].id)@, ranked[p]),
                )
            &&& forall|m: int| 0 <= m < list.len() ==> is_of_ranked(ranked, documents, types, #[trigger] list[m])
            &&& forall|m: int, n: int|
                0 <= m < n < list.len() ==> (#[trigger] list[m]).combined_score.descending_key() <= (
                #[trigger] list[n]).combined_score.descending_key()
        }),
    decreases ranked.len(),
{
    if ranked.len() > 0 {
        let rest = ranked.drop_last();
        assert forall|i: int, j: int| 0 <= i < j < rest.len() implies (
        #[trigger] rest[i]).combined_score.descending_key() <= (#[trigger] rest[j]).combined_score.descending_key() by {
            assert(rest[i] == ranked[i] && rest[j] == ranked[j]);
        }
        lemma_recalled_members(rest, documents, types);
        let (before, list) = (recalled(rest, documents, types), recalled(ranked, documents, types));
        let last = ranked[ranked.len() - 1];
        assert forall|p: int| 0 <= p < ranked.len() && is_sought(
            documents,
            types,
            (#[trigger] ranked[p]).id,
        ) implies list.contains(with_scores(first_with(documents, ranked[p].id)@, ranked[p])) by {
            let one = with_scores(first_with(documents, ranked[p].id)@, ranked[p]);
            if p < rest.len() {
                assert(rest[p] == ranked[p]);
                assert(before.contains(one));
                let m = choose|m: int| 0 <= m < before.len() && before[m] == one;
                assert(list[m] == one);
            } else {
                assert(list[before.len() as int] =~= one);
            }
        }
        assert forall|m: int| 0 <= m < list.len() implies is_of_ranked(ranked, documents, types, #[trigger] list[m]) by {
            if m < before.len() {
                assert(list[m] == before[m]);
                assert(is_of_ranked(rest, documents, types, before[m]));
                let p = choose|p: int|
                    0 <= p < rest.len() && is_sought(documents, types, (#[trigger] rest[p]).id) && before[m] == with_scores(
                        first_with(documents, rest[p].id)@,
                        rest[p],
                    );
                assert(ranked[p] == rest[p]);
            } else {
                assert(list[m] =~= with_scores(first_with(documents, last.id)@, last));
                assert(is_sought(documents, types, ranked[ranked.len() - 1].id));
            }
        }
        assert forall|m: int, n: int| 0 <= m < n < list.len() implies (
        #[trigger] list[m]).combined_score.descending_key() <= (#[trigger] list[n]).combined_score.descending_key() by {
            assert(list[m] == before[m]);
            if n < before.len() {
                assert(list[n] == before[n]);
            } else {
                assert(is_of_ranked(rest, documents, types, before[m]));
                let p = choose|p: int|
                    0 <= p < rest.len() && is_sought(documents, types, (#[trigger] rest[p]).id) && before[m] == with_scores(
                        first_with(documents, rest[p].id)@,
                        rest[p],
                    );
                assert(ranked[p] == rest[p]);
                assert(ranked[p].combined_score.descending_key() <= last.combined_score.descending_key());
            }
        }
    }
}

/// What is recalled is the document of a ranked result, with its scores, and is asked for.
spec fn is_of_ranked(
    ranked: Seq<RankedResult>,
    documents: Seq<Document>,
    types: Seq<DocumentType>,
    r: Recalled,
) -> bool {
    exists|p: int|
        0 <= p < ranked.len() && is_sought(documents, types, (#[trigger] ranked[p]).id) && r == with_scores(
            first_with(documents, ranked[p].id)@,
            ranked[p],
        )
}

/// What is recalled is the document of a search result whose type is asked for, with scores that
/// rank it.
pub open spec fn is_of_found<R: Fn(u64) -> Scalar, C: Fn(Scalar, Scalar, Scalar, Scalar) -> Scalar>(
    found: Seq<SearchResult>,
    documents: Seq<Document>,
    types: Seq<DocumentType>,
    now: u64,
    config: RankingConfig,
    recency: R,
    combine: C,
    r: Recalled,
) -> bool {
    exists|i: int, x: RankedResult|
        {
            &&& 0 <= i < found.len()
            &&& is_sought(documents, types, (#[trigger] found[i]).id)
            &&& #[trigger] is_scored(
                found[i],
                first_with(documents, found[i].id)@,
                now,
                config,
                recency,
                combine,
                x,
            )
            &&& r == with_scores(first_with(documents, found[i].id)@, x)
        }
}

/// A search result is recalled, with scores that rank it, or as many documents as asked for are
/// that do not rank below it.
pub open spec fn is_recalled_or_outranked<R: Fn(u64) -> Scalar, C: Fn(Scalar, Scalar, Scalar, Scalar) -> Scalar>(
    found: SearchResult,
    documents: Seq<Document>,
    now: u64,
    config: RankingConfig,
    recency: R,
    combine: C,
    top_k: int,
    r: Seq<Recalled>,
) -> bool {
    exists|x: RankedResult|
        {
            &&& #[trigger] is_scored(found, first_with(documents, found.id)@, now, config, recency, combine, x)
            &&& r.contains(with_scores(first_with(documents, found.id)@, x)) || (r.len() == top_k && forall|k: int|
                0 <= k < r.len() ==> (#[trigger] r[k]).combined_score.at_least(x.combined_score)
                    || x.combined_score.nan())
        }
}

/// A recall gives the best of what the search found: the documents of the types asked for, as many
/// as asked for or all where there are fewer, from the best combined score on. None that is left
/// out ranks above one given. Relevance counts seven tenths, and recency, from the given time back,
/// three tenths.
#[verifier::rlimit(40)]
pub proof fn law_recall_gives_the_best<R: Fn(u64) -> Scalar, C: Fn(Scalar, Scalar, Scalar, Scalar) -> Scalar>(
    memory: PersistentMemory,
    found: Seq<SearchResult>,
    top_k: usize,
    types: Seq<DocumentType>,
    now: u64,
    recency: R,
    combine: C,
    r: Seq<Recalled>,
)
    requires
        found.len() <= usize::MAX,
        memory.recalled_from(found, top_k, types, now, recency, combine, r),
    ensures
        r.len() <= top_k,
        forall|m: int, n: int|
            0 <= m < n < r.len() ==> (#[trigger] r[m]).combined_score.at_least((#[trigger] r[n]).combined_score)
                || r[n].combined_score.nan(),
        exists|config: RankingConfig|
            {
                &&& config.relevance_weight.bits == 0x3f33_3333
                &&& config.recency_weight.bits == 0x3e99_999a
                &&& forall|m: int|
                    0 <= m < r.len() ==> is_of_found(
                        found,
                        memory.remembered(),
                        types,
                        now,
                        config,
                        recency,
                        combine,
                        #[trigger] r[m],
                    )
                &&& forall|i: int|
                    0 <= i < found.len() && is_sought(memory.remembered(), types, (#[trigger] found[i]).id)
                        ==> #[trigger] is_recalled_or_outranked(
                        found[i],
                        memory.remembered(),
                        now,
                        config,
                        recency,
                        combine,
                        top_k as int,
                        r,
                    )
            },
{
    let documents = memory.remembered();
    let (config, scored, ranked) = choose|
        config: RankingConfig,
        scored: Seq<RankedResult>,
        ranked: Seq<RankedResult>,
    |
        #![trigger all_scored(found, documents, now, config, recency, combine, scored), is_ranking(scored, ranked)]
        {
            &&& is_recall_config(config)
            &&& all_scored(found, documents, now, config, recency, combine, scored)
            &&& is_ranking(scored, ranked)
            &&& r == at_most(recalled(ranked, documents, types), top_k as int)
        };
    let list = recalled(ranked, documents, types);
    let keys = combined_keys(scored);
    let order = choose|order: Seq<usize>| #[trigger]
        is_stable_order(keys, order) && ranked == order.map_values(|k: usize| scored[k as int]);
    lemma_known(found, documents);
    lemma_order_is_permutation(keys, order);
    assert forall|i: int, j: int| 0 <= i < j < ranked.len() implies (
    #[trigger] ranked[i]).combined_score.descending_key() <= (#[trigger] ranked[j]).combined_score.descending_key() by {
        assert(precedes(keys, order[i] as int, order[j] as int));
    }
    lemma_recalled_members(ranked, documents, types);
    assert forall|m: int, n: int| 0 <= m < n < r.len() implies (#[trigger] r[m]).combined_score.at_least(
        (#[trigger] r[n]).combined_score,
    ) || r[n].combined_score.nan() by {
        assert(r[m] == list[m] && r[n] == list[n]);
        lemma_descending_key(r[m].combined_score, r[n].combined_score);
        lemma_descending_key(r[n].combined_score, r[m].combined_score);
    }
    assert forall|m: int| 0 <= m < r.len() implies is_of_found(
        found,
        documents,
        types,
        now,
        config,
        recency,
        combine,
        #[trigger] r[m],
    ) by {
        assert(r[m] == list[m]);
        lemma_ranked_is_found(found, documents, types, now, config, recency, combine, scored, order, ranked, r[m]);
    }
    assert forall|i: int| 0 <= i < found.len() && is_sought(
        documents,
        types,
        (#[trigger] found[i]).id,
    ) implies #[trigger] is_recalled_or_outranked(
        found[i],
        documents,
        now,
        config,
        recency,
        combine,
        top_k as int,
        r,
    ) by {
        let known_results = known(found, documents);
        assert(known_results.contains(found[i]));
        let a = choose|a: int| 0 <= a < known_results.len() && known_results[a] == found[i];
        lemma_scored_at(found, documents, now, config, recency, combine, scored, a);
        let x = scored[a];
        assert(order.contains(a as usize));
        let p = choose|p: int| 0 <= p < order.len() && order[p] == a as usize;
        assert(ranked[p] == x);
        let one = with_scores(first_with(documents, found[i].id)@, x);
        assert(list.contains(with_scores(first_with(documents, ranked[p].id)@, ranked[p])));
        let m = choose|m: int| 0 <= m < list.len() && list[m] == one;
        if m < r.len() {
            assert(r[m] == one);
        } else {
            assert forall|k: int| 0 <= k < r.len() implies (#[trigger] r[k]).combined_score.at_least(x.combined_score)
                || x.combined_score.nan() by {
                assert(r[k] == list[k]);
                assert(list[k].combined_score.descending_key() <= list[m].combined_score.descending_key());
                lemma_descending_key(r[k].combined_score, x.combined_score);
                lemma_descending_key(x.combined_score, r[k].combined_score);
            }
        }
    }
}

proof fn lemma_ranked_is_found<R: Fn(u64) -> Scalar, C: Fn(Scalar, Scalar, Scalar, Scalar) -> Scalar>(
    found: Seq<SearchResult>,
    documents: Seq<Document>,
    types: Seq<DocumentType>,
    now: u64,
    config: RankingConfig,
    recency: R,
    combine: C,
    scored: Seq<RankedResult>,
    order: Seq<usize>,
    ranked: Seq<RankedResult>,
    r: Recalled,
)
    requires
        all_scored(found, documents, now, config, recency, combine, scored),
        is_stable_order(combined_keys(scored), order),
        ranked == order.map_values(|k: usize| scored[k as int]),
        is_of_ranked(ranked, documents, types, r),
    ensures
        is_of_found(found, documents, types, now, config, recency, combine, r),
{
    let p = choose|p: int|
        0 <= p < ranked.len() && is_sought(documents, types, (#[trigger] ranked[p]).id) && r == with_scores(
            first_with(documents, ranked[p].id)@,
            ranked[p],
        );
    let a = order[p] as int;
    assert(ranked[p] == scored[a]);
    lemma_scored_at(found, documents, now, config, recency, combine, scored, a);
    lemma_known(found, documents);
    assert(found.contains(known(found, documents)[a]));
    let i = choose|i: int| 0 <= i < found.len() && found[i] == known(found, documents)[a];
    assert(found[i].id == ranked[p].id);
    assert(is_scored(found[i], first_with(documents, found[i].id)@, now, config, recency, combine, scored[a]));
}

} // verus!
