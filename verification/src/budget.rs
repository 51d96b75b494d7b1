//! Selection of documents within a token budget.
use crate::document::{find_document, first_with, has_id, lemma_first_position, Document};
use crate::ranker::{combined_keys, RankedResult};
use crate::sorting::{
    is_stable_order, lemma_order_exists, lemma_order_is_permutation, lemma_order_unique, precedes, stable_order,
};
use vstd::prelude::*;

verus! {

/// What has been selected so far, and how many tokens that took.
#[verifier::ext_equal]
pub struct Selection {
    pub ids: Set<u64>,
    pub used: int,
}

/// Adds a document where its tokens still fit.
pub open spec fn adding(s: Selection, id: u64, tokens: int, budget: int) -> Selection {
    if s.used + tokens <= budget {
        Selection { ids: s.ids.insert(id), used: s.used + tokens }
    } else {
        s
    }
}

/// The documents of the ranked results, in the order of the ranking.
pub open spec fn ranked_documents(ranked: Seq<RankedResult>, documents: Seq<Document>) -> Seq<Document>
    decreases ranked.len(),
{
    if ranked.len() == 0 {
        Seq::empty()
    } else {
        let before = ranked_documents(ranked.drop_last(), documents);
        if has_id(documents, ranked.last().id) {
            before.push(first_with(documents, ranked.last().id))
        } else {
            before
        }
    }
}

/// The key that orders a document before all that are less recent: a later timestamp first,
/// and among equal ones the greater identifier.
pub open spec fn recency_key(d: Document) -> i128 {
    (i128::MAX - (d.timestamp * 0x1_0000_0000_0000_0000 + d.id)) as i128
}

/// The keys that order documents from the most recent on.
pub open spec fn latest_first(documents: Seq<Document>) -> Seq<i128> {
    documents.map_values(|d: Document| recency_key(d))
}

/// Whether `a` is more recent than `b`.
pub open spec fn more_recent(a: Document, b: Document) -> bool {
    a.timestamp > b.timestamp || (a.timestamp == b.timestamp && a.id > b.id)
}

/// The more recent of two documents has the smaller key.
pub proof fn lemma_recency_key(a: Document, b: Document)
    ensures
        recency_key(a) < recency_key(b) <==> more_recent(a, b),
        recency_key(a) == recency_key(b) <==> a.timestamp == b.timestamp && a.id == b.id,
{
}

fn key_of(d: &Document) -> (r: i128)
    ensures
        r == recency_key(*d),
{
    let high: i128 = 0x7fff_ffff_ffff_ffff - d.timestamp as i128;
    let low: i128 = 0xffff_ffff_ffff_ffff - d.id as i128;
    high * 0x1_0000_0000_0000_0000 + low
}

/// The ranked results from the best combined score on. Equal scores keep their order.
pub open spec fn by_score(ranked: Seq<RankedResult>) -> Seq<RankedResult> {
    the_order(combined_keys(ranked)).map_values(|k: usize| ranked[k as int])
}

/// The stable order of positions by their keys.
pub open spec fn the_order(keys: Seq<i128>) -> Seq<usize> {
    choose|order: Seq<usize>| is_stable_order(keys, order)
}

/// The selection after the first `k` of the candidates in the given order.
pub open spec fn kept(candidates: Seq<Document>, order: Seq<usize>, k: int, budget: int) -> Selection
    decreases k,
{
    if k <= 0 {
        Selection { ids: Set::empty(), used: 0 }
    } else {
        let d = candidates[order[k - 1] as int];
        adding(kept(candidates, order, k - 1, budget), d.id, d.token_count as int, budget)
    }
}

/// The selection after the first `k` ranked results were added to `start`, each where it is
/// not selected yet and has a document whose tokens still fit.
pub open spec fn filled(
    ranked: Seq<RankedResult>,
    documents: Seq<Document>,
    start: Selection,
    k: int,
    budget: int,
) -> Selection
    decreases k,
{
    if k <= 0 {
        start
    } else {
        let s = filled(ranked, documents, start, k - 1, budget);
        let id = ranked[k - 1].id;
        if s.ids.contains(id) || !has_id(documents, id) {
            s
        } else {
            adding(s, id, first_with(documents, id).token_count as int, budget)
        }
    }
}

/// How many of the latest candidates are looked at first.
pub open spec fn recent_count(candidates: Seq<Document>, always_keep_recent: int) -> int {
    if always_keep_recent < candidates.len() {
        always_keep_recent
    } else {
        candidates.len() as int
    }
}

/// What is selected: first the most recent candidates, then the others from the best combined
/// score on, each where its tokens still fit.
pub open spec fn selection(
    ranked: Seq<RankedResult>,
    documents: Seq<Document>,
    budget: int,
    always_keep_recent: int,
) -> Selection {
    let candidates = ranked_documents(ranked, documents);
    let order = the_order(latest_first(candidates));
    let recent = kept(candidates, order, recent_count(candidates, always_keep_recent), budget);
    filled(by_score(ranked), documents, recent, ranked.len() as int, budget)
}

/// `r` lists what is selected, each document once, from the earliest on.
pub open spec fn is_chronological(r: Seq<u64>, ids: Set<u64>, documents: Seq<Document>) -> bool {
    &&& r.no_duplicates()
    &&& r.to_set() == ids
    &&& forall|i: int, j: int|
        0 <= i < j < r.len() ==> first_with(documents, #[trigger] r[i]).timestamp <= first_with(
            documents,
            #[trigger] r[j],
        ).timestamp
}

/// Whether the list holds the identifier.
pub(crate) fn contains_id(ids: &Vec<u64>, id: u64) -> (r: bool)
    ensures
        r == ids@.contains(id),
{
    let mut i: usize = 0;
    while i < ids.len()
        invariant
            i <= ids@.len(),
            forall|k: int| 0 <= k < i ==> ids@[k] != id,
        decreases ids@.len() - i,
    {
        if ids[i] == id {
            assert(ids@[i as int] == id);
            return true;
        }
        i = i + 1;
    }
    false
}

/// `list` holds the identifiers of the selection, each once, all of documents.
spec fn lists(list: Seq<u64>, s: Selection, documents: Seq<Document>) -> bool {
    &&& list.no_duplicates()
    &&& list.to_set() == s.ids
    &&& forall|k: int| 0 <= k < list.len() ==> has_id(documents, #[trigger] list[k])
}

proof fn lemma_list_grows(list: Seq<u64>, s: Selection, documents: Seq<Document>, id: u64, used: int)
    requires
        lists(list, s, documents),
        !list.contains(id),
        has_id(documents, id),
    ensures
        lists(list.push(id), (Selection { ids: s.ids.insert(id), used }), documents),
{
    let more = list.push(id);
    assert forall|x: u64| more.to_set().contains(x) <==> s.ids.insert(id).contains(x) by {
        if list.contains(x) {
            let k = choose|k: int| 0 <= k < list.len() && list[k] == x;
            assert(more[k] == x);
        }
        if x == id {
            assert(more[list.len() as int] == id);
        }
        if more.contains(x) {
            let k = choose|k: int| 0 <= k < more.len() && more[k] == x;
            if k < list.len() {
                assert(list[k] == x);
            }
        }
        assert(s.ids.contains(x) == list.to_set().contains(x));
    }
    assert(more.to_set() =~= s.ids.insert(id));
    assert forall|i: int, j: int| 0 <= i < more.len() && 0 <= j < more.len() && i != j implies more[i] != more[j] by {
        if i < list.len() {
            assert(list.contains(list[i]));
        }
        if j < list.len() {
            assert(list.contains(list[j]));
        }
    }
    assert forall|k: int| 0 <= k < more.len() implies has_id(documents, #[trigger] more[k]) by {
        if k < list.len() {
            assert(more[k] == list[k]);
        }
    }
}

proof fn lemma_list_keeps(list: Seq<u64>, s: Selection, documents: Seq<Document>, id: u64, used: int)
    requires
        lists(list, s, documents),
        list.contains(id),
    ensures
        lists(list, (Selection { ids: s.ids.insert(id), used }), documents),
{
    assert(s.ids.contains(id)) by {
        assert(list.to_set().contains(id));
    }
    assert(s.ids.insert(id) =~= s.ids);
}

/// Selects documents within a token budget.
///
/// The most recent of the ranked documents come first, `always_keep_recent` of them, then the
/// others from the best combined score on, each where its tokens still fit. What is selected
/// is listed from the earliest document on.
pub fn select_within_budget(
    ranked: &[RankedResult],
    documents: &Vec<Document>,
    token_budget: usize,
    always_keep_recent: usize,
) -> (r: Vec<u64>)
    ensures
        is_chronological(
            r@,
            selection(ranked@, documents@, token_budget as int, always_keep_recent as int).ids,
            documents@,
        ),
        tokens_of(r@, documents@) <= token_budget,
        all_differ(ranked@) ==> forall|i: int|
            0 <= i < ranked@.len() && has_id(documents@, (#[trigger] ranked@[i]).id) && !r@.contains(ranked@[i].id)
                ==> tokens_of(r@, documents@) + first_with(documents@, ranked@[i].id).token_count > token_budget,
{
    let ghost budget = token_budget as int;
    let ghost candidates = ranked_documents(ranked@, documents@);

    let mut positions: Vec<usize> = Vec::new();
    let mut keys: Vec<i128> = Vec::new();
    let mut i: usize = 0;
    while i < ranked.len()
        invariant
            i <= ranked@.len(),
            positions@.len() == ranked_documents(ranked@.take(i as int), documents@).len(),
            forall|k: int|
                0 <= k < positions@.len() ==> #[trigger] positions@[k] < documents@.len()
                    && documents@[positions@[k] as int] == ranked_documents(ranked@.take(i as int), documents@)[k],
            forall|k: int|
                0 <= k < positions@.len() ==> has_id(documents@, documents@[#[trigger] positions@[k] as int].id),
            keys@ =~= latest_first(ranked_documents(ranked@.take(i as int), documents@)),
        decreases ranked@.len() - i,
    {
        assert(ranked@.take(i + 1).drop_last() =~= ranked@.take(i as int));
        match find_document(documents, ranked[i].id) {
            Some(at) => {
                positions.push(at);
                keys.push(key_of(&documents[at]));
            },
            None => {},
        }
        i = i + 1;
    }
    assert(ranked@.take(i as int) =~= ranked@);
    let order: Vec<usize> = stable_order(&keys);
    proof {
        lemma_order_unique(keys@, order@, the_order(keys@));
    }

    let mut selected: Vec<u64> = Vec::new();
    let mut used_tokens: usize = 0;
    let ghost mut state = Selection { ids: Set::empty(), used: 0 };
    assert(selected@.to_set() =~= Set::<u64>::empty());
    let mut k: usize = 0;
    while k < order.len() && k < always_keep_recent
        invariant
            k <= order@.len(),
            k <= always_keep_recent,
            budget == token_budget,
            positions@.len() == candidates.len() == order@.len(),
            forall|n: int| 0 <= n < order@.len() ==> #[trigger] order@[n] < positions@.len(),
            forall|n: int|
                0 <= n < positions@.len() ==> #[trigger] positions@[n] < documents@.len()
                    && documents@[positions@[n] as int] == candidates[n],
            forall|n: int|
                0 <= n < positions@.len() ==> has_id(documents@, documents@[#[trigger] positions@[n] as int].id),
            state == kept(candidates, order@, k as int, budget),
            state.used == used_tokens,
            used_tokens <= token_budget,
            lists(selected@, state, documents@),
        decreases order@.len() - k,
    {
        let at: usize = positions[order[k]];
        let id: u64 = documents[at].id;
        let tokens: usize = documents[at].token_count;
        let ghost next = kept(candidates, order@, k + 1, budget);
        assert(has_id(documents@, id));
        if tokens <= token_budget - used_tokens {
            if contains_id(&selected, id) {
                proof {
                    lemma_list_keeps(selected@, state, documents@, id, used_tokens + tokens);
                }
            } else {
                proof {
                    lemma_list_grows(selected@, state, documents@, id, used_tokens + tokens);
                }
                selected.push(id);
            }
            used_tokens = used_tokens + tokens;
        }
        proof {
            state = next;
        }
        k = k + 1;
    }
    let ghost recent = kept(candidates, order@, recent_count(candidates, always_keep_recent as int), budget);
    assert(state == recent);

    let mut scores: Vec<i128> = Vec::with_capacity(ranked.len());
    let mut n: usize = 0;
    while n < ranked.len()
        invariant
            n <= ranked@.len(),
            scores@ =~= combined_keys(ranked@.take(n as int)),
        decreases ranked@.len() - n,
    {
        scores.push(ranked[n].combined_score.sort_key());
        n = n + 1;
    }
    assert(ranked@.take(n as int) =~= ranked@);
    let best: Vec<usize> = stable_order(&scores);
    proof {
        lemma_order_unique(scores@, best@, the_order(scores@));
    }

    let mut j: usize = 0;
    while j < best.len()
        invariant
            j <= best@.len(),
            best@.len() == ranked@.len(),
            best@ == the_order(combined_keys(ranked@)),
            forall|i: int| 0 <= i < best@.len() ==> #[trigger] best@[i] < ranked@.len(),
            budget == token_budget,
            state == filled(by_score(ranked@), documents@, recent, j as int, budget),
            state.used == used_tokens,
            used_tokens <= token_budget,
            lists(selected@, state, documents@),
        decreases best@.len() - j,
    {
        let id: u64 = ranked[best[j]].id;
        assert(by_score(ranked@)[j as int].id == id);
        let ghost next = filled(by_score(ranked@), documents@, recent, j + 1, budget);
        assert(selected@.contains(id) == state.ids.contains(id)) by {
            assert(selected@.to_set().contains(id) == selected@.contains(id));
        }
        if !contains_id(&selected, id) {
            match find_document(documents, id) {
                Some(at) => {
                    let tokens: usize = documents[at].token_count;
                    if tokens <= token_budget - used_tokens {
                        proof {
                            lemma_list_grows(selected@, state, documents@, id, used_tokens + tokens);
                        }
                        selected.push(id);
                        used_tokens = used_tokens + tokens;
                    }
                },
                None => {},
            }
        }
        proof {
            state = next;
        }
        j = j + 1;
    }

    let r: Vec<u64> = chronological(&selected, documents);
    proof {
        assert(r@.to_set().subset_of(selection(ranked@, documents@, budget, always_keep_recent as int).ids));
        law_budget_respected(ranked@, documents@, budget, always_keep_recent as int, r@);
        if all_differ(ranked@) {
            law_selection_is_maximal(ranked@, documents@, budget, always_keep_recent as int, r@);
        }
    }
    r
}

fn chronological(selected: &Vec<u64>, documents: &Vec<Document>) -> (r: Vec<u64>)
    requires
        selected@.no_duplicates(),
        forall|k: int| 0 <= k < selected@.len() ==> has_id(documents@, #[trigger] selected@[k]),
    ensures
        is_chronological(r@, selected@.to_set(), documents@),
{
    let mut keys: Vec<i128> = Vec::new();
    let mut i: usize = 0;
    while i < selected.len()
        invariant
            i <= selected@.len(),
            forall|k: int| 0 <= k < selected@.len() ==> has_id(documents@, #[trigger] selected@[k]),
            keys@.len() == i,
            forall|k: int| 0 <= k < i ==> #[trigger] keys@[k] == first_with(documents@, selected@[k]).timestamp,
        decreases selected@.len() - i,
    {
        let timestamp: u64 = match find_document(documents, selected[i]) {
            Some(at) => documents[at].timestamp,
            None => 0,
        };
        keys.push(timestamp as i128);
        i = i + 1;
    }
    let order: Vec<usize> = stable_order(&keys);
    let mut r: Vec<u64> = Vec::with_capacity(order.len());
    let mut j: usize = 0;
    while j < order.len()
        invariant
            j <= order@.len(),
            keys@.len() == selected@.len(),
            is_stable_order(keys@, order@),
            r@ =~= order@.take(j as int).map_values(|k: usize| selected@[k as int]),
        decreases order@.len() - j,
    {
        r.push(selected[order[j]]);
        j = j + 1;
    }
    proof {
        assert(r@ =~= order@.map_values(|k: usize| selected@[k as int]));
        lemma_order_is_permutation(keys@, order@);
        assert forall|a: int, b: int| 0 <= a < r@.len() && 0 <= b < r@.len() && a != b implies r@[a] != r@[b] by {
            assert(order@[a] != order@[b]);
        }
        assert forall|x: u64| r@.to_set().contains(x) <==> selected@.to_set().contains(x) by {
            if selected@.contains(x) {
                let k = choose|k: int| 0 <= k < selected@.len() && selected@[k] == x;
                assert(order@.contains(k as usize));
                let n = choose|n: int| 0 <= n < order@.len() && order@[n] == k as usize;
                assert(r@[n] == x);
            }
            if r@.contains(x) {
                let n = choose|n: int| 0 <= n < r@.len() && r@[n] == x;
                assert(selected@[order@[n] as int] == x);
            }
        }
        assert(r@.to_set() =~= selected@.to_set());
        assert forall|a: int, b: int| 0 <= a < b < r@.len() implies first_with(
            documents@,
            #[trigger] r@[a],
        ).timestamp <= first_with(documents@, #[trigger] r@[b]).timestamp by {
            assert(precedes(keys@, order@[a] as int, order@[b] as int));
        }
    }
    r
}

/// The tokens of the documents with the given identifiers.
pub open spec fn tokens_of(ids: Seq<u64>, documents: Seq<Document>) -> int
    decreases ids.len(),
{
    if ids.len() == 0 {
        0
    } else {
        tokens_of(ids.drop_last(), documents) + first_with(documents, ids.last()).token_count
    }
}

proof fn lemma_tokens_without(ids: Seq<u64>, documents: Seq<Document>, at: int)
    requires
        0 <= at < ids.len(),
    ensures
        tokens_of(ids, documents) == tokens_of(ids.remove(at), documents) + first_with(documents, ids[at]).token_count,
    decreases ids.len(),
{
    let rest = ids.remove(at);
    if at == ids.len() - 1 {
        assert(rest =~= ids.drop_last());
    } else {
        lemma_tokens_without(ids.drop_last(), documents, at);
        assert(ids.drop_last().remove(at) =~= rest.drop_last());
        assert(rest.last() == ids.last());
    }
}

/// No list of selected documents without repetition has more tokens than are counted.
spec fn counted(s: Selection, documents: Seq<Document>) -> bool {
    forall|ids: Seq<u64>|
        ids.no_duplicates() && ids.to_set().subset_of(s.ids) ==> #[trigger] tokens_of(ids, documents) <= s.used
}

proof fn lemma_adding_counted(s: Selection, documents: Seq<Document>, id: u64, budget: int)
    requires
        counted(s, documents),
        s.used <= budget,
    ensures
        counted(adding(s, id, first_with(documents, id).token_count as int, budget), documents),
        adding(s, id, first_with(documents, id).token_count as int, budget).used <= budget,
{
    let tokens = first_with(documents, id).token_count as int;
    let next = adding(s, id, tokens, budget);
    assert forall|ids: Seq<u64>| ids.no_duplicates() && ids.to_set().subset_of(next.ids) implies #[trigger] tokens_of(
        ids,
        documents,
    ) <= next.used by {
        if ids.contains(id) {
            let at = choose|at: int| 0 <= at < ids.len() && ids[at] == id;
            let rest = ids.remove(at);
            lemma_tokens_without(ids, documents, at);
            assert forall|a: int, b: int| 0 <= a < rest.len() && 0 <= b < rest.len() && a != b implies rest[a] != rest[b] by {
                let x = if a < at { a } else { a + 1 };
                let y = if b < at { b } else { b + 1 };
                assert(rest[a] == ids[x] && rest[b] == ids[y]);
            }
            assert forall|x: u64| rest.to_set().contains(x) implies s.ids.contains(x) by {
                let a = choose|a: int| 0 <= a < rest.len() && rest[a] == x;
                let n = if a < at { a } else { a + 1 };
                assert(rest[a] == ids[n]);
                assert(ids[n] != ids[at]);
                assert(ids.to_set().contains(x));
                assert(next.ids.contains(x));
            }
            assert(rest.to_set().subset_of(s.ids));
            assert(tokens_of(rest, documents) <= s.used);
            if !(s.used + tokens <= budget) {
                assert(ids.to_set().subset_of(s.ids));
            }
        } else {
            assert forall|x: u64| ids.to_set().contains(x) implies s.ids.contains(x) by {
                assert(next.ids.contains(x));
                assert(ids.contains(x));
            }
            assert(ids.to_set().subset_of(s.ids));
            assert(tokens_of(ids, documents) <= s.used);
        }
    }
}

/// Each candidate is the first document with its identifier.
pub proof fn lemma_ranked_documents(ranked: Seq<RankedResult>, documents: Seq<Document>)
    ensures
        forall|k: int|
            0 <= k < ranked_documents(ranked, documents).len() ==> {
                let d = #[trigger] ranked_documents(ranked, documents)[k];
                has_id(documents, d.id) && d == first_with(documents, d.id)
            },
    decreases ranked.len(),
{
    if ranked.len() > 0 {
        lemma_ranked_documents(ranked.drop_last(), documents);
        let id = ranked.last().id;
        let before = ranked_documents(ranked.drop_last(), documents);
        let all = ranked_documents(ranked, documents);
        if has_id(documents, id) {
            lemma_first_position(documents, id);
        }
        assert forall|k: int| 0 <= k < all.len() implies {
            let d = #[trigger] all[k];
            has_id(documents, d.id) && d == first_with(documents, d.id)
        } by {
            if k < before.len() {
                assert(all[k] == before[k]);
            }
        }
    }
}

proof fn lemma_kept_counted(
    ranked: Seq<RankedResult>,
    documents: Seq<Document>,
    order: Seq<usize>,
    k: int,
    budget: int,
)
    requires
        0 <= k <= order.len(),
        0 <= budget,
        is_stable_order(latest_first(ranked_documents(ranked, documents)), order),
    ensures
        counted(kept(ranked_documents(ranked, documents), order, k, budget), documents),
        kept(ranked_documents(ranked, documents), order, k, budget).used <= budget,
    decreases k,
{
    let candidates = ranked_documents(ranked, documents);
    if k <= 0 {
        let none = kept(candidates, order, k, budget);
        assert forall|ids: Seq<u64>| ids.no_duplicates() && ids.to_set().subset_of(none.ids) implies #[trigger] tokens_of(
            ids,
            documents,
        ) <= none.used by {
            if ids.len() > 0 {
                assert(ids.to_set().contains(ids[0]));
                assert(none.ids.contains(ids[0]));
            }
        }
    } else {
        lemma_kept_counted(ranked, documents, order, k - 1, budget);
        lemma_ranked_documents(ranked, documents);
        let d = candidates[order[k - 1] as int];
        assert(d == first_with(documents, d.id));
        lemma_adding_counted(kept(candidates, order, k - 1, budget), documents, d.id, budget);
    }
}

proof fn lemma_filled_counted(
    ranked: Seq<RankedResult>,
    documents: Seq<Document>,
    start: Selection,
    k: int,
    budget: int,
)
    requires
        0 <= k <= ranked.len(),
        counted(start, documents),
        start.used <= budget,
    ensures
        counted(filled(ranked, documents, start, k, budget), documents),
        filled(ranked, documents, start, k, budget).used <= budget,
    decreases k,
{
    if k > 0 {
        lemma_filled_counted(ranked, documents, start, k - 1, budget);
        lemma_adding_counted(
            filled(ranked, documents, start, k - 1, budget),
            documents,
            ranked[k - 1].id,
            budget,
        );
    }
}

proof fn lemma_ranked_documents_len(ranked: Seq<RankedResult>, documents: Seq<Document>)
    ensures
        ranked_documents(ranked, documents).len() <= ranked.len(),
    decreases ranked.len(),
{
    if ranked.len() > 0 {
        lemma_ranked_documents_len(ranked.drop_last(), documents);
    }
}

/// The order of the ranked documents from the latest on is a stable order.
pub proof fn lemma_latest_first(ranked: Seq<RankedResult>, documents: Seq<Document>)
    requires
        ranked.len() <= usize::MAX,
    ensures
        is_stable_order(
            latest_first(ranked_documents(ranked, documents)),
            the_order(latest_first(ranked_documents(ranked, documents))),
        ),
{
    lemma_ranked_documents_len(ranked, documents);
    lemma_order_exists(latest_first(ranked_documents(ranked, documents)));
}

/// Ranked results with different identifiers give different candidates, one for each result
/// that has a document.
pub proof fn lemma_candidates(ranked: Seq<RankedResult>, documents: Seq<Document>)
    requires
        forall|i: int, j: int| 0 <= i < j < ranked.len() ==> (#[trigger] ranked[i]).id != (#[trigger] ranked[j]).id,
    ensures
        ({
            let candidates = ranked_documents(ranked, documents);
            &&& candidates.len() <= ranked.len()
            &&& forall|i: int, j: int|
                0 <= i < j < candidates.len() ==> (#[trigger] candidates[i]).id != (#[trigger] candidates[j]).id
            &&& forall|i: int|
                0 <= i < candidates.len() ==> exists|j: int|
                    0 <= j < ranked.len() && (#[trigger] ranked[j]).id == (#[trigger] candidates[i]).id
            &&& forall|j: int|
                0 <= j < ranked.len() && has_id(documents, (#[trigger] ranked[j]).id) ==> candidates.contains(
                    first_with(documents, ranked[j].id),
                )
        }),
    decreases ranked.len(),
{
    let candidates = ranked_documents(ranked, documents);
    if ranked.len() > 0 {
        let rest = ranked.drop_last();
        let before = ranked_documents(rest, documents);
        assert forall|i: int, j: int| 0 <= i < j < rest.len() implies (#[trigger] rest[i]).id != (#[trigger] rest[j]).id by {
            assert(rest[i] == ranked[i] && rest[j] == ranked[j]);
        }
        lemma_candidates(rest, documents);
        let id = ranked.last().id;
        if has_id(documents, id) {
            lemma_first_position(documents, id);
            assert(candidates[before.len() as int] == first_with(documents, id));
        }
        assert forall|i: int| 0 <= i < candidates.len() implies exists|j: int|
            0 <= j < ranked.len() && (#[trigger] ranked[j]).id == (#[trigger] candidates[i]).id by {
            if i < before.len() {
                assert(candidates[i] == before[i]);
                let j = choose|j: int| 0 <= j < rest.len() && (#[trigger] rest[j]).id == before[i].id;
                assert(ranked[j].id == candidates[i].id);
            } else {
                assert(ranked[ranked.len() - 1].id == candidates[i].id);
            }
        }
        assert forall|i: int, j: int| 0 <= i < j < candidates.len() implies (#[trigger] candidates[i]).id != (
        #[trigger] candidates[j]).id by {
            assert(candidates[i] == before[i]);
            if j < before.len() {
                assert(candidates[j] == before[j]);
            } else {
                let n = choose|n: int| 0 <= n < rest.len() && (#[trigger] rest[n]).id == before[i].id;
                assert(ranked[n].id != ranked[ranked.len() - 1].id);
            }
        }
        assert forall|j: int| 0 <= j < ranked.len() && has_id(documents, (#[trigger] ranked[j]).id) implies candidates.contains(
            first_with(documents, ranked[j].id),
        ) by {
            if j < rest.len() {
                assert(rest[j] == ranked[j]);
                let i = choose|i: int| 0 <= i < before.len() && before[i] == first_with(documents, rest[j].id);
                assert(candidates[i] == before[i]);
            }
        }
    }
}

/// Where the documents ascend in recency and the candidates are some of them, among these the
/// last `k`, the order of the candidates starts with the last `k` from the end on.
pub proof fn lemma_most_recent(documents: Seq<Document>, candidates: Seq<Document>, order: Seq<usize>, k: int)
    requires
        0 <= k <= documents.len(),
        candidates.len() <= usize::MAX,
        forall|i: int, j: int|
            0 <= i < j < documents.len() ==> more_recent(#[trigger] documents[j], #[trigger] documents[i]),
        forall|i: int| 0 <= i < candidates.len() ==> documents.contains(#[trigger] candidates[i]),
        forall|i: int, j: int|
            0 <= i < j < candidates.len() ==> (#[trigger] candidates[i]).id != (#[trigger] candidates[j]).id,
        forall|i: int| documents.len() - k <= i < documents.len() ==> candidates.contains(#[trigger] documents[i]),
        is_stable_order(latest_first(candidates), order),
    ensures
        k <= order.len(),
        forall|i: int| 0 <= i < k ==> candidates[#[trigger] order[i] as int] == documents[documents.len() - 1 - i],
    decreases k,
{
    if k > 0 {
        let n = documents.len() as int;
        let keys = latest_first(candidates);
        lemma_most_recent(documents, candidates, order, k - 1);
        lemma_order_is_permutation(keys, order);
        let d = documents[n - k];
        let c = choose|c: int| 0 <= c < candidates.len() && candidates[c] == d;
        assert(order.contains(c as usize));
        let p = choose|p: int| 0 <= p < order.len() && order[p] == c as usize;
        if p < k - 1 {
            assert(candidates[order[p] as int] == documents[n - 1 - p]);
            assert(more_recent(documents[n - 1 - p], documents[n - k]));
        }
        if p > k - 1 {
            let at = order[k - 1] as int;
            let x = candidates[at];
            assert(precedes(keys, at, c));
            lemma_recency_key(x, d);
            assert(at != c);
            assert(x.id != d.id);
            let t = choose|t: int| 0 <= t < documents.len() && documents[t] == x;
            if t < n - k {
                assert(more_recent(d, x));
            }
            let j = n - 1 - t;
            assert(candidates[order[j] as int] == documents[t]);
            assert(order[j] != order[k - 1]);
            let other = order[j] as int;
            assert(candidates[at].id != candidates[other].id);
            assert(false);
        }
        assert forall|i: int| 0 <= i < k implies candidates[#[trigger] order[i] as int] == documents[documents.len() - 1
            - i] by {
            if i == k - 1 {
                assert(order[p] == order[i]);
            }
        }
    }
}

proof fn lemma_by_score_len(ranked: Seq<RankedResult>)
    requires
        ranked.len() <= usize::MAX,
    ensures
        by_score(ranked).len() == ranked.len(),
{
    lemma_order_exists(combined_keys(ranked));
}

/// Ranked results whose scores already descend keep their order.
pub proof fn law_ranking_is_followed(ranked: Seq<RankedResult>)
    requires
        ranked.len() <= usize::MAX,
        forall|i: int, j: int|
            0 <= i < j < ranked.len() ==> (#[trigger] ranked[i]).combined_score.descending_key() <= (
            #[trigger] ranked[j]).combined_score.descending_key(),
    ensures
        by_score(ranked) == ranked,
{
    let keys = combined_keys(ranked);
    let order = Seq::new(ranked.len(), |i: int| i as usize);
    assert(is_stable_order(keys, order)) by {
        assert forall|i: int, j: int| 0 <= i < j < order.len() implies precedes(
            keys,
            #[trigger] order[i] as int,
            #[trigger] order[j] as int,
        ) by {
            assert(ranked[i].combined_score.descending_key() <= ranked[j].combined_score.descending_key());
        }
    }
    lemma_order_unique(keys, order, the_order(keys));
    assert(by_score(ranked) =~= ranked);
}

/// The tokens of the selected documents stay within the budget, in whatever order they are
/// listed.
pub proof fn law_budget_respected(
    ranked: Seq<RankedResult>,
    documents: Seq<Document>,
    budget: int,
    always_keep_recent: int,
    r: Seq<u64>,
)
    requires
        0 <= budget,
        0 <= always_keep_recent,
        ranked.len() <= usize::MAX,
        r.no_duplicates(),
        r.to_set().subset_of(selection(ranked, documents, budget, always_keep_recent).ids),
    ensures
        tokens_of(r, documents) <= budget,
{
    let candidates = ranked_documents(ranked, documents);
    let order = the_order(latest_first(candidates));
    lemma_latest_first(ranked, documents);
    let n = recent_count(candidates, always_keep_recent);
    lemma_kept_counted(ranked, documents, order, n, budget);
    lemma_by_score_len(ranked);
    lemma_filled_counted(by_score(ranked), documents, kept(candidates, order, n, budget), ranked.len() as int, budget);
}

/// The tokens of the first `k` candidates in the given order.
pub open spec fn tokens_in_order(candidates: Seq<Document>, order: Seq<usize>, k: int) -> int
    decreases k,
{
    if k <= 0 {
        0
    } else {
        tokens_in_order(candidates, order, k - 1) + candidates[order[k - 1] as int].token_count
    }
}

proof fn lemma_in_order_grows(candidates: Seq<Document>, order: Seq<usize>, k: int, n: int)
    requires
        0 <= k <= n,
    ensures
        tokens_in_order(candidates, order, k) <= tokens_in_order(candidates, order, n),
    decreases n - k,
{
    if k < n {
        lemma_in_order_grows(candidates, order, k + 1, n);
    }
}

proof fn lemma_kept_prefix(candidates: Seq<Document>, order: Seq<usize>, k: int, n: int, budget: int)
    requires
        0 <= k <= n <= order.len(),
        tokens_in_order(candidates, order, n) <= budget,
    ensures
        kept(candidates, order, k, budget).used == tokens_in_order(candidates, order, k),
        forall|i: int|
            0 <= i < k ==> kept(candidates, order, k, budget).ids.contains(candidates[#[trigger] order[i] as int].id),
    decreases k,
{
    if k > 0 {
        lemma_kept_prefix(candidates, order, k - 1, n, budget);
        lemma_in_order_grows(candidates, order, k, n);
    }
}

/// The latest documents are always selected where the budget has room for them all.
pub proof fn law_recent_always_kept(
    ranked: Seq<RankedResult>,
    documents: Seq<Document>,
    budget: int,
    always_keep_recent: int,
)
    requires
        0 <= always_keep_recent,
        ranked.len() <= usize::MAX,
        ({
            let candidates = ranked_documents(ranked, documents);
            tokens_in_order(
                candidates,
                the_order(latest_first(candidates)),
                recent_count(candidates, always_keep_recent),
            ) <= budget
        }),
    ensures
        ({
            let candidates = ranked_documents(ranked, documents);
            let order = the_order(latest_first(candidates));
            forall|i: int|
                0 <= i < recent_count(candidates, always_keep_recent) ==> selection(
                    ranked,
                    documents,
                    budget,
                    always_keep_recent,
                ).ids.contains(candidates[#[trigger] order[i] as int].id)
        }),
{
    let candidates = ranked_documents(ranked, documents);
    let order = the_order(latest_first(candidates));
    lemma_latest_first(ranked, documents);
    let n = recent_count(candidates, always_keep_recent);
    lemma_kept_prefix(candidates, order, n, n, budget);
    lemma_filled_grows(by_score(ranked), documents, kept(candidates, order, n, budget), ranked.len() as int, budget);
}

proof fn lemma_filled_grows(ranked: Seq<RankedResult>, documents: Seq<Document>, start: Selection, k: int, budget: int)
    requires
        0 <= k,
    ensures
        start.ids.subset_of(filled(ranked, documents, start, k, budget).ids),
    decreases k,
{
    if k > 0 {
        lemma_filled_grows(ranked, documents, start, k - 1, budget);
    }
}

/// Every list of all selected documents has at least the tokens that are counted.
spec fn exact(s: Selection, documents: Seq<Document>) -> bool {
    forall|ids: Seq<u64>|
        ids.no_duplicates() && s.ids.subset_of(ids.to_set()) ==> s.used <= #[trigger] tokens_of(ids, documents)
}

proof fn lemma_adding_exact(s: Selection, documents: Seq<Document>, id: u64, budget: int)
    requires
        exact(s, documents),
        !s.ids.contains(id),
    ensures
        exact(adding(s, id, first_with(documents, id).token_count as int, budget), documents),
{
    let tokens = first_with(documents, id).token_count as int;
    let next = adding(s, id, tokens, budget);
    if s.used + tokens <= budget {
        assert forall|ids: Seq<u64>| ids.no_duplicates() && next.ids.subset_of(ids.to_set()) implies next.used
            <= #[trigger] tokens_of(ids, documents) by {
            assert(next.ids.contains(id));
            assert(ids.to_set().contains(id));
            let at = choose|at: int| 0 <= at < ids.len() && ids[at] == id;
            let rest = ids.remove(at);
            lemma_tokens_without(ids, documents, at);
            lemma_removed(ids, at);
            assert forall|x: u64| s.ids.contains(x) implies rest.to_set().contains(x) by {
                assert(next.ids.contains(x));
                assert(ids.to_set().contains(x));
                assert(rest.contains(x));
            }
            assert(s.ids.subset_of(rest.to_set()));
            assert(s.used <= tokens_of(rest, documents));
        }
    }
}

proof fn lemma_removed(ids: Seq<u64>, at: int)
    requires
        0 <= at < ids.len(),
        ids.no_duplicates(),
    ensures
        ids.remove(at).no_duplicates(),
        forall|x: u64| #[trigger] ids.remove(at).contains(x) <==> ids.contains(x) && x != ids[at],
{
    let rest = ids.remove(at);
    assert forall|a: int, b: int| 0 <= a < rest.len() && 0 <= b < rest.len() && a != b implies rest[a] != rest[b] by {
        let x = if a < at { a } else { a + 1 };
        let y = if b < at { b } else { b + 1 };
        assert(rest[a] == ids[x] && rest[b] == ids[y]);
    }
    assert forall|x: u64| #[trigger] rest.contains(x) <==> ids.contains(x) && x != ids[at] by {
        if rest.contains(x) {
            let a = choose|a: int| 0 <= a < rest.len() && rest[a] == x;
            let n = if a < at { a } else { a + 1 };
            assert(rest[a] == ids[n]);
        }
        if ids.contains(x) && x != ids[at] {
            let n = choose|n: int| 0 <= n < ids.len() && ids[n] == x;
            let a = if n < at { n } else { n - 1 };
            assert(rest[a] == ids[n]);
        }
    }
}

/// A list without repetition of what another list holds is no longer than that, and has no more
/// tokens.
pub proof fn lemma_tokens_within(a: Seq<u64>, b: Seq<u64>, documents: Seq<Document>)
    requires
        a.no_duplicates(),
        forall|i: int| 0 <= i < a.len() ==> b.contains(#[trigger] a[i]),
    ensures
        a.len() <= b.len(),
        tokens_of(a, documents) <= tokens_of(b, documents),
    decreases a.len(),
{
    if a.len() == 0 {
        lemma_tokens_not_negative(b, documents);
    } else {
        let x = a.last();
        assert(b.contains(a[a.len() - 1]));
        let at = choose|at: int| 0 <= at < b.len() && b[at] == x;
        let rest = b.remove(at);
        let fewer = a.drop_last();
        lemma_tokens_without(b, documents, at);
        assert forall|i: int| 0 <= i < fewer.len() implies rest.contains(#[trigger] fewer[i]) by {
            assert(fewer[i] == a[i]);
            assert(b.contains(a[i]));
            let n = choose|n: int| 0 <= n < b.len() && b[n] == a[i];
            assert(a[i] != a[a.len() - 1]);
            let m = if n < at { n } else { n - 1 };
            assert(rest[m] == b[n]);
        }
        lemma_tokens_within(fewer, rest, documents);
    }
}

proof fn lemma_tokens_not_negative(ids: Seq<u64>, documents: Seq<Document>)
    ensures
        0 <= tokens_of(ids, documents),
    decreases ids.len(),
{
    if ids.len() > 0 {
        lemma_tokens_not_negative(ids.drop_last(), documents);
    }
}

/// No two ranked results have the same identifier.
pub open spec fn all_differ(ranked: Seq<RankedResult>) -> bool {
    forall|i: int, j: int| 0 <= i < j < ranked.len() ==> (#[trigger] ranked[i]).id != (#[trigger] ranked[j]).id
}

proof fn lemma_kept_ids(candidates: Seq<Document>, order: Seq<usize>, k: int, budget: int)
    requires
        0 <= k <= order.len(),
    ensures
        forall|id: u64|
            #[trigger] kept(candidates, order, k, budget).ids.contains(id) ==> exists|i: int|
                0 <= i < k && candidates[#[trigger] order[i] as int].id == id,
    decreases k,
{
    if k > 0 {
        lemma_kept_ids(candidates, order, k - 1, budget);
        let d = candidates[order[k - 1] as int];
        assert forall|id: u64| #[trigger] kept(candidates, order, k, budget).ids.contains(id) implies exists|i: int|
            0 <= i < k && candidates[#[trigger] order[i] as int].id == id by {
            if id == d.id {
                assert(candidates[order[k - 1] as int].id == id);
            } else {
                assert(kept(candidates, order, k - 1, budget).ids.contains(id));
                let i = choose|i: int| 0 <= i < k - 1 && candidates[#[trigger] order[i] as int].id == id;
                assert(candidates[order[i] as int].id == id);
            }
        }
    }
}

proof fn lemma_kept_exact(ranked: Seq<RankedResult>, documents: Seq<Document>, order: Seq<usize>, k: int, budget: int)
    requires
        0 <= k <= order.len(),
        all_differ(ranked),
        is_stable_order(latest_first(ranked_documents(ranked, documents)), order),
        ranked_documents(ranked, documents).len() <= usize::MAX,
    ensures
        exact(kept(ranked_documents(ranked, documents), order, k, budget), documents),
    decreases k,
{
    let candidates = ranked_documents(ranked, documents);
    if k <= 0 {
        let none = kept(candidates, order, k, budget);
        assert forall|ids: Seq<u64>| ids.no_duplicates() && none.ids.subset_of(ids.to_set()) implies none.used
            <= #[trigger] tokens_of(ids, documents) by {
            lemma_tokens_not_negative(ids, documents);
        }
    } else {
        lemma_kept_exact(ranked, documents, order, k - 1, budget);
        lemma_ranked_documents(ranked, documents);
        lemma_candidates(ranked, documents);
        lemma_order_is_permutation(latest_first(candidates), order);
        lemma_kept_ids(candidates, order, k - 1, budget);
        let before = kept(candidates, order, k - 1, budget);
        let d = candidates[order[k - 1] as int];
        if before.ids.contains(d.id) {
            let i = choose|i: int| 0 <= i < k - 1 && candidates[#[trigger] order[i] as int].id == d.id;
            let (a, b) = (order[i] as int, order[k - 1] as int);
            assert(order[i] != order[k - 1]);
            assert(candidates[a].id == candidates[b].id);
            assert(false);
        }
        assert(d == first_with(documents, d.id));
        lemma_adding_exact(before, documents, d.id, budget);
    }
}

proof fn lemma_filled_exact(ranked: Seq<RankedResult>, documents: Seq<Document>, start: Selection, k: int, budget: int)
    requires
        0 <= k <= ranked.len(),
        exact(start, documents),
    ensures
        exact(filled(ranked, documents, start, k, budget), documents),
    decreases k,
{
    if k > 0 {
        lemma_filled_exact(ranked, documents, start, k - 1, budget);
        let s = filled(ranked, documents, start, k - 1, budget);
        if !s.ids.contains(ranked[k - 1].id) {
            lemma_adding_exact(s, documents, ranked[k - 1].id, budget);
        }
    }
}

/// What was selected stays selected, and nothing is given back.
proof fn lemma_filled_from(
    ranked: Seq<RankedResult>,
    documents: Seq<Document>,
    start: Selection,
    j: int,
    k: int,
    budget: int,
)
    requires
        0 <= j <= k,
    ensures
        filled(ranked, documents, start, j, budget).ids.subset_of(filled(ranked, documents, start, k, budget).ids),
        filled(ranked, documents, start, j, budget).used <= filled(ranked, documents, start, k, budget).used,
    decreases k - j,
{
    if j < k {
        lemma_filled_from(ranked, documents, start, j, k - 1, budget);
    }
}

proof fn lemma_filled_ids(ranked: Seq<RankedResult>, documents: Seq<Document>, start: Selection, k: int, budget: int)
    requires
        0 <= k <= ranked.len(),
    ensures
        forall|id: u64|
            #[trigger] filled(ranked, documents, start, k, budget).ids.contains(id) ==> start.ids.contains(id) || exists|
                i: int,
            |
                0 <= i < k && (#[trigger] ranked[i]).id == id && has_id(documents, id),
    decreases k,
{
    if k > 0 {
        lemma_filled_ids(ranked, documents, start, k - 1, budget);
        assert forall|id: u64|
            #[trigger] filled(ranked, documents, start, k, budget).ids.contains(id) && !start.ids.contains(
                id,
            ) implies exists|i: int| 0 <= i < k && (#[trigger] ranked[i]).id == id && has_id(documents, id) by {
            if filled(ranked, documents, start, k - 1, budget).ids.contains(id) {
                let i = choose|i: int| 0 <= i < k - 1 && (#[trigger] ranked[i]).id == id && has_id(documents, id);
                assert(ranked[i].id == id);
            } else {
                assert(ranked[k - 1].id == id);
            }
        }
    }
}

/// The ranked results stand in the order of their scores, each at one place.
proof fn lemma_by_score(ranked: Seq<RankedResult>)
    requires
        ranked.len() <= usize::MAX,
    ensures
        by_score(ranked).len() == ranked.len(),
        forall|i: int| 0 <= i < ranked.len() ==> by_score(ranked).contains(#[trigger] ranked[i]),
        forall|j: int| 0 <= j < ranked.len() ==> ranked.contains(#[trigger] by_score(ranked)[j]),
        forall|i: int, j: int|
            0 <= i < j < ranked.len() ==> (#[trigger] by_score(ranked)[i]).combined_score.descending_key() <= (
            #[trigger] by_score(ranked)[j]).combined_score.descending_key(),
{
    let keys = combined_keys(ranked);
    let order = the_order(keys);
    let best = by_score(ranked);
    lemma_order_exists(keys);
    lemma_order_is_permutation(keys, order);
    assert forall|i: int| 0 <= i < ranked.len() implies best.contains(#[trigger] ranked[i]) by {
        assert(order.contains(i as usize));
        let n = choose|n: int| 0 <= n < order.len() && order[n] == i as usize;
        assert(best[n] == ranked[i]);
    }
    assert forall|j: int| 0 <= j < ranked.len() implies ranked.contains(#[trigger] best[j]) by {
        assert(best[j] == ranked[order[j] as int]);
    }
    assert forall|i: int, j: int| 0 <= i < j < ranked.len() implies (#[trigger] best[i]).combined_score.descending_key() <= (
    #[trigger] best[j]).combined_score.descending_key() by {
        assert(precedes(keys, order[i] as int, order[j] as int));
    }
}

/// The selection is maximal. What is selected is ranked and has a document. A ranked document that
/// is left out has more tokens than the budget leaves beside the selected ones.
#[verifier::rlimit(40)]
pub proof fn law_selection_is_maximal(
    ranked: Seq<RankedResult>,
    documents: Seq<Document>,
    budget: int,
    always_keep_recent: int,
    r: Seq<u64>,
)
    requires
        0 <= budget,
        0 <= always_keep_recent,
        ranked.len() <= usize::MAX,
        all_differ(ranked),
        is_chronological(r, selection(ranked, documents, budget, always_keep_recent).ids, documents),
    ensures
        tokens_of(r, documents) <= budget,
        forall|i: int|
            0 <= i < ranked.len() && has_id(documents, (#[trigger] ranked[i]).id) && !r.contains(ranked[i].id)
                ==> tokens_of(r, documents) + first_with(documents, ranked[i].id).token_count > budget,
        forall|k: int|
            0 <= k < r.len() ==> has_id(documents, #[trigger] r[k]) && exists|i: int|
                0 <= i < ranked.len() && (#[trigger] ranked[i]).id == r[k],
{
    let candidates = ranked_documents(ranked, documents);
    let order = the_order(latest_first(candidates));
    let n = recent_count(candidates, always_keep_recent);
    let start = kept(candidates, order, n, budget);
    let best = by_score(ranked);
    let whole = filled(best, documents, start, ranked.len() as int, budget);
    lemma_latest_first(ranked, documents);
    lemma_ranked_documents_len(ranked, documents);
    lemma_by_score(ranked);
    lemma_kept_exact(ranked, documents, order, n, budget);
    lemma_filled_exact(best, documents, start, ranked.len() as int, budget);
    assert(r.to_set().subset_of(whole.ids));
    law_budget_respected(ranked, documents, budget, always_keep_recent, r);
    assert(whole.ids.subset_of(r.to_set()));
    assert(whole.used <= tokens_of(r, documents));
    assert forall|i: int|
        0 <= i < ranked.len() && has_id(documents, (#[trigger] ranked[i]).id) && !r.contains(
            ranked[i].id,
        ) implies tokens_of(r, documents) + first_with(documents, ranked[i].id).token_count > budget by {
        assert(best.contains(ranked[i]));
        let j = choose|j: int| 0 <= j < best.len() && best[j] == ranked[i];
        assert(!r.to_set().contains(ranked[i].id));
        lemma_filled_from(best, documents, start, j, ranked.len() as int, budget);
        lemma_filled_from(best, documents, start, j + 1, ranked.len() as int, budget);
        let s = filled(best, documents, start, j, budget);
        let next = filled(best, documents, start, j + 1, budget);
        assert(!next.ids.contains(ranked[i].id));
        assert(s.used + first_with(documents, ranked[i].id).token_count > budget);
    }
    assert forall|k: int| 0 <= k < r.len() implies has_id(documents, #[trigger] r[k]) && exists|i: int|
        0 <= i < ranked.len() && (#[trigger] ranked[i]).id == r[k] by {
        let id = r[k];
        assert(r.to_set().contains(id));
        assert(whole.ids.contains(id));
        lemma_filled_ids(best, documents, start, ranked.len() as int, budget);
        if start.ids.contains(id) {
            lemma_kept_ids(candidates, order, n, budget);
            let p = choose|p: int| 0 <= p < n && candidates[#[trigger] order[p] as int].id == id;
            lemma_ranked_documents(ranked, documents);
            lemma_candidates(ranked, documents);
            let at = order[p] as int;
            assert(has_id(documents, candidates[at].id));
            let i = choose|i: int| 0 <= i < ranked.len() && (#[trigger] ranked[i]).id == candidates[at].id;
            assert(ranked[i].id == r[k]);
        } else {
            let j = choose|j: int| 0 <= j < ranked.len() && (#[trigger] best[j]).id == id && has_id(documents, id);
            assert(ranked.contains(best[j]));
            let i = choose|i: int| 0 <= i < ranked.len() && ranked[i] == best[j];
            assert(ranked[i].id == r[k]);
        }
    }
}

/// Where the documents of all ranked results fit the budget together, all of them are selected.
pub proof fn law_all_fit_all_selected(
    ranked: Seq<RankedResult>,
    documents: Seq<Document>,
    budget: int,
    always_keep_recent: int,
    ids: Seq<u64>,
    r: Seq<u64>,
)
    requires
        0 <= always_keep_recent,
        ranked.len() <= usize::MAX,
        all_differ(ranked),
        forall|i: int|
            0 <= i < ranked.len() && has_id(documents, (#[trigger] ranked[i]).id) ==> ids.contains(ranked[i].id),
        tokens_of(ids, documents) <= budget,
        is_chronological(r, selection(ranked, documents, budget, always_keep_recent).ids, documents),
    ensures
        forall|i: int|
            0 <= i < ranked.len() && has_id(documents, (#[trigger] ranked[i]).id) ==> r.contains(ranked[i].id),
{
    lemma_tokens_not_negative(ids, documents);
    law_selection_is_maximal(ranked, documents, budget, always_keep_recent, r);
    assert forall|i: int| 0 <= i < ranked.len() && has_id(documents, (#[trigger] ranked[i]).id) implies r.contains(
        ranked[i].id,
    ) by {
        let id = ranked[i].id;
        if !r.contains(id) {
            let more = r.push(id);
            assert(more.drop_last() =~= r);
            assert forall|a: int, b: int| 0 <= a < more.len() && 0 <= b < more.len() && a != b implies more[a] != more[b] by {
                if a < r.len() {
                    assert(r.contains(r[a]));
                }
                if b < r.len() {
                    assert(r.contains(r[b]));
                }
            }
            assert forall|k: int| 0 <= k < more.len() implies ids.contains(#[trigger] more[k]) by {
                if k < r.len() {
                    assert(more[k] == r[k]);
                    let j = choose|j: int| 0 <= j < ranked.len() && (#[trigger] ranked[j]).id == r[k];
                    assert(has_id(documents, ranked[j].id));
                } else {
                    assert(more[k] == ranked[i].id);
                }
            }
            lemma_tokens_within(more, ids, documents);
            assert(false);
        }
    }
}

/// A ranked document is among the `k` most recent where fewer than `k` are more recent, and it is
/// selected where the budget has room for it beside these.
#[verifier::rlimit(40)]
pub proof fn law_recent_has_priority(
    ranked: Seq<RankedResult>,
    documents: Seq<Document>,
    budget: int,
    always_keep_recent: int,
    i: int,
    newer: Seq<u64>,
    r: Seq<u64>,
)
    requires
        0 <= always_keep_recent,
        ranked.len() <= usize::MAX,
        all_differ(ranked),
        0 <= i < ranked.len(),
        has_id(documents, ranked[i].id),
        forall|j: int|
            0 <= j < ranked.len() && has_id(documents, (#[trigger] ranked[j]).id) && more_recent(
                first_with(documents, ranked[j].id),
                first_with(documents, ranked[i].id),
            ) ==> newer.contains(ranked[j].id),
        newer.len() < always_keep_recent,
        tokens_of(newer, documents) + first_with(documents, ranked[i].id).token_count <= budget,
        is_chronological(r, selection(ranked, documents, budget, always_keep_recent).ids, documents),
    ensures
        r.contains(ranked[i].id),
{
    let candidates = ranked_documents(ranked, documents);
    let keys = latest_first(candidates);
    let order = the_order(keys);
    let n = recent_count(candidates, always_keep_recent);
    let start = kept(candidates, order, n, budget);
    let d = first_with(documents, ranked[i].id);
    lemma_latest_first(ranked, documents);
    lemma_ranked_documents_len(ranked, documents);
    lemma_ranked_documents(ranked, documents);
    lemma_candidates(ranked, documents);
    lemma_order_is_permutation(keys, order);
    lemma_first_position(documents, ranked[i].id);
    assert(candidates.contains(d));
    let c = choose|c: int| 0 <= c < candidates.len() && candidates[c] == d;
    assert(order.contains(c as usize));
    let p = choose|p: int| 0 <= p < order.len() && order[p] == c as usize;
    let prefix = Seq::new(p as nat, |k: int| candidates[order[k] as int].id);
    assert forall|k: int| 0 <= k < prefix.len() implies newer.contains(#[trigger] prefix[k]) by {
        let at = order[k] as int;
        assert(order[k] != order[p]);
        assert(precedes(keys, at, c));
        lemma_recency_key(candidates[at], d);
        assert(candidates[at].id != candidates[c].id);
        assert(more_recent(candidates[at], d));
        let j = choose|j: int| 0 <= j < ranked.len() && (#[trigger] ranked[j]).id == candidates[at].id;
        assert(first_with(documents, ranked[j].id) == candidates[at]);
    }
    assert forall|a: int, b: int| 0 <= a < prefix.len() && 0 <= b < prefix.len() && a != b implies prefix[a] != prefix[b] by {
        let (x, y) = (order[a] as int, order[b] as int);
        assert(order[a] != order[b]);
        if x < y {
            assert(candidates[x].id != candidates[y].id);
        } else {
            assert(candidates[y].id != candidates[x].id);
        }
    }
    lemma_tokens_within(prefix, newer, documents);
    lemma_kept_within(candidates, order, p, budget, documents);
    let before = kept(candidates, order, p, budget);
    assert(before.used + d.token_count <= budget);
    assert(kept(candidates, order, p + 1, budget).ids.contains(d.id));
    lemma_kept_from(candidates, order, p + 1, n, budget);
    assert(start.ids.contains(d.id));
    lemma_filled_grows(by_score(ranked), documents, start, ranked.len() as int, budget);
    assert(selection(ranked, documents, budget, always_keep_recent).ids.contains(d.id));
    assert(r.to_set().contains(d.id));
}

proof fn lemma_kept_within(candidates: Seq<Document>, order: Seq<usize>, k: int, budget: int, documents: Seq<Document>)
    requires
        0 <= k <= order.len(),
        forall|i: int| 0 <= i < order.len() ==> (#[trigger] order[i]) < candidates.len(),
        forall|c: int|
            0 <= c < candidates.len() ==> (#[trigger] candidates[c]) == first_with(documents, candidates[c].id),
    ensures
        kept(candidates, order, k, budget).used <= tokens_of(
            Seq::new(k as nat, |i: int| candidates[order[i] as int].id),
            documents,
        ),
    decreases k,
{
    let ids = Seq::new(k as nat, |i: int| candidates[order[i] as int].id);
    if k > 0 {
        lemma_kept_within(candidates, order, k - 1, budget, documents);
        let fewer = Seq::new((k - 1) as nat, |i: int| candidates[order[i] as int].id);
        assert(ids.drop_last() =~= fewer);
        let at = order[k - 1] as int;
        assert(candidates[at] == first_with(documents, candidates[at].id));
        assert(ids.last() == candidates[at].id);
    }
}

proof fn lemma_kept_from(candidates: Seq<Document>, order: Seq<usize>, j: int, k: int, budget: int)
    requires
        0 <= j <= k,
    ensures
        kept(candidates, order, j, budget).ids.subset_of(kept(candidates, order, k, budget).ids),
    decreases k - j,
{
    if j < k {
        lemma_kept_from(candidates, order, j, k - 1, budget);
    }
}

/// A better score goes first: where a ranked document is left out and one with a lower score is
/// selected, though it is none of the `always_keep_recent` most recent, the one left out has more
/// tokens.
#[verifier::rlimit(40)]
pub proof fn law_better_score_has_priority(
    ranked: Seq<RankedResult>,
    documents: Seq<Document>,
    budget: int,
    always_keep_recent: int,
    better: int,
    other: int,
    newer: Seq<u64>,
    r: Seq<u64>,
)
    requires
        0 <= always_keep_recent,
        ranked.len() <= usize::MAX,
        all_differ(ranked),
        0 <= better < ranked.len(),
        0 <= other < ranked.len(),
        has_id(documents, ranked[better].id),
        has_id(documents, ranked[other].id),
        ranked[better].combined_score.descending_key() < ranked[other].combined_score.descending_key(),
        newer.no_duplicates(),
        newer.len() >= always_keep_recent,
        forall|k: int|
            0 <= k < newer.len() ==> has_id(documents, #[trigger] newer[k]) && more_recent(
                first_with(documents, newer[k]),
                first_with(documents, ranked[other].id),
            ) && exists|j: int| 0 <= j < ranked.len() && (#[trigger] ranked[j]).id == newer[k],
        is_chronological(r, selection(ranked, documents, budget, always_keep_recent).ids, documents),
        r.contains(ranked[other].id),
        !r.contains(ranked[better].id),
    ensures
        first_with(documents, ranked[other].id).token_count < first_with(documents, ranked[better].id).token_count,
{
    let candidates = ranked_documents(ranked, documents);
    let order = the_order(latest_first(candidates));
    let n = recent_count(candidates, always_keep_recent);
    let start = kept(candidates, order, n, budget);
    let best = by_score(ranked);
    let all = ranked.len() as int;
    let whole = filled(best, documents, start, all, budget);
    lemma_by_score(ranked);
    lemma_not_kept(ranked, documents, budget, always_keep_recent, other, newer);
    assert(best.contains(ranked[better]) && best.contains(ranked[other]));
    let a = choose|a: int| 0 <= a < best.len() && best[a] == ranked[better];
    let b = choose|b: int| 0 <= b < best.len() && best[b] == ranked[other];
    if b < a {
        assert(best[b].combined_score.descending_key() <= best[a].combined_score.descending_key());
    }
    assert(a != b);
    let id = ranked[other].id;
    assert(r.to_set().contains(id) && !r.to_set().contains(ranked[better].id));
    lemma_filled_from(best, documents, start, a + 1, b, budget);
    lemma_filled_from(best, documents, start, a, b, budget);
    lemma_filled_from(best, documents, start, b, all, budget);
    let at_a = filled(best, documents, start, a, budget);
    assert(!filled(best, documents, start, a + 1, budget).ids.contains(ranked[better].id));
    assert(at_a.used + first_with(documents, ranked[better].id).token_count > budget);
    lemma_filled_first(best, documents, start, id, all, budget);
    let j = choose|j: int|
        0 <= j < all && (#[trigger] best[j]).id == id && filled(best, documents, start, j, budget).used + first_with(
            documents,
            id,
        ).token_count <= budget;
    assert(ranked.contains(best[j]));
    let m = choose|m: int| 0 <= m < ranked.len() && ranked[m] == best[j];
    assert(m == other);
    if j < a {
        assert(best[j].combined_score.descending_key() <= best[a].combined_score.descending_key());
    }
    assert(j != a);
    lemma_filled_from(best, documents, start, a, j, budget);
}

proof fn lemma_filled_first(
    ranked: Seq<RankedResult>,
    documents: Seq<Document>,
    start: Selection,
    id: u64,
    k: int,
    budget: int,
)
    requires
        0 <= k <= ranked.len(),
        !start.ids.contains(id),
        filled(ranked, documents, start, k, budget).ids.contains(id),
    ensures
        exists|j: int|
            0 <= j < k && (#[trigger] ranked[j]).id == id && filled(ranked, documents, start, j, budget).used
                + first_with(documents, id).token_count <= budget,
    decreases k,
{
    if k > 0 {
        if filled(ranked, documents, start, k - 1, budget).ids.contains(id) {
            lemma_filled_first(ranked, documents, start, id, k - 1, budget);
            let j = choose|j: int|
                0 <= j < k - 1 && (#[trigger] ranked[j]).id == id && filled(ranked, documents, start, j, budget).used
                    + first_with(documents, id).token_count <= budget;
            assert(ranked[j].id == id);
        } else {
            assert(ranked[k - 1].id == id);
        }
    }
}

proof fn lemma_not_kept(
    ranked: Seq<RankedResult>,
    documents: Seq<Document>,
    budget: int,
    always_keep_recent: int,
    i: int,
    newer: Seq<u64>,
)
    requires
        0 <= always_keep_recent,
        ranked.len() <= usize::MAX,
        all_differ(ranked),
        0 <= i < ranked.len(),
        has_id(documents, ranked[i].id),
        newer.no_duplicates(),
        newer.len() >= always_keep_recent,
        forall|k: int|
            0 <= k < newer.len() ==> has_id(documents, #[trigger] newer[k]) && more_recent(
                first_with(documents, newer[k]),
                first_with(documents, ranked[i].id),
            ) && exists|j: int| 0 <= j < ranked.len() && (#[trigger] ranked[j]).id == newer[k],
    ensures
        ({
            let candidates = ranked_documents(ranked, documents);
            !kept(
                candidates,
                the_order(latest_first(candidates)),
                recent_count(candidates, always_keep_recent),
                budget,
            ).ids.contains(ranked[i].id)
        }),
{
    let candidates = ranked_documents(ranked, documents);
    let keys = latest_first(candidates);
    let order = the_order(keys);
    let n = recent_count(candidates, always_keep_recent);
    let d = first_with(documents, ranked[i].id);
    lemma_latest_first(ranked, documents);
    lemma_ranked_documents_len(ranked, documents);
    lemma_ranked_documents(ranked, documents);
    lemma_candidates(ranked, documents);
    lemma_order_is_permutation(keys, order);
    lemma_first_position(documents, ranked[i].id);
    lemma_kept_ids(candidates, order, n, budget);
    if kept(candidates, order, n, budget).ids.contains(d.id) {
        let p = choose|p: int| 0 <= p < n && candidates[#[trigger] order[p] as int].id == d.id;
        let here = order[p] as int;
        assert(candidates[here] == d);
        let prefix = Seq::new(p as nat, |k: int| candidates[order[k] as int].id);
        assert forall|k: int| 0 <= k < newer.len() implies prefix.contains(#[trigger] newer[k]) by {
            let j = choose|j: int| 0 <= j < ranked.len() && (#[trigger] ranked[j]).id == newer[k];
            let e = first_with(documents, newer[k]);
            lemma_first_position(documents, newer[k]);
            assert(candidates.contains(first_with(documents, ranked[j].id)));
            let c = choose|c: int| 0 <= c < candidates.len() && candidates[c] == e;
            assert(order.contains(c as usize));
            let q = choose|q: int| 0 <= q < order.len() && order[q] == c as usize;
            lemma_recency_key(e, d);
            if q > p {
                assert(precedes(keys, here, c));
            }
            assert(q != p);
            assert(prefix[q] == e.id);
        }
        lemma_tokens_within(newer, prefix, documents);
        assert(false);
    }
}

/// The tokens of a list are those of its parts together, and those of one document its own.
pub proof fn law_tokens_add_up(a: Seq<u64>, b: Seq<u64>, id: u64, documents: Seq<Document>)
    ensures
        tokens_of(a + b, documents) == tokens_of(a, documents) + tokens_of(b, documents),
        tokens_of(seq![id], documents) == first_with(documents, id).token_count,
    decreases b.len(),
{
    if b.len() == 0 {
        assert(a + b =~= a);
    } else {
        law_tokens_add_up(a, b.drop_last(), id, documents);
        assert((a + b).drop_last() =~= a + b.drop_last());
    }
    let one = seq![id];
    assert(one.drop_last() =~= Seq::empty());
    assert(tokens_of(one.drop_last(), documents) == 0);
}

/// The candidates are the documents of the ranked results that have one, in the order of the
/// ranking.
pub proof fn law_ranked_documents(ranked: Seq<RankedResult>, documents: Seq<Document>)
    ensures
        ranked_documents(ranked, documents) == ranked.filter(|r: RankedResult| has_id(documents, r.id)).map_values(
            |r: RankedResult| first_with(documents, r.id),
        ),
    decreases ranked.len(),
{
    reveal(Seq::filter);
    let pick = |r: RankedResult| has_id(documents, r.id);
    let take = |r: RankedResult| first_with(documents, r.id);
    if ranked.len() > 0 {
        law_ranked_documents(ranked.drop_last(), documents);
        let before = ranked.drop_last().filter(pick);
        if pick(ranked.last()) {
            assert(before.push(ranked.last()).map_values(take) =~= before.map_values(take).push(take(ranked.last())));
        }
    } else {
        assert(ranked_documents(ranked, documents) =~= ranked.filter(pick).map_values(take));
    }
}

/// What is selected is listed once each, and from the earliest document on.
pub proof fn law_chronological(r: Seq<u64>, ids: Set<u64>, documents: Seq<Document>)
    requires
        is_chronological(r, ids, documents),
    ensures
        forall|id: u64| #[trigger] r.contains(id) <==> ids.contains(id),
        forall|i: int, j: int|
            0 <= i < j < r.len() ==> (#[trigger] r[i]) != (#[trigger] r[j]) && first_with(documents, r[i]).timestamp
                <= first_with(documents, r[j]).timestamp,
{
    assert forall|id: u64| #[trigger] r.contains(id) <==> ids.contains(id) by {
        assert(r.to_set().contains(id) == r.contains(id));
    }
}

} // verus!
