//! The memory of one session.
//!
//! Turns of a conversation are kept as documents and selected as context
//! within a token budget. Embedding a text, and inserting it in and searching
//! the index, is done by functions that the caller supplies.
use crate::budget::{
    all_differ, contains_id, is_chronological, latest_first, law_budget_respected, law_recent_always_kept,
    law_selection_is_maximal, lemma_candidates, lemma_latest_first, lemma_most_recent, lemma_ranked_documents,
    lemma_tokens_within, more_recent, ranked_documents, recent_count, select_within_budget, selection, the_order,
    tokens_in_order, tokens_of,
};
use crate::document::{
    count_tokens, first_with, has_id, is_first_with, lemma_first_position, lemma_first_with, new_document, token_sum,
    Document, DocumentFields, DocumentKind, DocumentType,
};
use crate::error::{AgentMemoryError, TurboError};
use crate::index::SearchResult;
use crate::ranker::{
    all_scored, combined_keys, is_of_one, is_ranked_in, is_ranking, known, law_rank, rank, reference_of, RankedResult,
    RankingConfig,
};
use crate::scalar::Scalar;
use crate::sorting::{is_stable_order, lemma_order_is_permutation};
use crate::text::{decimal, decimal_text, holds, law_parse_after_decimal, parsed};
use vstd::prelude::*;

verus! {

/// The seed of the rotation of a session's index.
pub const ROTATION_SEED: u64 = 42;

/// The seed of the projection of a session's index.
pub const QJL_SEED: u64 = 99;

/// How many search results are ranked.
pub const SEARCH_LIMIT: usize = 50;

/// The conversation turns of one session.
pub struct SessionMemory {
    documents: Vec<Document>,
    turn_counter: usize,
}

/// The text of a turn.
pub open spec fn turn_text(role: Seq<char>, content: Seq<char>) -> Seq<char> {
    role + ": "@ + content
}

/// The document of a turn.
pub open spec fn turn_document(
    turn: u64,
    role: Seq<char>,
    content: Seq<char>,
    token_count: usize,
    timestamp: u64,
) -> DocumentFields {
    let base = new_document(turn, DocumentKind::ConversationTurn, turn_text(role, content), timestamp);
    DocumentFields {
        token_count,
        metadata: base.metadata.insert("role"@, role).insert("turn_number"@, decimal(turn as nat)),
        ..base
    }
}

/// The documents whose identifier is in the list, in order.
pub open spec fn with_ids(documents: Seq<Document>, ids: Seq<u64>) -> Seq<Document>
    decreases documents.len(),
{
    if documents.len() == 0 {
        Seq::empty()
    } else {
        let before = with_ids(documents.drop_last(), ids);
        if ids.contains(documents.last().id) {
            before.push(documents.last())
        } else {
            before
        }
    }
}

impl SessionMemory {
    /// The documents of the turns, in order.
    pub closed spec fn turns(&self) -> Seq<Document> {
        self.documents@
    }

    /// The number of turns that were begun.
    pub closed spec fn counter(&self) -> usize {
        self.turn_counter
    }

    /// Identifiers ascend, and none is above the number of turns.
    pub open spec fn wf(&self) -> bool {
        &&& forall|i: int, j: int|
            0 <= i < j < self.turns().len() ==> (#[trigger] self.turns()[i]).id < (#[trigger] self.turns()[j]).id
        &&& forall|i: int| 0 <= i < self.turns().len() ==> (#[trigger] self.turns()[i]).id <= self.counter()
    }

    /// A session without turns.
    pub fn new() -> (r: SessionMemory)
        ensures
            r.wf(),
            r.turns() == Seq::<Document>::empty(),
            r.counter() == 0,
    {
        SessionMemory { documents: Vec::new(), turn_counter: 0 }
    }

    /// Adds a turn and gives its identifier.
    ///
    /// `insert` embeds a text and inserts it in the index under an identifier. Where it
    /// fails, the turn is counted but not kept.
    pub fn add_turn<F: FnOnce(u64, &str) -> Result<(), TurboError>>(
        &mut self,
        role: &str,
        content: &str,
        token_count: usize,
        insert: F,
    ) -> (r: Result<u64, AgentMemoryError>)
        requires
            old(self).wf(),
            old(self).counter() < usize::MAX,
            forall|text: &str|
                text@ == turn_text(role@, content@) ==> #[trigger] insert.requires(
                    ((old(self).counter() + 1) as u64, text),
                ),
        ensures
            final(self).wf(),
            final(self).counter() == old(self).counter() + 1,
            exists|text: &str, done: Result<(), TurboError>|
                #![trigger insert.ensures((final(self).counter() as u64, text), done)]
                {
                    &&& text@ == turn_text(role@, content@)
                    &&& insert.ensures((final(self).counter() as u64, text), done)
                    &&& match done {
                        Ok(_) => {
                            &&& r == Ok::<u64, AgentMemoryError>(final(self).counter() as u64)
                            &&& final(self).turns().len() == old(self).turns().len() + 1
                            &&& final(self).turns().drop_last() == old(self).turns()
                            &&& final(self).turns().last()@ == turn_document(
                                final(self).counter() as u64,
                                role@,
                                content@,
                                token_count,
                                final(self).turns().last().timestamp,
                            )
                        },
                        Err(e) => {
                            &&& r == Err::<u64, AgentMemoryError>(AgentMemoryError::Turbo(e))
                            &&& final(self).turns() == old(self).turns()
                        },
                    }
                },
    {
        self.turn_counter = self.turn_counter + 1;
        let id: u64 = self.turn_counter as u64;
        let mut prefixed: String = String::from_str(role);
        prefixed.append(": ");
        prefixed.append(content);
        let mut doc = Document::new(id, DocumentType::ConversationTurn, prefixed);
        doc.token_count = token_count;
        doc.metadata.insert(String::from_str("role"), String::from_str(role));
        doc.metadata.insert(String::from_str("turn_number"), decimal_text(id));
        let text: &str = doc.content.as_str();
        let done: Result<(), TurboError> = insert(id, text);
        let ghost (t, outcome) = (text, done);
        assert(t@ == turn_text(role@, content@));
        assert(insert.ensures((self.counter() as u64, t), outcome));
        match done {
            Ok(_) => {},
            Err(e) => {
                return Err(AgentMemoryError::Turbo(e));
            },
        }
        self.documents.push(doc);
        assert(self.documents@.drop_last() =~= old(self).documents@);
        Ok(id)
    }

    /// What `select_context` selects, given what the search found.
    pub open spec fn selected_from<R: Fn(u64) -> Scalar, C: Fn(Scalar, Scalar, Scalar, Scalar) -> Scalar>(
        &self,
        found: Seq<SearchResult>,
        token_budget: usize,
        config: RankingConfig,
        recency: R,
        combine: C,
        r: Seq<Document>,
    ) -> bool {
        exists|scored: Seq<RankedResult>, ranked: Seq<RankedResult>, ids: Seq<u64>|
            #![trigger is_ranking(scored, ranked), is_chronological(ids, selection(ranked, self.turns(), token_budget as int, config.always_keep_recent as int).ids, self.turns())]
            {
                &&& all_scored(found, self.turns(), self.counter() as u64, config, recency, combine, scored)
                &&& is_ranking(scored, ranked)
                &&& is_chronological(
                    ids,
                    selection(ranked, self.turns(), token_budget as int, config.always_keep_recent as int).ids,
                    self.turns(),
                )
                &&& r == with_ids(self.turns(), ids)
            }
    }

    /// Selects the turns that matter most for a message within a token budget, in the order
    /// of the conversation.
    ///
    /// `search` embeds a text and finds so many similar ones in the index. `recency` and
    /// `combine` are those of `rank`.
    pub fn select_context<
        S: FnOnce(&str, usize) -> Vec<SearchResult>,
        R: Fn(u64) -> Scalar,
        C: Fn(Scalar, Scalar, Scalar, Scalar) -> Scalar,
    >(
        &self,
        current_message: &str,
        token_budget: usize,
        config: Option<RankingConfig>,
        search: S,
        recency: &R,
        combine: &C,
    ) -> (r: Result<Vec<&Document>, AgentMemoryError>)
        requires
            search.requires((current_message, SEARCH_LIMIT)),
            forall|age: u64| #[trigger] recency.requires((age,)),
            forall|a: Scalar, b: Scalar, c: Scalar, d: Scalar| #[trigger] combine.requires((a, b, c, d)),
        ensures
            r is Ok,
            self.turns().len() == 0 ==> r->Ok_0@.len() == 0,
            self.turns().len() > 0 ==> exists|found: Vec<SearchResult>, used: RankingConfig|
                #![trigger search.ensures((current_message, SEARCH_LIMIT), found), self.selected_from(found@, token_budget, used, *recency, *combine, r->Ok_0@.unref())]
                {
                    &&& search.ensures((current_message, SEARCH_LIMIT), found)
                    &&& match config {
                        Some(c) => used == c,
                        None => used.is_default(),
                    }
                    &&& self.selected_from(found@, token_budget, used, *recency, *combine, r->Ok_0@.unref())
                },
    {
        if self.documents.len() == 0 {
            return Ok(Vec::new());
        }
        let used: RankingConfig = match config {
            Some(c) => c,
            None => RankingConfig::default(),
        };
        let found: Vec<SearchResult> = search(current_message, SEARCH_LIMIT);
        let ranked: Vec<RankedResult> = rank(
            found.as_slice(),
            &self.documents,
            self.turn_counter as u64,
            &used,
            recency,
            combine,
        );
        let ids: Vec<u64> = select_within_budget(
            ranked.as_slice(),
            &self.documents,
            token_budget,
            used.always_keep_recent,
        );
        let mut result: Vec<&Document> = Vec::new();
        let mut i: usize = 0;
        while i < self.documents.len()
            invariant
                i <= self.documents@.len(),
                result@.unref() =~= with_ids(self.documents@.take(i as int), ids@),
            decreases self.documents@.len() - i,
        {
            assert(self.documents@.take(i + 1).drop_last() =~= self.documents@.take(i as int));
            if contains_id(&ids, self.documents[i].id) {
                result.push(&self.documents[i]);
            }
            i = i + 1;
        }
        assert(self.documents@.take(i as int) =~= self.documents@);
        proof {
            let scored = choose|scored: Seq<RankedResult>| #[trigger]
                all_scored(found@, self.documents@, self.turn_counter as u64, used, *recency, *combine, scored)
                    && is_ranking(scored, ranked@);
            assert(is_ranking(scored, ranked@) && is_chronological(
                ids@,
                selection(ranked@, self.turns(), token_budget as int, used.always_keep_recent as int).ids,
                self.turns(),
            ));
        }
        let r: Result<Vec<&Document>, AgentMemoryError> = Ok(result);
        assert(search.ensures((current_message, SEARCH_LIMIT), found) && self.selected_from(
            found@,
            token_budget,
            used,
            *recency,
            *combine,
            r->Ok_0@.unref(),
        ));
        r
    }

    /// The number of turns.
    pub fn turn_count(&self) -> (r: usize)
        ensures
            r == self.counter(),
    {
        self.turn_counter
    }

    /// The number of tokens of all turns that are kept.
    pub fn total_tokens(&self) -> (r: usize)
        requires
            token_sum(self.turns()) <= usize::MAX,
        ensures
            r == token_sum(self.turns()),
    {
        count_tokens(&self.documents)
    }
}

proof fn lemma_with_ids(documents: Seq<Document>, ids: Seq<u64>)
    requires
        forall|i: int, j: int|
            0 <= i < j < documents.len() ==> (#[trigger] documents[i]).id < (#[trigger] documents[j]).id,
    ensures
        forall|i: int, j: int|
            0 <= i < j < with_ids(documents, ids).len() ==> (#[trigger] with_ids(documents, ids)[i]).id < (
            #[trigger] with_ids(documents, ids)[j]).id,
        forall|i: int|
            0 <= i < with_ids(documents, ids).len() ==> documents.contains(#[trigger] with_ids(documents, ids)[i])
                && ids.contains(with_ids(documents, ids)[i].id),
    decreases documents.len(),
{
    if documents.len() > 0 {
        let rest = documents.drop_last();
        let before = with_ids(rest, ids);
        let all = with_ids(documents, ids);
        assert forall|i: int, j: int| 0 <= i < j < rest.len() implies (#[trigger] rest[i]).id < (#[trigger] rest[j]).id by {
            assert(rest[i] == documents[i] && rest[j] == documents[j]);
        }
        lemma_with_ids(rest, ids);
        assert forall|i: int| 0 <= i < all.len() implies documents.contains(#[trigger] all[i]) && ids.contains(
            all[i].id,
        ) by {
            if i < before.len() {
                assert(all[i] == before[i]);
                let k = choose|k: int| 0 <= k < rest.len() && rest[k] == before[i];
                assert(documents[k] == all[i]);
            } else {
                assert(documents[documents.len() - 1] == all[i]);
            }
        }
        assert forall|i: int, j: int| 0 <= i < j < all.len() implies (#[trigger] all[i]).id < (#[trigger] all[j]).id by {
            assert(all[i] == before[i]);
            if j < before.len() {
                assert(all[j] == before[j]);
            } else {
                let k = choose|k: int| 0 <= k < rest.len() && rest[k] == before[i];
                assert(documents[k] == before[i]);
                assert(documents[k].id < documents[documents.len() - 1].id);
            }
        }
    }
}

/// The selected turns come in the order of the conversation.
pub proof fn law_context_in_order(session: SessionMemory, ids: Seq<u64>)
    requires
        session.wf(),
    ensures
        forall|i: int, j: int|
            0 <= i < j < with_ids(session.turns(), ids).len() ==> (#[trigger] with_ids(session.turns(), ids)[i]).id < (
            #[trigger] with_ids(session.turns(), ids)[j]).id,
{
    lemma_with_ids(session.turns(), ids);
}

proof fn lemma_own_first(documents: Seq<Document>, d: Document)
    requires
        forall|i: int, j: int|
            0 <= i < j < documents.len() ==> (#[trigger] documents[i]).id < (#[trigger] documents[j]).id,
        documents.contains(d),
    ensures
        first_with(documents, d.id) == d,
{
    let k = choose|k: int| 0 <= k < documents.len() && documents[k] == d;
    assert(is_first_with(documents, d.id, k));
    lemma_first_with(documents, d.id, k);
}

proof fn lemma_tokens_agree(documents: Seq<Document>, chosen: Seq<Document>)
    requires
        forall|i: int, j: int|
            0 <= i < j < documents.len() ==> (#[trigger] documents[i]).id < (#[trigger] documents[j]).id,
        forall|i: int| 0 <= i < chosen.len() ==> documents.contains(#[trigger] chosen[i]),
    ensures
        tokens_of(chosen.map_values(|d: Document| d.id), documents) == token_sum(chosen),
    decreases chosen.len(),
{
    let ids = chosen.map_values(|d: Document| d.id);
    if chosen.len() > 0 {
        let rest = chosen.drop_last();
        assert forall|i: int| 0 <= i < rest.len() implies documents.contains(#[trigger] rest[i]) by {
            assert(rest[i] == chosen[i]);
        }
        lemma_tokens_agree(documents, rest);
        assert(ids.drop_last() =~= rest.map_values(|d: Document| d.id));
        assert(documents.contains(chosen[chosen.len() - 1]));
        lemma_own_first(documents, chosen.last());
    }
}

/// The tokens of the selected turns stay within the budget.
pub proof fn law_context_within_budget(
    session: SessionMemory,
    ranked: Seq<RankedResult>,
    token_budget: int,
    always_keep_recent: int,
    ids: Seq<u64>,
)
    requires
        session.wf(),
        0 <= token_budget,
        0 <= always_keep_recent,
        ranked.len() <= usize::MAX,
        is_chronological(
            ids,
            selection(ranked, session.turns(), token_budget, always_keep_recent).ids,
            session.turns(),
        ),
    ensures
        token_sum(with_ids(session.turns(), ids)) <= token_budget,
{
    let chosen = with_ids(session.turns(), ids);
    let list = chosen.map_values(|d: Document| d.id);
    lemma_with_ids(session.turns(), ids);
    lemma_tokens_agree(session.turns(), chosen);
    assert forall|i: int, j: int| 0 <= i < list.len() && 0 <= j < list.len() && i != j implies list[i] != list[j] by {
        if i < j {
            assert(chosen[i].id < chosen[j].id);
        } else {
            assert(chosen[j].id < chosen[i].id);
        }
    }
    assert forall|x: u64| list.to_set().contains(x) implies ids.to_set().contains(x) by {
        let i = choose|i: int| 0 <= i < list.len() && list[i] == x;
        assert(ids.contains(chosen[i].id));
    }
    assert(list.to_set().subset_of(selection(ranked, session.turns(), token_budget, always_keep_recent).ids));
    law_budget_respected(ranked, session.turns(), token_budget, always_keep_recent, list);
}

proof fn lemma_known_ids(found: Seq<SearchResult>, documents: Seq<Document>)
    requires
        forall|i: int, j: int| 0 <= i < j < found.len() ==> (#[trigger] found[i]).id != (#[trigger] found[j]).id,
    ensures
        known(found, documents).len() <= found.len(),
        forall|i: int, j: int|
            0 <= i < j < known(found, documents).len() ==> (#[trigger] known(found, documents)[i]).id != (
            #[trigger] known(found, documents)[j]).id,
        forall|i: int|
            0 <= i < known(found, documents).len() ==> has_id(documents, (#[trigger] known(found, documents)[i]).id)
                && found.contains(known(found, documents)[i]),
        forall|i: int|
            0 <= i < found.len() && has_id(documents, (#[trigger] found[i]).id) ==> known(found, documents).contains(
                found[i],
            ),
    decreases found.len(),
{
    if found.len() > 0 {
        let rest = found.drop_last();
        let before = known(rest, documents);
        let all = known(found, documents);
        assert forall|i: int, j: int| 0 <= i < j < rest.len() implies (#[trigger] rest[i]).id != (#[trigger] rest[j]).id by {
            assert(rest[i] == found[i] && rest[j] == found[j]);
        }
        lemma_known_ids(rest, documents);
        let last = found[found.len() - 1];
        assert forall|i: int| 0 <= i < all.len() implies has_id(documents, (#[trigger] all[i]).id) && found.contains(
            all[i],
        ) by {
            if i < before.len() {
                assert(all[i] == before[i]);
                let k = choose|k: int| 0 <= k < rest.len() && rest[k] == before[i];
                assert(found[k] == all[i]);
            } else {
                assert(all[i] == last);
            }
        }
        assert forall|i: int, j: int| 0 <= i < j < all.len() implies (#[trigger] all[i]).id != (#[trigger] all[j]).id by {
            assert(all[i] == before[i]);
            if j < before.len() {
                assert(all[j] == before[j]);
            } else {
                let k = choose|k: int| 0 <= k < rest.len() && rest[k] == before[i];
                assert(found[k].id != last.id);
            }
        }
        assert forall|i: int| 0 <= i < found.len() && has_id(documents, (#[trigger] found[i]).id) implies all.contains(
            found[i],
        ) by {
            if i < rest.len() {
                assert(rest[i] == found[i]);
                let k = choose|k: int| 0 <= k < before.len() && before[k] == rest[i];
                assert(all[k] == found[i]);
            } else {
                assert(all[before.len() as int] == found[i]);
            }
        }
    }
}

proof fn lemma_token_sum_front(documents: Seq<Document>)
    requires
        documents.len() > 0,
    ensures
        token_sum(documents) == documents[0].token_count + token_sum(documents.skip(1)),
    decreases documents.len(),
{
    if documents.len() == 1 {
        assert(documents.skip(1) =~= Seq::empty());
        assert(documents.drop_last() =~= Seq::empty());
    } else {
        lemma_token_sum_front(documents.drop_last());
        assert(documents.drop_last().skip(1) =~= documents.skip(1).drop_last());
    }
}

proof fn lemma_recent_tokens(documents: Seq<Document>, candidates: Seq<Document>, order: Seq<usize>, k: int)
    requires
        0 <= k <= documents.len(),
        forall|i: int| 0 <= i < k ==> candidates[#[trigger] order[i] as int] == documents[documents.len() - 1 - i],
    ensures
        tokens_in_order(candidates, order, k) == token_sum(documents.skip(documents.len() - k)),
    decreases k,
{
    let n = documents.len() as int;
    if k > 0 {
        lemma_recent_tokens(documents, candidates, order, k - 1);
        lemma_token_sum_front(documents.skip(n - k));
        assert(documents.skip(n - k).skip(1) =~= documents.skip(n - (k - 1)));
        assert(candidates[order[k - 1] as int] == documents[n - k]);
    } else {
        assert(documents.skip(n) =~= Seq::empty());
    }
}

/// Some ranked result has the identifier.
spec fn is_ranked(ranked: Seq<RankedResult>, id: u64) -> bool {
    exists|p: int| 0 <= p < ranked.len() && (#[trigger] ranked[p]).id == id
}

proof fn lemma_ranked_ids(list: Seq<SearchResult>, scored: Seq<RankedResult>, ranked: Seq<RankedResult>)
    requires
        list.len() == scored.len() <= usize::MAX,
        forall|i: int| 0 <= i < scored.len() ==> (#[trigger] scored[i]).id == list[i].id,
        forall|i: int, j: int| 0 <= i < j < list.len() ==> (#[trigger] list[i]).id != (#[trigger] list[j]).id,
        is_ranking(scored, ranked),
    ensures
        ranked.len() == list.len(),
        forall|i: int, j: int| 0 <= i < j < ranked.len() ==> (#[trigger] ranked[i]).id != (#[trigger] ranked[j]).id,
        forall|a: int| 0 <= a < list.len() ==> is_ranked(ranked, (#[trigger] list[a]).id),
{
    let order = choose|order: Seq<usize>| #[trigger]
        is_stable_order(combined_keys(scored), order) && ranked == order.map_values(|m: usize| scored[m as int]);
    lemma_order_is_permutation(combined_keys(scored), order);
    assert forall|i: int, j: int| 0 <= i < j < ranked.len() implies (#[trigger] ranked[i]).id != (#[trigger] ranked[j]).id by {
        let (a, b) = (order[i] as int, order[j] as int);
        assert(order[i] != order[j]);
        assert(scored[a].id == list[a].id && scored[b].id == list[b].id);
        if a < b {
            assert(list[a].id != list[b].id);
        } else {
            assert(list[b].id != list[a].id);
        }
    }
    assert forall|a: int| 0 <= a < list.len() implies is_ranked(ranked, (#[trigger] list[a]).id) by {
        assert(order.contains(a as usize));
        let p = choose|p: int| 0 <= p < order.len() && order[p] == a as usize;
        assert(ranked[p] == scored[a]);
    }
}

/// A turn that was found is a candidate.
proof fn lemma_found_is_candidate(session: SessionMemory, found: Seq<SearchResult>, ranked: Seq<RankedResult>, i: int)
    requires
        session.wf(),
        0 <= i < session.turns().len(),
        forall|a: int, b: int| 0 <= a < b < found.len() ==> (#[trigger] found[a]).id != (#[trigger] found[b]).id,
        forall|a: int, b: int| 0 <= a < b < ranked.len() ==> (#[trigger] ranked[a]).id != (#[trigger] ranked[b]).id,
        exists|j: int| 0 <= j < found.len() && (#[trigger] found[j]).id == session.turns()[i].id,
        forall|a: int|
            0 <= a < known(found, session.turns()).len() ==> is_ranked(
                ranked,
                (#[trigger] known(found, session.turns())[a]).id,
            ),
    ensures
        ranked_documents(ranked, session.turns()).contains(session.turns()[i]),
{
    let turns = session.turns();
    let list = known(found, turns);
    let d = turns[i];
    lemma_known_ids(found, turns);
    lemma_candidates(ranked, turns);
    let j = choose|j: int| 0 <= j < found.len() && (#[trigger] found[j]).id == d.id;
    assert(has_id(turns, found[j].id));
    assert(list.contains(found[j]));
    let a = choose|a: int| 0 <= a < list.len() && list[a] == found[j];
    assert(is_ranked(ranked, list[a].id));
    let p = choose|p: int| 0 <= p < ranked.len() && (#[trigger] ranked[p]).id == list[a].id;
    assert(turns.contains(d));
    lemma_own_first(turns, d);
    assert(ranked_documents(ranked, turns).contains(first_with(turns, ranked[p].id)));
}

proof fn lemma_latest_candidates(turns: Seq<Document>, ranked: Seq<RankedResult>, k: int)
    requires
        0 <= k <= turns.len(),
        ranked.len() <= usize::MAX,
        all_differ(ranked),
        forall|i: int, j: int| 0 <= i < j < turns.len() ==> more_recent(#[trigger] turns[j], #[trigger] turns[i]),
        forall|i: int|
            turns.len() - k <= i < turns.len() ==> ranked_documents(ranked, turns).contains(#[trigger] turns[i]),
    ensures
        ({
            let candidates = ranked_documents(ranked, turns);
            let recent = the_order(latest_first(candidates));
            &&& k <= recent.len()
            &&& recent.len() == candidates.len() <= turns.len()
            &&& forall|i: int| 0 <= i < k ==> candidates[#[trigger] recent[i] as int] == turns[turns.len() - 1 - i]
        }),
{
    let candidates = ranked_documents(ranked, turns);
    let recent = the_order(latest_first(candidates));
    lemma_candidates(ranked, turns);
    lemma_latest_first(ranked, turns);
    assert forall|i: int| 0 <= i < candidates.len() implies turns.contains(#[trigger] candidates[i]) by {
        lemma_candidate_is_document(ranked, turns, i);
    }
    lemma_not_more(turns, candidates);
    lemma_most_recent(turns, candidates, recent, k);
}

#[verifier::rlimit(40)]
proof fn lemma_latest_selected(
    turns: Seq<Document>,
    ranked: Seq<RankedResult>,
    ids: Seq<u64>,
    budget: int,
    keep: int,
    k: int,
)
    requires
        0 <= keep,
        ranked.len() <= usize::MAX,
        is_chronological(ids, selection(ranked, turns, budget, keep).ids, turns),
        k == if keep < turns.len() {
            keep
        } else {
            turns.len() as int
        },
        token_sum(turns.skip(turns.len() - k)) <= budget,
        ({
            let candidates = ranked_documents(ranked, turns);
            let recent = the_order(latest_first(candidates));
            &&& k <= recent.len()
            &&& recent.len() == candidates.len() <= turns.len()
            &&& forall|i: int| 0 <= i < k ==> candidates[#[trigger] recent[i] as int] == turns[turns.len() - 1 - i]
        }),
    ensures
        forall|i: int| turns.len() - k <= i < turns.len() ==> ids.contains((#[trigger] turns[i]).id),
{
    let n = turns.len() as int;
    let candidates = ranked_documents(ranked, turns);
    let recent = the_order(latest_first(candidates));
    lemma_recent_tokens(turns, candidates, recent, k);
    law_recent_always_kept(ranked, turns, budget, keep);
    let chosen = selection(ranked, turns, budget, keep).ids;
    assert forall|i: int| n - k <= i < n implies ids.contains((#[trigger] turns[i]).id) by {
        let m = n - 1 - i;
        assert(candidates[recent[m] as int] == turns[i]);
        assert(chosen.contains(turns[i].id));
        assert(ids.to_set().contains(turns[i].id));
    }
}

#[verifier::rlimit(40)]
proof fn lemma_recent_selected(
    session: SessionMemory,
    found: Seq<SearchResult>,
    scored: Seq<RankedResult>,
    ranked: Seq<RankedResult>,
    ids: Seq<u64>,
    budget: int,
    keep: int,
    k: int,
)
    requires
        session.wf(),
        found.len() <= usize::MAX,
        0 <= keep,
        forall|i: int, j: int| 0 <= i < j < found.len() ==> (#[trigger] found[i]).id != (#[trigger] found[j]).id,
        forall|i: int, j: int|
            0 <= i < j < session.turns().len() ==> (#[trigger] session.turns()[i]).timestamp <= (
            #[trigger] session.turns()[j]).timestamp,
        known(found, session.turns()).len() == scored.len(),
        forall|i: int| 0 <= i < scored.len() ==> (#[trigger] scored[i]).id == known(found, session.turns())[i].id,
        is_ranking(scored, ranked),
        is_chronological(ids, selection(ranked, session.turns(), budget, keep).ids, session.turns()),
        k == if keep < session.turns().len() {
            keep
        } else {
            session.turns().len() as int
        },
        forall|i: int|
            session.turns().len() - k <= i < session.turns().len() ==> exists|j: int|
                0 <= j < found.len() && (#[trigger] found[j]).id == (#[trigger] session.turns()[i]).id,
        token_sum(session.turns().skip(session.turns().len() - k)) <= budget,
    ensures
        forall|i: int|
            session.turns().len() - k <= i < session.turns().len() ==> ids.contains((#[trigger] session.turns()[i]).id),
{
    let turns = session.turns();
    let n = turns.len() as int;
    let list = known(found, turns);
    lemma_known_ids(found, turns);
    lemma_ranked_ids(list, scored, ranked);
    assert forall|i: int, j: int| 0 <= i < j < n implies more_recent(#[trigger] turns[j], #[trigger] turns[i]) by {
        assert(turns[i].id < turns[j].id);
        assert(turns[i].timestamp <= turns[j].timestamp);
    }
    assert forall|i: int| n - k <= i < n implies ranked_documents(ranked, turns).contains(#[trigger] turns[i]) by {
        lemma_found_is_candidate(session, found, ranked, i);
    }
    lemma_latest_candidates(turns, ranked, k);
    lemma_latest_selected(turns, ranked, ids, budget, keep, k);
}

/// The most recent turns are always part of the context where the budget has room for them:
/// those among the last `always_keep_recent`, provided the search found them, no timestamp is
/// before that of an earlier turn, and no identifier was found twice.
pub proof fn law_recent_turns_kept<R: Fn(u64) -> Scalar, C: Fn(Scalar, Scalar, Scalar, Scalar) -> Scalar>(
    session: SessionMemory,
    found: Seq<SearchResult>,
    token_budget: usize,
    config: RankingConfig,
    recency: R,
    combine: C,
    r: Seq<Document>,
    k: int,
)
    requires
        session.wf(),
        found.len() <= usize::MAX,
        forall|i: int, j: int| 0 <= i < j < found.len() ==> (#[trigger] found[i]).id != (#[trigger] found[j]).id,
        forall|i: int, j: int|
            0 <= i < j < session.turns().len() ==> (#[trigger] session.turns()[i]).timestamp <= (
            #[trigger] session.turns()[j]).timestamp,
        session.selected_from(found, token_budget, config, recency, combine, r),
        k == if config.always_keep_recent < session.turns().len() {
            config.always_keep_recent as int
        } else {
            session.turns().len() as int
        },
        forall|i: int|
            session.turns().len() - k <= i < session.turns().len() ==> exists|j: int|
                0 <= j < found.len() && (#[trigger] found[j]).id == (#[trigger] session.turns()[i]).id,
        token_sum(session.turns().skip(session.turns().len() - k)) <= token_budget,
    ensures
        forall|i: int|
            session.turns().len() - k <= i < session.turns().len() ==> r.contains(#[trigger] session.turns()[i]),
{
    let turns = session.turns();
    let budget = token_budget as int;
    let keep = config.always_keep_recent as int;
    let (scored, ranked, ids) = choose|scored: Seq<RankedResult>, ranked: Seq<RankedResult>, ids: Seq<u64>|
        #![trigger is_ranking(scored, ranked), is_chronological(ids, selection(ranked, turns, budget, keep).ids, turns)]
        {
            &&& all_scored(found, turns, session.counter() as u64, config, recency, combine, scored)
            &&& is_ranking(scored, ranked)
            &&& is_chronological(ids, selection(ranked, turns, budget, keep).ids, turns)
            &&& r == with_ids(turns, ids)
        };
    let list = known(found, turns);
    assert forall|i: int| 0 <= i < scored.len() implies (#[trigger] scored[i]).id == list[i].id by {}
    lemma_recent_selected(session, found, scored, ranked, ids, budget, keep, k);
    assert forall|i: int| turns.len() - k <= i < turns.len() implies r.contains(#[trigger] turns[i]) by {
        lemma_with_ids_has(turns, ids, i);
    }
}

proof fn lemma_candidate_is_document(ranked: Seq<RankedResult>, documents: Seq<Document>, i: int)
    requires
        0 <= i < ranked_documents(ranked, documents).len(),
    ensures
        documents.contains(ranked_documents(ranked, documents)[i]),
{
    lemma_ranked_documents(ranked, documents);
    let d = ranked_documents(ranked, documents)[i];
    let at = choose|at: int| is_first_with(documents, d.id, at);
    lemma_first_position(documents, d.id);
    assert(is_first_with(documents, d.id, at));
    assert(documents[at] == d);
}

proof fn lemma_not_more(documents: Seq<Document>, candidates: Seq<Document>)
    requires
        forall|i: int| 0 <= i < candidates.len() ==> documents.contains(#[trigger] candidates[i]),
        forall|i: int, j: int|
            0 <= i < j < candidates.len() ==> (#[trigger] candidates[i]).id != (#[trigger] candidates[j]).id,
    ensures
        candidates.len() <= documents.len(),
{
    assert(candidates.no_duplicates()) by {
        assert forall|i: int, j: int| 0 <= i < candidates.len() && 0 <= j < candidates.len() && i != j implies candidates[i]
            != candidates[j] by {
            if i < j {
                assert(candidates[i].id != candidates[j].id);
            } else {
                assert(candidates[j].id != candidates[i].id);
            }
        }
    }
    candidates.unique_seq_to_set();
    documents.lemma_cardinality_of_set();
    assert(candidates.to_set().subset_of(documents.to_set()));
    vstd::set_lib::lemma_len_subset(candidates.to_set(), documents.to_set());
}

proof fn lemma_with_ids_has(documents: Seq<Document>, ids: Seq<u64>, i: int)
    requires
        0 <= i < documents.len(),
        ids.contains(documents[i].id),
    ensures
        with_ids(documents, ids).contains(documents[i]),
    decreases documents.len(),
{
    let rest = documents.drop_last();
    let before = with_ids(rest, ids);
    let all = with_ids(documents, ids);
    if i < rest.len() {
        lemma_with_ids_has(rest, ids, i);
        let k = choose|k: int| 0 <= k < before.len() && before[k] == rest[i];
        assert(all[k] == documents[i]);
    } else {
        assert(all[before.len() as int] == documents[i]);
    }
}

/// The context is made of the turns whose identifiers were selected, each once and in the order of
/// the conversation.
pub proof fn law_context_is_what_was_selected(documents: Seq<Document>, ids: Seq<u64>)
    ensures
        with_ids(documents, ids) == documents.filter(|d: Document| ids.contains(d.id)),
    decreases documents.len(),
{
    reveal(Seq::filter);
    if documents.len() > 0 {
        law_context_is_what_was_selected(documents.drop_last(), ids);
    } else {
        assert(with_ids(documents, ids) =~= documents.filter(|d: Document| ids.contains(d.id)));
    }
}

/// The document of a turn holds what was said, by whom and as which turn. Its age is counted from
/// its turn.
pub proof fn law_turn_document(turn: u64, role: Seq<char>, content: Seq<char>, token_count: usize, timestamp: u64)
    ensures
        ({
            let d = turn_document(turn, role, content, token_count, timestamp);
            &&& d.content == role + ": "@ + content
            &&& holds(d.content, content) && holds(d.content, role)
            &&& d.id == turn && d.kind is ConversationTurn
            &&& d.token_count == token_count && d.timestamp == timestamp && d.source_path is None
            &&& d.metadata.dom().contains("role"@) && d.metadata["role"@] == role
            &&& d.metadata.dom().contains("turn_number"@) && parsed(d.metadata["turn_number"@]) == Some(turn)
            &&& reference_of(d) == turn
            &&& d.content.len() <= 200 ==> d.content_preview == d.content
        }),
{
    let d = turn_document(turn, role, content, token_count, timestamp);
    let none: Seq<char> = Seq::empty();
    reveal_strlit("role");
    reveal_strlit("turn_number");
    assert("role"@.len() != "turn_number"@.len());
    law_parse_after_decimal(turn);
    assert(d.content =~= (role + ": "@) + content + none);
    assert(d.content =~= none + role + (": "@ + content));
    if d.content.len() <= 200 {
        assert(d.content_preview =~= d.content);
    }
}

/// The context is maximal: it stays within the budget, holds only turns that the search found, and
/// a turn that was found and left out has more tokens than the budget leaves.
#[verifier::rlimit(40)]
pub proof fn law_context_is_maximal<R: Fn(u64) -> Scalar, C: Fn(Scalar, Scalar, Scalar, Scalar) -> Scalar>(
    session: SessionMemory,
    found: Seq<SearchResult>,
    token_budget: usize,
    config: RankingConfig,
    recency: R,
    combine: C,
    r: Seq<Document>,
)
    requires
        session.wf(),
        found.len() <= usize::MAX,
        forall|i: int, j: int| 0 <= i < j < found.len() ==> (#[trigger] found[i]).id != (#[trigger] found[j]).id,
        session.selected_from(found, token_budget, config, recency, combine, r),
    ensures
        token_sum(r) <= token_budget,
        forall|k: int|
            0 <= k < r.len() ==> session.turns().contains(#[trigger] r[k]) && was_found(found, r[k].id),
        forall|i: int|
            0 <= i < session.turns().len() && was_found(found, (#[trigger] session.turns()[i]).id) && !r.contains(
                session.turns()[i],
            ) ==> token_sum(r) + session.turns()[i].token_count > token_budget,
{
    let turns = session.turns();
    let budget = token_budget as int;
    let keep = config.always_keep_recent as int;
    let (scored, ranked, ids) = choose|scored: Seq<RankedResult>, ranked: Seq<RankedResult>, ids: Seq<u64>|
        #![trigger is_ranking(scored, ranked), is_chronological(ids, selection(ranked, turns, budget, keep).ids, turns)]
        {
            &&& all_scored(found, turns, session.counter() as u64, config, recency, combine, scored)
            &&& is_ranking(scored, ranked)
            &&& is_chronological(ids, selection(ranked, turns, budget, keep).ids, turns)
            &&& r == with_ids(turns, ids)
        };
    let list = known(found, turns);
    lemma_known_ids(found, turns);
    assert forall|i: int| 0 <= i < scored.len() implies (#[trigger] scored[i]).id == list[i].id by {}
    lemma_ranked_ids(list, scored, ranked);
    law_selection_is_maximal(ranked, turns, budget, keep, ids);
    lemma_context_tokens(session, ids);
    lemma_with_ids(turns, ids);
    assert forall|k: int| 0 <= k < r.len() implies turns.contains(#[trigger] r[k]) && was_found(found, r[k].id) by {
        let id = r[k].id;
        assert(ids.contains(id));
        let m = choose|m: int| 0 <= m < ids.len() && ids[m] == id;
        let p = choose|p: int| 0 <= p < ranked.len() && (#[trigger] ranked[p]).id == ids[m];
        let order = choose|order: Seq<usize>| #[trigger]
            is_stable_order(combined_keys(scored), order) && ranked == order.map_values(|m: usize| scored[m as int]);
        let a = order[p] as int;
        assert(ranked[p] == scored[a]);
        assert(found.contains(list[a]));
        let f = choose|f: int| 0 <= f < found.len() && found[f] == list[a];
        assert(found[f].id == id);
    }
    assert forall|i: int| 0 <= i < turns.len() && was_found(found, (#[trigger] turns[i]).id) && !r.contains(
        turns[i],
    ) implies token_sum(r) + turns[i].token_count > token_budget by {
        let id = turns[i].id;
        if ids.contains(id) {
            lemma_with_ids_has(turns, ids, i);
        }
        let f = choose|f: int| 0 <= f < found.len() && (#[trigger] found[f]).id == id;
        assert(has_id(turns, found[f].id));
        let a = choose|a: int| 0 <= a < list.len() && list[a] == found[f];
        assert(list.contains(found[f]));
        assert(is_ranked(ranked, list[a].id));
        let p = choose|p: int| 0 <= p < ranked.len() && (#[trigger] ranked[p]).id == id;
        assert(has_id(turns, ranked[p].id));
        assert(turns.contains(turns[i]));
        lemma_own_first(turns, turns[i]);
    }
}

/// The search found the identifier.
pub open spec fn was_found(found: Seq<SearchResult>, id: u64) -> bool {
    exists|j: int| 0 <= j < found.len() && (#[trigger] found[j]).id == id
}

proof fn lemma_context_tokens(session: SessionMemory, ids: Seq<u64>)
    requires
        session.wf(),
        ids.no_duplicates(),
        forall|k: int| 0 <= k < ids.len() ==> has_id(session.turns(), #[trigger] ids[k]),
    ensures
        token_sum(with_ids(session.turns(), ids)) == tokens_of(ids, session.turns()),
{
    let turns = session.turns();
    let chosen = with_ids(turns, ids);
    let list = chosen.map_values(|d: Document| d.id);
    lemma_with_ids(turns, ids);
    lemma_tokens_agree(turns, chosen);
    assert forall|i: int, j: int| 0 <= i < list.len() && 0 <= j < list.len() && i != j implies list[i] != list[j] by {
        if i < j {
            assert(chosen[i].id < chosen[j].id);
        } else {
            assert(chosen[j].id < chosen[i].id);
        }
    }
    assert forall|i: int| 0 <= i < list.len() implies ids.contains(#[trigger] list[i]) by {
        assert(ids.contains(chosen[i].id));
    }
    assert forall|k: int| 0 <= k < ids.len() implies list.contains(#[trigger] ids[k]) by {
        let at = choose|at: int| 0 <= at < turns.len() && (#[trigger] turns[at]).id == ids[k];
        lemma_with_ids_has(turns, ids, at);
        let n = choose|n: int| 0 <= n < chosen.len() && chosen[n] == turns[at];
        assert(list[n] == ids[k]);
    }
    lemma_tokens_within(list, ids, turns);
    lemma_tokens_within(ids, list, turns);
}

/// The context is selected by a ranking of all turns that the search found, each with the age that
/// it has at the current turn.
pub proof fn law_context_is_ranked<R: Fn(u64) -> Scalar, C: Fn(Scalar, Scalar, Scalar, Scalar) -> Scalar>(
    session: SessionMemory,
    found: Seq<SearchResult>,
    token_budget: usize,
    config: RankingConfig,
    recency: R,
    combine: C,
    r: Seq<Document>,
)
    requires
        found.len() <= usize::MAX,
        session.selected_from(found, token_budget, config, recency, combine, r),
    ensures
        exists|ranked: Seq<RankedResult>, ids: Seq<u64>|
            {
                &&& #[trigger] is_chronological(
                    ids,
                    selection(ranked, session.turns(), token_budget as int, config.always_keep_recent as int).ids,
                    session.turns(),
                )
                &&& r == session.turns().filter(|d: Document| ids.contains(d.id))
                &&& forall|i: int|
                    0 <= i < found.len() && has_id(session.turns(), (#[trigger] found[i]).id) ==> is_ranked_in(
                        found[i],
                        session.turns(),
                        session.counter() as u64,
                        config,
                        recency,
                        combine,
                        ranked,
                    )
                &&& forall|k: int|
                    0 <= k < ranked.len() ==> is_of_one(
                        found,
                        session.turns(),
                        session.counter() as u64,
                        config,
                        recency,
                        combine,
                        #[trigger] ranked[k],
                    )
            },
{
    let turns = session.turns();
    let budget = token_budget as int;
    let keep = config.always_keep_recent as int;
    let (scored, ranked, ids) = choose|scored: Seq<RankedResult>, ranked: Seq<RankedResult>, ids: Seq<u64>|
        #![trigger is_ranking(scored, ranked), is_chronological(ids, selection(ranked, turns, budget, keep).ids, turns)]
        {
            &&& all_scored(found, turns, session.counter() as u64, config, recency, combine, scored)
            &&& is_ranking(scored, ranked)
            &&& is_chronological(ids, selection(ranked, turns, budget, keep).ids, turns)
            &&& r == with_ids(turns, ids)
        };
    law_rank(found, turns, session.counter() as u64, config, recency, combine, scored, ranked);
    law_context_is_what_was_selected(turns, ids);
    assert(is_chronological(ids, selection(ranked, turns, budget, keep).ids, turns));
}

} // verus!
