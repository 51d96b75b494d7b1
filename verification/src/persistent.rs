//! The memory that outlives a session.
//!
//! Documents are remembered together with the digests of the files that they
//! came from, so that changed and deleted files can be told apart. The index,
//! the files and the places where the memory is kept are reached through
//! functions that the caller supplies.
use crate::digest::{sha256, sha256_file_content, text_digest};
use crate::document::{
    are_counts, clock_millis, count_tokens, count_types, find_document, first_with, has_id, law_new_document,
    new_document, token_sum, Document, DocumentFields, DocumentKind, DocumentType, MemoryStats, RecallResult, Recalled,
    SyncStats,
};
use crate::error::{AgentMemoryError, TurboError};
use crate::index::SearchResult;
use crate::json::{json_strings, parse_string_map, render_string_map};
use crate::ranker::{all_scored, is_ranking, rank, RankedResult, RankingConfig};
use crate::scalar::Scalar;
use crate::session::SEARCH_LIMIT;
use crate::string_map::StringMap;
use crate::text::{hex, same_text};
use vstd::prelude::*;
use vstd::utf8::encode_utf8;

verus! {

/// How many bytes of a text are taken for one token.
pub const BYTES_PER_TOKEN: usize = 4;

/// Documents, the digests of their files, and the identifier of the next document.
pub struct PersistentMemory {
    documents: Vec<Document>,
    file_hashes: StringMap,
    next_id: u64,
}

/// The contents of a memory.
#[verifier::ext_equal]
pub struct MemoryState {
    pub documents: Seq<DocumentFields>,
    pub hashes: Map<Seq<char>, Seq<char>>,
    pub next_id: u64,
}

/// The contents of documents.
pub open spec fn contents(documents: Seq<Document>) -> Seq<DocumentFields> {
    documents.map_values(|d: Document| d@)
}

impl View for PersistentMemory {
    type V = MemoryState;

    closed spec fn view(&self) -> MemoryState {
        MemoryState { documents: contents(self.documents@), hashes: self.file_hashes@, next_id: self.next_id }
    }
}

/// The document that a text becomes: about one token for every four bytes.
pub open spec fn ingested_document(
    id: u64,
    content: Seq<char>,
    kind: DocumentKind,
    path: Option<Seq<char>>,
    timestamp: u64,
) -> DocumentFields {
    DocumentFields {
        token_count: (encode_utf8(content).len() as usize / BYTES_PER_TOKEN) as usize,
        source_path: path,
        ..new_document(id, kind, content, timestamp)
    }
}

/// The memory after a text was ingested: its document comes last, and of a file the digest
/// is noted.
pub open spec fn after_ingest(
    before: MemoryState,
    content: Seq<char>,
    kind: DocumentKind,
    path: Option<Seq<char>>,
    timestamp: u64,
) -> MemoryState {
    MemoryState {
        documents: before.documents.push(ingested_document(before.next_id, content, kind, path, timestamp)),
        hashes: match path {
            Some(p) => before.hashes.insert(p, text_digest(content)),
            None => before.hashes,
        },
        next_id: (before.next_id + 1) as u64,
    }
}

/// What inserting a text in the index came to.
pub open spec fn inserting<I: FnOnce(u64, &str) -> Result<(), TurboError>>(
    insert: I,
    id: u64,
    content: Seq<char>,
    outcome: Result<(), TurboError>,
) -> bool {
    exists|text: &str| text@ == content && #[trigger] insert.ensures((id, text), outcome)
}

/// What saving a memory came to.
pub open spec fn saving<S: FnOnce(&PersistentMemory) -> Result<(), AgentMemoryError>>(
    save: S,
    state: MemoryState,
    outcome: Result<(), AgentMemoryError>,
) -> bool {
    exists|memory: &PersistentMemory| memory@ == state && #[trigger] save.ensures((memory,), outcome)
}

/// Ingesting a text takes a memory from `before` to `after` and gives `r`. The identifier is
/// used up in any case; where the index fails, nothing else changes.
pub open spec fn ingesting<
    I: FnOnce(u64, &str) -> Result<(), TurboError>,
    S: FnOnce(&PersistentMemory) -> Result<(), AgentMemoryError>,
>(
    before: MemoryState,
    content: Seq<char>,
    kind: DocumentKind,
    path: Option<Seq<char>>,
    timestamp: u64,
    insert: I,
    save: S,
    after: MemoryState,
    r: Result<u64, AgentMemoryError>,
) -> bool {
    match r {
        Ok(id) => {
            &&& id == before.next_id
            &&& inserting(insert, before.next_id, content, Ok(()))
            &&& after == after_ingest(before, content, kind, path, timestamp)
            &&& saving(save, after, Ok(()))
        },
        Err(e) => {
            ||| {
                &&& e is Turbo
                &&& inserting(insert, before.next_id, content, Err(e->Turbo_0))
                &&& after == (MemoryState { next_id: (before.next_id + 1) as u64, ..before })
            }
            ||| {
                &&& inserting(insert, before.next_id, content, Ok(()))
                &&& after == after_ingest(before, content, kind, path, timestamp)
                &&& saving(save, after, Err(e))
            }
        },
    }
}

/// A function that is reached through a reference does what the function does.
proof fn lemma_ingested_through<
    I: Fn(u64, &str) -> Result<(), TurboError>,
    S: Fn(&PersistentMemory) -> Result<(), AgentMemoryError>,
>(
    before: MemoryState,
    content: Seq<char>,
    kind: DocumentKind,
    path: Option<Seq<char>>,
    timestamp: u64,
    insert: &I,
    save: &S,
    after: MemoryState,
    r: Result<u64, AgentMemoryError>,
)
    requires
        ingesting(before, content, kind, path, timestamp, insert, save, after, r),
    ensures
        ingesting(before, content, kind, path, timestamp, *insert, *save, after, r),
{
    assert forall|outcome: Result<(), TurboError>| #[trigger]
        inserting(insert, before.next_id, content, outcome) implies inserting(
        *insert,
        before.next_id,
        content,
        outcome,
    ) by {
        let text = choose|text: &str| text@ == content && #[trigger] insert.ensures((before.next_id, text), outcome);
        assert((*insert).ensures((before.next_id, text), outcome));
    }
    assert forall|outcome: Result<(), AgentMemoryError>| #[trigger]
        saving(save, after, outcome) implies saving(*save, after, outcome) by {
        let memory = choose|memory: &PersistentMemory| memory@ == after && #[trigger] save.ensures((memory,), outcome);
        assert((*save).ensures((memory,), outcome));
    }
}

/// The memory `after` is the one `before` with a text ingested, at some time.
pub open spec fn is_ingested(
    before: MemoryState,
    content: Seq<char>,
    kind: DocumentKind,
    path: Option<Seq<char>>,
    after: MemoryState,
) -> bool {
    exists|timestamp: u64| after == #[trigger] after_ingest(before, content, kind, path, timestamp)
}

/// The text of an optional string slice.
pub open spec fn slice_text(s: Option<&str>) -> Option<Seq<char>> {
    match s {
        Some(t) => Some(t@),
        None => None,
    }
}

impl PersistentMemory {
    /// The documents, in the order in which they were ingested.
    pub closed spec fn remembered(&self) -> Seq<Document> {
        self.documents@
    }

    /// The memory of documents that were kept, and of the digests kept with them as a JSON
    /// text, where there is one. The next identifier is one above all of the documents.
    pub fn open(documents: Vec<Document>, hashes: Option<&str>) -> (r: Result<PersistentMemory, AgentMemoryError>)
        requires
            forall|i: int| 0 <= i < documents@.len() ==> (#[trigger] documents@[i]).id < u64::MAX,
        ensures
            match r {
                Ok(memory) => {
                    &&& memory.remembered() == documents@
                    &&& memory@.documents == contents(documents@)
                    &&& is_next_id(documents@, memory@.next_id)
                    &&& match hashes {
                        Some(text) => json_strings(text@) matches Ok(m) && m == memory@.hashes,
                        None => memory@.hashes == Map::<Seq<char>, Seq<char>>::empty(),
                    }
                },
                Err(AgentMemoryError::Serialization(message)) => hashes matches Some(text) && json_strings(
                    text@,
                ) matches Err(m) && m == message@,
                Err(_) => false,
            },
    {
        let file_hashes: StringMap = match hashes {
            Some(text) => match parse_string_map(text) {
                Ok(map) => map,
                Err(e) => {
                    return Err(e);
                },
            },
            None => StringMap::new(),
        };
        let mut highest: u64 = 0;
        let mut i: usize = 0;
        while i < documents.len()
            invariant
                i <= documents@.len(),
                forall|k: int| 0 <= k < documents@.len() ==> (#[trigger] documents@[k]).id < u64::MAX,
                forall|k: int| 0 <= k < i ==> (#[trigger] documents@[k]).id <= highest,
                highest < u64::MAX,
                highest == 0 || exists|k: int| 0 <= k < i && (#[trigger] documents@[k]).id == highest,
            decreases documents@.len() - i,
        {
            if documents[i].id > highest {
                highest = documents[i].id;
                assert(documents@[i as int].id == highest);
            }
            i = i + 1;
        }
        Ok(PersistentMemory { documents, file_hashes, next_id: highest + 1 })
    }

    /// The documents, in the order in which they were ingested.
    pub fn documents(&self) -> (r: &Vec<Document>)
        ensures
            r@ == self.remembered(),
            contents(r@) == self@.documents,
    {
        &self.documents
    }

    /// The identifier that the next document will have.
    pub fn next_id(&self) -> (r: u64)
        ensures
            r == self@.next_id,
    {
        self.next_id
    }

    /// The digests of the files, as a JSON text that they can be read back from.
    pub fn hashes_text(&self) -> (r: Result<String, AgentMemoryError>)
        ensures
            r is Ok,
            (json_strings(r->Ok_0@) matches Ok(m) && m == self@.hashes),
    {
        render_string_map(&self.file_hashes)
    }

    /// Ingests a text and gives the identifier of its document.
    ///
    /// `insert` embeds a text and inserts it in the index under an identifier, and `save`
    /// keeps the documents and the digests.
    pub fn ingest<
        I: FnOnce(u64, &str) -> Result<(), TurboError>,
        S: FnOnce(&PersistentMemory) -> Result<(), AgentMemoryError>,
    >(
        &mut self,
        content: &str,
        doc_type: DocumentType,
        source_path: Option<&str>,
        insert: I,
        save: S,
    ) -> (r: Result<u64, AgentMemoryError>)
        requires
            old(self)@.next_id < u64::MAX,
            forall|text: &str| text@ == content@ ==> #[trigger] insert.requires((old(self)@.next_id, text)),
            forall|memory: &PersistentMemory|
                is_ingested(old(self)@, content@, doc_type@, slice_text(source_path), memory@) ==> #[trigger] save.requires(
                    (memory,),
                ),
        ensures
            exists|timestamp: u64| #[trigger]
                ingesting(
                    old(self)@,
                    content@,
                    doc_type@,
                    slice_text(source_path),
                    timestamp,
                    insert,
                    save,
                    final(self)@,
                    r,
                ),
    {
        let ghost before = self@;
        let ghost kind = doc_type@;
        let id: u64 = self.next_id;
        self.next_id = self.next_id + 1;
        let mut doc = Document::new(id, doc_type, String::from_str(content));
        let ghost timestamp = doc.timestamp;
        doc.token_count = content.len() / BYTES_PER_TOKEN;
        doc.source_path = match source_path {
            Some(path) => Some(String::from_str(path)),
            None => None,
        };
        assert(doc@ == ingested_document(id, content@, kind, slice_text(source_path), timestamp));
        let done: Result<(), TurboError> = insert(id, content);
        assert(inserting(insert, id, content@, done));
        match done {
            Ok(u) => {
                assert(inserting(insert, id, content@, Ok(u)) && u == ());
            },
            Err(e) => {
                let r: Result<u64, AgentMemoryError> = Err(AgentMemoryError::Turbo(e));
                assert(self@ =~= (MemoryState { next_id: (before.next_id + 1) as u64, ..before }));
                assert(ingesting(
                    before,
                    content@,
                    kind,
                    slice_text(source_path),
                    timestamp,
                    insert,
                    save,
                    self@,
                    r,
                ));
                return r;
            },
        }
        if let Some(path) = source_path {
            let hash: String = sha256_file_content(content);
            self.file_hashes.insert(String::from_str(path), hash);
        }
        self.documents.push(doc);
        proof {
            let after = after_ingest(before, content@, kind, slice_text(source_path), timestamp);
            assert(self@.documents =~= after.documents);
            assert(self@ =~= after);
            assert(is_ingested(before, content@, kind, slice_text(source_path), self@));
        }
        let kept: Result<(), AgentMemoryError> = save(&*self);
        assert(saving(save, self@, kept));
        let r: Result<u64, AgentMemoryError> = match kept {
            Ok(u) => {
                assert(saving(save, self@, Ok(u)) && u == ());
                Ok(id)
            },
            Err(e) => Err(e),
        };
        assert(ingesting(before, content@, kind, slice_text(source_path), timestamp, insert, save, self@, r));
        r
    }
}

/// `next` is one above the highest identifier, and one where there is no document.
pub open spec fn is_next_id(documents: Seq<Document>, next: u64) -> bool {
    &&& next > 0
    &&& forall|i: int| 0 <= i < documents.len() ==> (#[trigger] documents[i]).id < next
    &&& next == 1 || exists|i: int| 0 <= i < documents.len() && (#[trigger] documents[i]).id == next - 1
}

/// What reading a file came to.
pub open spec fn reading<R: Fn(&str) -> Result<String, String>>(
    read: R,
    path: Seq<char>,
    outcome: Result<String, String>,
) -> bool {
    exists|p: &str| p@ == path && #[trigger] read.ensures((p,), outcome)
}

/// A file is skipped: its digest is the one that was noted for it.
pub open spec fn skips<R: Fn(&str) -> Result<String, String>>(state: MemoryState, path: Seq<char>, read: R) -> bool {
    &&& state.hashes.dom().contains(path)
    &&& exists|content: String| #[trigger]
        reading(read, path, Ok(content)) && state.hashes[path] == text_digest(content@)
}

/// A file is not skipped: no digest was noted for it, or another one.
pub open spec fn differs<R: Fn(&str) -> Result<String, String>>(state: MemoryState, path: Seq<char>, read: R) -> bool {
    state.hashes.dom().contains(path) ==> exists|content: String| #[trigger]
        reading(read, path, Ok(content)) && state.hashes[path] != text_digest(content@)
}

/// A file takes the memory, and the number of files ingested, from `before` to `after`.
pub open spec fn file_step<
    R: Fn(&str) -> Result<String, String>,
    I: Fn(u64, &str) -> Result<(), TurboError>,
    S: Fn(&PersistentMemory) -> Result<(), AgentMemoryError>,
>(
    before: (MemoryState, int),
    path: Seq<char>,
    kind: DocumentKind,
    read: R,
    insert: I,
    save: S,
    after: (MemoryState, int),
) -> bool {
    ||| skips(before.0, path, read) && after == before
    ||| differs(before.0, path, read) && after.1 == before.1 + 1 && exists|content: String, timestamp: u64, id: u64|
        #![trigger reading(read, path, Ok(content)), ingesting(before.0, content@, kind, Some(path), timestamp, insert, save, after.0, Ok(id))]
        reading(read, path, Ok(content)) && ingesting(
            before.0,
            content@,
            kind,
            Some(path),
            timestamp,
            insert,
            save,
            after.0,
            Ok(id),
        )
}

/// A file fails with `e`, and leaves the memory at `after`.
pub open spec fn file_failure<
    R: Fn(&str) -> Result<String, String>,
    I: Fn(u64, &str) -> Result<(), TurboError>,
    S: Fn(&PersistentMemory) -> Result<(), AgentMemoryError>,
>(
    before: MemoryState,
    path: Seq<char>,
    kind: DocumentKind,
    read: R,
    insert: I,
    save: S,
    after: MemoryState,
    e: AgentMemoryError,
) -> bool {
    ||| e is Io && after == before && reading(read, path, Err(e->Io_0))
    ||| differs(before, path, read) && exists|content: String, timestamp: u64|
        #![trigger reading(read, path, Ok(content)), ingesting(before, content@, kind, Some(path), timestamp, insert, save, after, Err(e))]
        reading(read, path, Ok(content)) && ingesting(
            before,
            content@,
            kind,
            Some(path),
            timestamp,
            insert,
            save,
            after,
            Err(e),
        )
}

/// `trace` starts with the memory as it is and no file ingested, and follows the files.
pub open spec fn file_trace<
    R: Fn(&str) -> Result<String, String>,
    I: Fn(u64, &str) -> Result<(), TurboError>,
    S: Fn(&PersistentMemory) -> Result<(), AgentMemoryError>,
>(
    before: MemoryState,
    paths: Seq<String>,
    kind: DocumentKind,
    read: R,
    insert: I,
    save: S,
    trace: Seq<(MemoryState, int)>,
) -> bool {
    &&& 0 < trace.len() <= paths.len() + 1
    &&& trace[0] == (before, 0int)
    &&& forall|k: int| 0 <= k < trace.len() - 1 ==> #[trigger] file_step_at(trace, k, paths, kind, read, insert, save)
}

/// The file at `k` takes the trace one on.
pub open spec fn file_step_at<
    R: Fn(&str) -> Result<String, String>,
    I: Fn(u64, &str) -> Result<(), TurboError>,
    S: Fn(&PersistentMemory) -> Result<(), AgentMemoryError>,
>(
    trace: Seq<(MemoryState, int)>,
    k: int,
    paths: Seq<String>,
    kind: DocumentKind,
    read: R,
    insert: I,
    save: S,
) -> bool {
    file_step(trace[k], paths[k]@, kind, read, insert, save, trace[k + 1])
}

proof fn lemma_file_trace_grows<
    R: Fn(&str) -> Result<String, String>,
    I: Fn(u64, &str) -> Result<(), TurboError>,
    S: Fn(&PersistentMemory) -> Result<(), AgentMemoryError>,
>(
    before: MemoryState,
    paths: Seq<String>,
    kind: DocumentKind,
    read: R,
    insert: I,
    save: S,
    trace: Seq<(MemoryState, int)>,
    next: (MemoryState, int),
)
    requires
        file_trace(before, paths, kind, read, insert, save, trace),
        trace.len() <= paths.len(),
        file_step(trace.last(), paths[trace.len() - 1]@, kind, read, insert, save, next),
    ensures
        file_trace(before, paths, kind, read, insert, save, trace.push(next)),
{
    let more = trace.push(next);
    assert forall|k: int| 0 <= k < more.len() - 1 implies #[trigger] file_step_at(
        more,
        k,
        paths,
        kind,
        read,
        insert,
        save,
    ) by {
        if k < trace.len() - 1 {
            assert(file_step_at(trace, k, paths, kind, read, insert, save));
        }
    }
}

proof fn lemma_file_ingested<
    R: Fn(&str) -> Result<String, String>,
    I: Fn(u64, &str) -> Result<(), TurboError>,
    S: Fn(&PersistentMemory) -> Result<(), AgentMemoryError>,
>(
    before: (MemoryState, int),
    path: Seq<char>,
    kind: DocumentKind,
    read: R,
    insert: I,
    save: S,
    after: (MemoryState, int),
    content: String,
    timestamp: u64,
    id: u64,
)
    requires
        differs(before.0, path, read),
        reading(read, path, Ok(content)),
        ingesting(before.0, content@, kind, Some(path), timestamp, insert, save, after.0, Ok(id)),
        after.1 == before.1 + 1,
    ensures
        file_step(before, path, kind, read, insert, save, after),
{
}

proof fn lemma_file_not_ingested<
    R: Fn(&str) -> Result<String, String>,
    I: Fn(u64, &str) -> Result<(), TurboError>,
    S: Fn(&PersistentMemory) -> Result<(), AgentMemoryError>,
>(
    before: MemoryState,
    path: Seq<char>,
    kind: DocumentKind,
    read: R,
    insert: I,
    save: S,
    after: MemoryState,
    content: String,
    timestamp: u64,
    e: AgentMemoryError,
)
    requires
        differs(before, path, read),
        reading(read, path, Ok(content)),
        ingesting(before, content@, kind, Some(path), timestamp, insert, save, after, Err(e)),
    ensures
        file_failure(before, path, kind, read, insert, save, after, e),
{
}

/// One of the paths.
pub open spec fn is_among(paths: Seq<String>, path: Seq<char>) -> bool {
    exists|k: int| 0 <= k < paths.len() && (#[trigger] paths[k])@ == path
}

/// The file at `path`, with this content, is ingested next, into the memory `state`: the files
/// before it were dealt with, it was read, and it is not skipped.
pub open spec fn is_due<
    R: Fn(&str) -> Result<String, String>,
    I: Fn(u64, &str) -> Result<(), TurboError>,
    S: Fn(&PersistentMemory) -> Result<(), AgentMemoryError>,
>(
    before: MemoryState,
    paths: Seq<String>,
    kind: DocumentKind,
    read: R,
    insert: I,
    save: S,
    state: MemoryState,
    path: Seq<char>,
    content: Seq<char>,
) -> bool {
    exists|trace: Seq<(MemoryState, int)>, text: String|
        #![trigger file_trace(before, paths, kind, read, insert, save, trace), reading(read, path, Ok(text))]
        {
            &&& file_trace(before, paths, kind, read, insert, save, trace)
            &&& trace.len() <= paths.len()
            &&& trace.last().0 == state
            &&& paths[trace.len() - 1]@ == path
            &&& differs(state, path, read)
            &&& reading(read, path, Ok(text))
            &&& text@ == content
        }
}

impl PersistentMemory {
    /// Ingests the files at the given paths, and gives how many were ingested. A file whose
    /// digest is the one that was noted for it is skipped.
    ///
    /// `read` reads a file; the other functions are those of `ingest`.
    pub fn ingest_glob<
        R: Fn(&str) -> Result<String, String>,
        I: Fn(u64, &str) -> Result<(), TurboError>,
        S: Fn(&PersistentMemory) -> Result<(), AgentMemoryError>,
    >(&mut self, paths: &Vec<String>, doc_type: DocumentType, read: &R, insert: &I, save: &S) -> (r: Result<
        usize,
        AgentMemoryError,
    >)
        requires
            old(self)@.next_id + paths@.len() <= u64::MAX,
            forall|p: &str| is_among(paths@, p@) ==> #[trigger] read.requires((p,)),
            forall|state: MemoryState, path: Seq<char>, text: &str|
                #![trigger is_due(old(self)@, paths@, doc_type@, *read, *insert, *save, state, path, text@), insert.requires((state.next_id, text))]
                is_due(old(self)@, paths@, doc_type@, *read, *insert, *save, state, path, text@) ==> insert.requires(
                    (state.next_id, text),
                ),
            forall|state: MemoryState, path: Seq<char>, content: Seq<char>, memory: &PersistentMemory|
                #![trigger is_due(old(self)@, paths@, doc_type@, *read, *insert, *save, state, path, content), save.requires((memory,))]
                is_due(old(self)@, paths@, doc_type@, *read, *insert, *save, state, path, content) && is_ingested(
                    state,
                    content,
                    doc_type@,
                    Some(path),
                    memory@,
                ) ==> save.requires((memory,)),
        ensures
            exists|trace: Seq<(MemoryState, int)>| #[trigger]
                file_trace(old(self)@, paths@, doc_type@, *read, *insert, *save, trace) && match r {
                    Ok(count) => trace.len() == paths@.len() + 1 && trace.last() == (final(self)@, count as int),
                    Err(e) => trace.len() <= paths@.len() && file_failure(
                        trace.last().0,
                        paths@[trace.len() - 1]@,
                        doc_type@,
                        *read,
                        *insert,
                        *save,
                        final(self)@,
                        e,
                    ),
                },
    {
        let ghost start = self@;
        let ghost kind = doc_type@;
        let mut count: usize = 0;
        let ghost mut trace: Seq<(MemoryState, int)> = seq![(start, 0int)];
        let mut i: usize = 0;
        while i < paths.len()
            invariant
                i <= paths@.len(),
                count <= i,
                start == old(self)@,
                doc_type@ == kind,
                forall|p: &str| is_among(paths@, p@) ==> #[trigger] read.requires((p,)),
                forall|state: MemoryState, path: Seq<char>, text: &str|
                    #![trigger is_due(start, paths@, kind, *read, *insert, *save, state, path, text@), insert.requires((state.next_id, text))]
                    is_due(start, paths@, kind, *read, *insert, *save, state, path, text@) ==> insert.requires(
                        (state.next_id, text),
                    ),
                forall|state: MemoryState, path: Seq<char>, content: Seq<char>, memory: &PersistentMemory|
                    #![trigger is_due(start, paths@, kind, *read, *insert, *save, state, path, content), save.requires((memory,))]
                    is_due(start, paths@, kind, *read, *insert, *save, state, path, content) && is_ingested(
                        state,
                        content,
                        kind,
                        Some(path),
                        memory@,
                    ) ==> save.requires((memory,)),
                self@.next_id <= start.next_id + i,
                start.next_id + paths@.len() <= u64::MAX,
                file_trace(start, paths@, kind, *read, *insert, *save, trace),
                trace.len() == i + 1,
                trace.last() == (self@, count as int),
            decreases paths@.len() - i,
        {
            let path: &str = paths[i].as_str();
            let ghost before = self@;
            assert(is_among(paths@, path@));
            let mut same: bool = false;
            if let Some(known) = self.file_hashes.get(path) {
                let first: Result<String, String> = read(path);
                assert(reading(*read, path@, first));
                match first {
                    Ok(content) => {
                        let hash: String = sha256_file_content(content.as_str());
                        same = same_text(hash.as_str(), known.as_str());
                        assert(reading(*read, path@, Ok(content)));
                        assert(same ==> skips(before, path@, *read));
                        assert(!same ==> differs(before, path@, *read));
                    },
                    Err(m) => {
                        let e = AgentMemoryError::Io(m);
                        assert(file_failure(
                            trace.last().0,
                            paths@[trace.len() - 1]@,
                            kind,
                            *read,
                            *insert,
                            *save,
                            self@,
                            e,
                        ));
                        return Err(e);
                    },
                }
            }
            if !same {
                assert(differs(before, path@, *read));
                let second: Result<String, String> = read(path);
                assert(reading(*read, path@, second));
                match second {
                    Ok(content) => {
                        assert(reading(*read, path@, Ok(content)));
                        assert(is_due(start, paths@, kind, *read, *insert, *save, before, path@, content@));
                        let r = self.ingest(content.as_str(), doc_type.clone(), Some(path), insert, save);
                        let ghost timestamp = choose|timestamp: u64| #[trigger]
                            ingesting(before, content@, kind, Some(path@), timestamp, insert, save, self@, r);
                        proof {
                            lemma_ingested_through(
                                before,
                                content@,
                                kind,
                                Some(path@),
                                timestamp,
                                insert,
                                save,
                                self@,
                                r,
                            );
                        }
                        assert(reading(*read, path@, Ok(content)));
                        match r {
                            Ok(id) => {
                                proof {
                                    lemma_file_ingested(
                                        (before, count as int),
                                        path@,
                                        kind,
                                        *read,
                                        *insert,
                                        *save,
                                        (self@, count + 1),
                                        content,
                                        timestamp,
                                        id,
                                    );
                                }
                            },
                            Err(e) => {
                                proof {
                                    lemma_file_not_ingested(
                                        before,
                                        path@,
                                        kind,
                                        *read,
                                        *insert,
                                        *save,
                                        self@,
                                        content,
                                        timestamp,
                                        e,
                                    );
                                }
                                return Err(e);
                            },
                        }
                    },
                    Err(m) => {
                        let e = AgentMemoryError::Io(m);
                        assert(file_failure(
                            trace.last().0,
                            paths@[trace.len() - 1]@,
                            kind,
                            *read,
                            *insert,
                            *save,
                            self@,
                            e,
                        ));
                        return Err(e);
                    },
                }
                count = count + 1;
            } else {
                assert(file_step(
                    (before, count as int),
                    paths@[i as int]@,
                    kind,
                    *read,
                    *insert,
                    *save,
                    (self@, count as int),
                ));
            }
            proof {
                let next = (self@, count as int);
                lemma_file_trace_grows(start, paths@, kind, *read, *insert, *save, trace, next);
                trace = trace.push(next);
            }
            i = i + 1;
        }
        Ok(count)
    }
}

/// What a look at a file showed.
pub enum FileProbe {
    /// There is no such file.
    Missing,
    /// The file's content.
    Content(String),
    /// There is a file, and reading it failed.
    Unreadable(String),
}

/// A file whose content is not the one that was ingested.
pub struct ChangedFile {
    pub id: u64,
    pub path: String,
    pub content: String,
}

/// What a synchronization has to do.
pub struct SyncPlan {
    /// The documents whose files are gone.
    pub missing: Vec<u64>,
    /// The documents whose files changed.
    pub changed: Vec<ChangedFile>,
    /// How many files are as they were.
    pub unchanged: usize,
}

/// The documents that came from files, with the paths of these.
pub open spec fn sources(documents: Seq<DocumentFields>) -> Seq<(u64, Seq<char>)>
    decreases documents.len(),
{
    if documents.len() == 0 {
        Seq::empty()
    } else {
        let before = sources(documents.drop_last());
        match documents.last().source_path {
            Some(path) => before.push((documents.last().id, path)),
            None => before,
        }
    }
}

/// The identifiers and the texts of the paths.
pub open spec fn source_texts(list: Seq<(u64, String)>) -> Seq<(u64, Seq<char>)> {
    list.map_values(|p: (u64, String)| (p.0, p.1@))
}

/// The path of one of the sources.
pub open spec fn is_source(list: Seq<(u64, Seq<char>)>, path: Seq<char>) -> bool {
    exists|k: int| 0 <= k < list.len() && (#[trigger] list[k]).1 == path
}

/// What looking at a file came to.
pub open spec fn probing<P: Fn(&str) -> FileProbe>(probe: P, path: Seq<char>, shown: FileProbe) -> bool {
    exists|p: &str| p@ == path && #[trigger] probe.ensures((p,), shown)
}

/// `probes` is what looking at the files came to, one after the other, up to and including
/// the first that could not be read.
pub open spec fn probed<P: Fn(&str) -> FileProbe>(
    list: Seq<(u64, Seq<char>)>,
    probe: P,
    probes: Seq<FileProbe>,
) -> bool {
    &&& probes.len() <= list.len()
    &&& forall|k: int| 0 <= k < probes.len() ==> probing(probe, list[k].1, #[trigger] probes[k])
    &&& forall|k: int| 0 <= k < probes.len() - 1 ==> !(#[trigger] probes[k] is Unreadable)
}

/// A file's content is not the one whose digest was noted, or none was.
pub open spec fn is_changed(hashes: Map<Seq<char>, Seq<char>>, path: Seq<char>, content: Seq<char>) -> bool {
    !(hashes.dom().contains(path) && hashes[path] == text_digest(content))
}

/// The documents whose files are gone.
pub open spec fn missing_ids(list: Seq<(u64, Seq<char>)>, probes: Seq<FileProbe>) -> Seq<u64>
    decreases list.len(),
{
    if list.len() == 0 {
        Seq::empty()
    } else {
        let before = missing_ids(list.drop_last(), probes);
        if probes[list.len() - 1] is Missing {
            before.push(list.last().0)
        } else {
            before
        }
    }
}

/// The identifier, the path and the content of a changed file.
#[verifier::ext_equal]
pub struct Change {
    pub id: u64,
    pub path: Seq<char>,
    pub content: Seq<char>,
}

/// The documents whose files changed.
pub open spec fn changes(
    list: Seq<(u64, Seq<char>)>,
    probes: Seq<FileProbe>,
    hashes: Map<Seq<char>, Seq<char>>,
) -> Seq<Change>
    decreases list.len(),
{
    if list.len() == 0 {
        Seq::empty()
    } else {
        let before = changes(list.drop_last(), probes, hashes);
        let source = list.last();
        match probes[list.len() - 1] {
            FileProbe::Content(content) => if is_changed(hashes, source.1, content@) {
                before.push(Change { id: source.0, path: source.1, content: content@ })
            } else {
                before
            },
            _ => before,
        }
    }
}

/// What the changed files are.
pub open spec fn change_texts(list: Seq<ChangedFile>) -> Seq<Change> {
    list.map_values(|c: ChangedFile| Change { id: c.id, path: c.path@, content: c.content@ })
}

impl PersistentMemory {
    fn file_sources(&self) -> (r: Vec<(u64, String)>)
        ensures
            source_texts(r@) == sources(self@.documents),
    {
        let mut list: Vec<(u64, String)> = Vec::new();
        let mut i: usize = 0;
        while i < self.documents.len()
            invariant
                i <= self.documents@.len(),
                source_texts(list@) =~= sources(contents(self.documents@).take(i as int)),
            decreases self.documents@.len() - i,
        {
            let ghost all = contents(self.documents@);
            assert(all.take(i + 1).drop_last() =~= all.take(i as int));
            assert(all.take(i + 1).last() == self.documents@[i as int]@);
            if let Some(path) = &self.documents[i].source_path {
                list.push((self.documents[i].id, path.clone()));
            }
            i = i + 1;
        }
        assert(contents(self.documents@).take(i as int) =~= contents(self.documents@));
        list
    }

    /// What a synchronization has to do, by a look at every file that a document came from.
    /// `probe` looks at a file. The first file that cannot be read ends it.
    pub fn plan_sync<P: Fn(&str) -> FileProbe>(&self, probe: &P) -> (r: Result<SyncPlan, AgentMemoryError>)
        requires
            forall|p: &str| is_source(sources(self@.documents), p@) ==> #[trigger] probe.requires((p,)),
        ensures
            exists|probes: Seq<FileProbe>| #[trigger]
                probed(sources(self@.documents), *probe, probes) && self@.planned(probes, r),
    {
        let list: Vec<(u64, String)> = self.file_sources();
        let ghost all = source_texts(list@);
        let ghost hashes = self@.hashes;
        let mut missing: Vec<u64> = Vec::new();
        let mut changed: Vec<ChangedFile> = Vec::new();
        let mut unchanged: usize = 0;
        let ghost mut probes: Seq<FileProbe> = Seq::empty();
        let mut i: usize = 0;
        while i < list.len()
            invariant
                i <= list@.len(),
                all == source_texts(list@),
                all == sources(self@.documents),
                hashes == self@.hashes,
                forall|p: &str| is_source(all, p@) ==> #[trigger] probe.requires((p,)),
                probes.len() == i,
                probed(all, *probe, probes),
                forall|k: int| 0 <= k < i ==> !(#[trigger] probes[k] is Unreadable),
                missing@ =~= missing_ids(all.take(i as int), probes),
                change_texts(changed@) =~= changes(all.take(i as int), probes, hashes),
                unchanged == i - missing@.len() - changed@.len(),
                missing@.len() + changed@.len() <= i,
            decreases list@.len() - i,
        {
            let path: &str = list[i].1.as_str();
            assert(all[i as int].1 == path@);
            assert(is_source(all, path@));
            let shown: FileProbe = probe(path);
            assert(probing(*probe, all[i as int].1, shown));
            let ghost before = probes;
            proof {
                probes = probes.push(shown);
                assert(all.take(i + 1).drop_last() =~= all.take(i as int));
                lemma_same_prefix(all.take(i as int), before, probes, hashes);
                assert forall|k: int| 0 <= k < probes.len() implies probing(*probe, all[k].1, #[trigger] probes[k]) by {
                    if k < i {
                        assert(probes[k] == before[k]);
                    }
                }
                assert forall|k: int| 0 <= k < probes.len() - 1 implies !(#[trigger] probes[k] is Unreadable) by {
                    assert(probes[k] == before[k]);
                }
                assert(probed(all, *probe, probes));
            }
            match shown {
                FileProbe::Missing => {
                    missing.push(list[i].0);
                },
                FileProbe::Content(content) => {
                    let new_hash: String = sha256_file_content(content.as_str());
                    let same: bool = match self.file_hashes.get(path) {
                        Some(old_hash) => same_text(old_hash.as_str(), new_hash.as_str()),
                        None => false,
                    };
                    if !same {
                        changed.push(ChangedFile { id: list[i].0, path: String::from_str(path), content });
                    } else {
                        unchanged = unchanged + 1;
                    }
                },
                FileProbe::Unreadable(m) => {
                    let r: Result<SyncPlan, AgentMemoryError> = Err(AgentMemoryError::Io(m));
                    assert(self@.planned(probes, r));
                    return r;
                },
            }
            proof {
                assert forall|k: int| 0 <= k < i + 1 implies !(#[trigger] probes[k] is Unreadable) by {
                    if k < i {
                        assert(probes[k] == before[k]);
                    }
                }
            }
            i = i + 1;
        }
        assert(all.take(i as int) =~= all);
        let r: Result<SyncPlan, AgentMemoryError> = Ok(SyncPlan { missing, changed, unchanged });
        assert(self@.planned(probes, r));
        r
    }
}

proof fn lemma_same_prefix(
    list: Seq<(u64, Seq<char>)>,
    a: Seq<FileProbe>,
    b: Seq<FileProbe>,
    hashes: Map<Seq<char>, Seq<char>>,
)
    requires
        list.len() <= a.len(),
        list.len() <= b.len(),
        forall|k: int| 0 <= k < list.len() ==> a[k] == b[k],
    ensures
        missing_ids(list, a) == missing_ids(list, b),
        changes(list, a, hashes) == changes(list, b, hashes),
    decreases list.len(),
{
    if list.len() > 0 {
        lemma_same_prefix(list.drop_last(), a, b, hashes);
    }
}

impl MemoryState {
    /// `r` is the plan that follows from what the files showed, or the error of a file that
    /// could not be read.
    pub open spec fn planned(self, probes: Seq<FileProbe>, r: Result<SyncPlan, AgentMemoryError>) -> bool {
        let list = sources(self.documents);
        match r {
            Ok(plan) => {
                &&& probes.len() == list.len()
                &&& forall|k: int| 0 <= k < probes.len() ==> !(#[trigger] probes[k] is Unreadable)
                &&& plan.missing@ == missing_ids(list, probes)
                &&& change_texts(plan.changed@) == changes(list, probes, self.hashes)
                &&& plan.unchanged == list.len() - plan.missing@.len() - plan.changed@.len()
            },
            Err(e) => {
                &&& e is Io
                &&& probes.len() > 0
                &&& probes.last() is Unreadable
                &&& probes.last()->Unreadable_0 == e->Io_0
            },
        }
    }
}

/// The documents whose identifier is another than the given one.
pub open spec fn without(documents: Seq<DocumentFields>, id: u64) -> Seq<DocumentFields>
    decreases documents.len(),
{
    if documents.len() == 0 {
        Seq::empty()
    } else {
        let before = without(documents.drop_last(), id);
        if documents.last().id == id {
            before
        } else {
            before.push(documents.last())
        }
    }
}

fn discard(documents: Vec<Document>, id: u64) -> (r: Vec<Document>)
    ensures
        contents(r@) == without(contents(documents@), id),
{
    let mut kept: Vec<Document> = Vec::new();
    let ghost all = contents(documents@);
    for d in it: documents
        invariant
            it.seq() == documents@,
            all == contents(documents@),
            contents(kept@) =~= without(all.take(it.index()), id),
    {
        assert(all.take(it.index() + 1).drop_last() =~= all.take(it.index()));
        assert(all.take(it.index() + 1).last() == d@);
        if d.id != id {
            kept.push(d);
        }
    }
    assert(all.take(all.len() as int) =~= all);
    kept
}

/// The path of the first source with an identifier.
pub open spec fn path_of(list: Seq<(u64, Seq<char>)>, id: u64) -> Option<Seq<char>>
    decreases list.len(),
{
    if list.len() == 0 {
        None
    } else if list[0].0 == id {
        Some(list[0].1)
    } else {
        path_of(list.drop_first(), id)
    }
}

/// The memory after a document whose file is gone was removed: the document, and the digest
/// of the file, are forgotten.
pub open spec fn after_remove(before: MemoryState, list: Seq<(u64, Seq<char>)>, id: u64) -> MemoryState {
    MemoryState {
        documents: without(before.documents, id),
        hashes: match path_of(list, id) {
            Some(path) => before.hashes.remove(path),
            None => before.hashes,
        },
        next_id: before.next_id,
    }
}

/// `trace` starts with the memory as it is, and follows the removals from the index that
/// succeeded.
pub open spec fn removal_trace<D: Fn(u64) -> Result<(), TurboError>>(
    before: MemoryState,
    list: Seq<(u64, Seq<char>)>,
    ids: Seq<u64>,
    delete: D,
    trace: Seq<MemoryState>,
) -> bool {
    &&& 0 < trace.len() <= ids.len() + 1
    &&& trace[0] == before
    &&& forall|k: int| 0 <= k < trace.len() - 1 ==> #[trigger] removal_at(trace, k, list, ids, delete)
}

/// The removal at `k` takes the trace one on.
pub open spec fn removal_at<D: Fn(u64) -> Result<(), TurboError>>(
    trace: Seq<MemoryState>,
    k: int,
    list: Seq<(u64, Seq<char>)>,
    ids: Seq<u64>,
    delete: D,
) -> bool {
    delete.ensures((ids[k],), Ok(())) && trace[k + 1] == after_remove(trace[k], list, ids[k])
}

proof fn lemma_removal_trace_grows<D: Fn(u64) -> Result<(), TurboError>>(
    before: MemoryState,
    list: Seq<(u64, Seq<char>)>,
    ids: Seq<u64>,
    delete: D,
    trace: Seq<MemoryState>,
    next: MemoryState,
)
    requires
        removal_trace(before, list, ids, delete, trace),
        trace.len() <= ids.len(),
        delete.ensures((ids[trace.len() - 1],), Ok(())),
        next == after_remove(trace.last(), list, ids[trace.len() - 1]),
    ensures
        removal_trace(before, list, ids, delete, trace.push(next)),
{
    let more = trace.push(next);
    assert forall|k: int| 0 <= k < more.len() - 1 implies #[trigger] removal_at(more, k, list, ids, delete) by {
        if k < trace.len() - 1 {
            assert(removal_at(trace, k, list, ids, delete));
        }
    }
}

/// Removing documents ends with `after` and `r`: all are removed, or the first that the
/// index does not delete ends it.
pub open spec fn removing<D: Fn(u64) -> Result<(), TurboError>>(
    before: MemoryState,
    list: Seq<(u64, Seq<char>)>,
    ids: Seq<u64>,
    delete: D,
    after: MemoryState,
    r: Result<(), TurboError>,
) -> bool {
    exists|trace: Seq<MemoryState>| #[trigger]
        removal_trace(before, list, ids, delete, trace) && trace.last() == after && match r {
            Ok(_) => trace.len() == ids.len() + 1,
            Err(e) => trace.len() <= ids.len() && delete.ensures((ids[trace.len() - 1],), Err(e)),
        }
}

/// The index may be asked to delete each of the documents, once those before it are removed.
pub open spec fn removals_allowed<D: Fn(u64) -> Result<(), TurboError>>(
    before: MemoryState,
    list: Seq<(u64, Seq<char>)>,
    ids: Seq<u64>,
    delete: D,
) -> bool {
    forall|trace: Seq<MemoryState>| #[trigger]
        removal_trace(before, list, ids, delete, trace) && trace.len() <= ids.len() ==> delete.requires(
            (ids[trace.len() - 1],),
        )
}

/// A changed file takes the memory from `before` to `after`: the old document is forgotten,
/// and the new content is ingested under a new identifier.
pub open spec fn update_step<
    D: Fn(u64) -> Result<(), TurboError>,
    I: Fn(u64, &str) -> Result<(), TurboError>,
    S: Fn(&PersistentMemory) -> Result<(), AgentMemoryError>,
>(before: MemoryState, c: Change, delete: D, insert: I, save: S, after: MemoryState) -> bool {
    &&& delete.ensures((c.id,), Ok(()))
    &&& exists|timestamp: u64, id: u64| #[trigger]
        ingesting(
            (MemoryState { documents: without(before.documents, c.id), ..before }),
            c.content,
            DocumentKind::Memory,
            Some(c.path),
            timestamp,
            insert,
            save,
            after,
            Ok(id),
        )
}

/// A changed file fails with `e`, and leaves the memory at `after`.
pub open spec fn update_failure<
    D: Fn(u64) -> Result<(), TurboError>,
    I: Fn(u64, &str) -> Result<(), TurboError>,
    S: Fn(&PersistentMemory) -> Result<(), AgentMemoryError>,
>(before: MemoryState, c: Change, delete: D, insert: I, save: S, after: MemoryState, e: AgentMemoryError) -> bool {
    ||| e is Turbo && delete.ensures((c.id,), Err(e->Turbo_0)) && after == before
    ||| delete.ensures((c.id,), Ok(())) && exists|timestamp: u64| #[trigger]
        ingesting(
            (MemoryState { documents: without(before.documents, c.id), ..before }),
            c.content,
            DocumentKind::Memory,
            Some(c.path),
            timestamp,
            insert,
            save,
            after,
            Err(e),
        )
}

/// `trace` starts with the memory as it is, and follows the changed files.
pub open spec fn update_trace<
    D: Fn(u64) -> Result<(), TurboError>,
    I: Fn(u64, &str) -> Result<(), TurboError>,
    S: Fn(&PersistentMemory) -> Result<(), AgentMemoryError>,
>(before: MemoryState, list: Seq<Change>, delete: D, insert: I, save: S, trace: Seq<MemoryState>) -> bool {
    &&& 0 < trace.len() <= list.len() + 1
    &&& trace[0] == before
    &&& forall|k: int| 0 <= k < trace.len() - 1 ==> #[trigger] update_at(trace, k, list, delete, insert, save)
}

/// The changed file at `k` takes the trace one on.
pub open spec fn update_at<
    D: Fn(u64) -> Result<(), TurboError>,
    I: Fn(u64, &str) -> Result<(), TurboError>,
    S: Fn(&PersistentMemory) -> Result<(), AgentMemoryError>,
>(trace: Seq<MemoryState>, k: int, list: Seq<Change>, delete: D, insert: I, save: S) -> bool {
    update_step(trace[k], list[k], delete, insert, save, trace[k + 1])
}

proof fn lemma_update_trace_grows<
    D: Fn(u64) -> Result<(), TurboError>,
    I: Fn(u64, &str) -> Result<(), TurboError>,
    S: Fn(&PersistentMemory) -> Result<(), AgentMemoryError>,
>(
    before: MemoryState,
    list: Seq<Change>,
    delete: D,
    insert: I,
    save: S,
    trace: Seq<MemoryState>,
    next: MemoryState,
)
    requires
        update_trace(before, list, delete, insert, save, trace),
        trace.len() <= list.len(),
        update_step(trace.last(), list[trace.len() - 1], delete, insert, save, next),
    ensures
        update_trace(before, list, delete, insert, save, trace.push(next)),
{
    let more = trace.push(next);
    assert forall|k: int| 0 <= k < more.len() - 1 implies #[trigger] update_at(more, k, list, delete, insert, save) by {
        if k < trace.len() - 1 {
            assert(update_at(trace, k, list, delete, insert, save));
        }
    }
}

/// Updating changed files ends with `after` and `r`: all are updated, or the first that
/// fails ends it.
pub open spec fn updating<
    D: Fn(u64) -> Result<(), TurboError>,
    I: Fn(u64, &str) -> Result<(), TurboError>,
    S: Fn(&PersistentMemory) -> Result<(), AgentMemoryError>,
>(
    before: MemoryState,
    list: Seq<Change>,
    delete: D,
    insert: I,
    save: S,
    after: MemoryState,
    r: Result<(), AgentMemoryError>,
) -> bool {
    exists|trace: Seq<MemoryState>| #[trigger]
        update_trace(before, list, delete, insert, save, trace) && match r {
            Ok(_) => trace.len() == list.len() + 1 && trace.last() == after,
            Err(e) => trace.len() <= list.len() && update_failure(
                trace.last(),
                list[trace.len() - 1],
                delete,
                insert,
                save,
                after,
                e,
            ),
        }
}

/// A changed file may be dealt with in the memory `before`: the old document may be deleted
/// from the index, and after that the new content inserted, under the next identifier, and the
/// memory with it saved.
pub open spec fn update_allowed<
    D: Fn(u64) -> Result<(), TurboError>,
    I: Fn(u64, &str) -> Result<(), TurboError>,
    S: Fn(&PersistentMemory) -> Result<(), AgentMemoryError>,
>(before: MemoryState, c: Change, delete: D, insert: I, save: S) -> bool {
    let emptied = MemoryState { documents: without(before.documents, c.id), ..before };
    &&& delete.requires((c.id,))
    &&& delete.ensures((c.id,), Ok(())) ==> {
        &&& forall|text: &str| text@ == c.content ==> #[trigger] insert.requires((before.next_id, text))
        &&& forall|memory: &PersistentMemory|
            is_ingested(emptied, c.content, DocumentKind::Memory, Some(c.path), memory@) ==> #[trigger] save.requires(
                (memory,),
            )
    }
}

/// Each changed file may be dealt with, once those before it are.
pub open spec fn updates_allowed<
    D: Fn(u64) -> Result<(), TurboError>,
    I: Fn(u64, &str) -> Result<(), TurboError>,
    S: Fn(&PersistentMemory) -> Result<(), AgentMemoryError>,
>(before: MemoryState, list: Seq<Change>, delete: D, insert: I, save: S) -> bool {
    forall|trace: Seq<MemoryState>| #[trigger]
        update_trace(before, list, delete, insert, save, trace) && trace.len() <= list.len() ==> update_allowed(
            trace.last(),
            list[trace.len() - 1],
            delete,
            insert,
            save,
        )
}

impl PersistentMemory {
    fn forget_hash(&mut self, list: &Vec<(u64, String)>, id: u64)
        ensures
            final(self)@ == (MemoryState {
                hashes: match path_of(source_texts(list@), id) {
                    Some(path) => old(self)@.hashes.remove(path),
                    None => old(self)@.hashes,
                },
                ..old(self)@
            }),
    {
        let ghost all = source_texts(list@);
        let ghost before = self@;
        assert(all.skip(0) =~= all);
        let mut i: usize = 0;
        while i < list.len()
            invariant
                i <= list@.len(),
                all == source_texts(list@),
                self@ == before,
                before == old(self)@,
                path_of(all.skip(i as int), id) == path_of(all, id),
            decreases list@.len() - i,
        {
            let ghost rest = all.skip(i as int);
            assert(rest[0] == all[i as int]);
            assert(rest.drop_first() =~= all.skip(i + 1));
            if list[i].0 == id {
                self.file_hashes.remove(list[i].1.as_str());
                assert(path_of(all, id) == Some(list@[i as int].1@));
                assert(self@ =~= (MemoryState { hashes: before.hashes.remove(list@[i as int].1@), ..before }));
                return;
            }
            i = i + 1;
        }
    }

    fn remove_missing<D: Fn(u64) -> Result<(), TurboError>>(
        &mut self,
        ids: &Vec<u64>,
        list: &Vec<(u64, String)>,
        delete: &D,
    ) -> (r: Result<(), TurboError>)
        requires
            removals_allowed(old(self)@, source_texts(list@), ids@, *delete),
        ensures
            removing(old(self)@, source_texts(list@), ids@, *delete, final(self)@, r),
            final(self)@.next_id == old(self)@.next_id,
    {
        let ghost all = source_texts(list@);
        let ghost start = self@;
        let ghost mut trace: Seq<MemoryState> = seq![start];
        let mut i: usize = 0;
        while i < ids.len()
            invariant
                i <= ids@.len(),
                all == source_texts(list@),
                start == old(self)@,
                removals_allowed(start, all, ids@, *delete),
                removal_trace(start, all, ids@, *delete, trace),
                trace.len() == i + 1,
                trace.last() == self@,
                self@.next_id == start.next_id,
            decreases ids@.len() - i,
        {
            let id: u64 = ids[i];
            let done: Result<(), TurboError> = delete(id);
            assert(delete.ensures((ids@[i as int],), done));
            match done {
                Ok(u) => {
                    assert(delete.ensures((ids@[i as int],), Ok(u)) && u == ());
                },
                Err(e) => {
                    let r: Result<(), TurboError> = Err(e);
                    assert(removing(start, all, ids@, *delete, self@, r));
                    return r;
                },
            }
            let ghost before = self@;
            self.discard_document(id);
            self.forget_hash(list, id);
            proof {
                assert(self@ =~= after_remove(before, all, id));
                lemma_removal_trace_grows(start, all, ids@, *delete, trace, self@);
                trace = trace.push(self@);
            }
            i = i + 1;
        }
        let r: Result<(), TurboError> = Ok(());
        assert(removing(start, all, ids@, *delete, self@, r));
        r
    }

    fn discard_document(&mut self, id: u64)
        ensures
            final(self)@ == (MemoryState { documents: without(old(self)@.documents, id), ..old(self)@ }),
    {
        let mut documents: Vec<Document> = Vec::new();
        std::mem::swap(&mut documents, &mut self.documents);
        self.documents = discard(documents, id);
    }

    fn update_changed<
        D: Fn(u64) -> Result<(), TurboError>,
        I: Fn(u64, &str) -> Result<(), TurboError>,
        S: Fn(&PersistentMemory) -> Result<(), AgentMemoryError>,
    >(&mut self, list: &Vec<ChangedFile>, delete: &D, insert: &I, save: &S) -> (r: Result<(), AgentMemoryError>)
        requires
            old(self)@.next_id + list@.len() <= u64::MAX,
            updates_allowed(old(self)@, change_texts(list@), *delete, *insert, *save),
        ensures
            updating(old(self)@, change_texts(list@), *delete, *insert, *save, final(self)@, r),
    {
        let ghost all = change_texts(list@);
        let ghost start = self@;
        let ghost mut trace: Seq<MemoryState> = seq![start];
        let mut i: usize = 0;
        while i < list.len()
            invariant
                i <= list@.len(),
                all == change_texts(list@),
                start == old(self)@,
                start.next_id + list@.len() <= u64::MAX,
                self@.next_id <= start.next_id + i,
                updates_allowed(start, all, *delete, *insert, *save),
                update_trace(start, all, *delete, *insert, *save, trace),
                trace.len() == i + 1,
                trace.last() == self@,
            decreases list@.len() - i,
        {
            let id: u64 = list[i].id;
            let ghost c = all[i as int];
            let ghost before = self@;
            assert(update_allowed(before, c, *delete, *insert, *save));
            let done: Result<(), TurboError> = delete(id);
            assert(delete.ensures((c.id,), done));
            match done {
                Ok(u) => {
                    assert(delete.ensures((c.id,), Ok(u)) && u == ());
                },
                Err(x) => {
                    let e = AgentMemoryError::Turbo(x);
                    let r: Result<(), AgentMemoryError> = Err(e);
                    assert(update_failure(trace.last(), all[trace.len() - 1], *delete, *insert, *save, self@, e));
                    assert(updating(start, all, *delete, *insert, *save, self@, r));
                    return r;
                },
            }
            self.discard_document(id);
            let ghost emptied = self@;
            let ingested = self.ingest(
                list[i].content.as_str(),
                DocumentType::Memory,
                Some(list[i].path.as_str()),
                insert,
                save,
            );
            let ghost timestamp = choose|timestamp: u64| #[trigger]
                ingesting(
                    emptied,
                    c.content,
                    DocumentKind::Memory,
                    Some(c.path),
                    timestamp,
                    insert,
                    save,
                    self@,
                    ingested,
                );
            proof {
                lemma_ingested_through(
                    emptied,
                    c.content,
                    DocumentKind::Memory,
                    Some(c.path),
                    timestamp,
                    insert,
                    save,
                    self@,
                    ingested,
                );
            }
            match ingested {
                Ok(new_id) => {
                    proof {
                        lemma_updated(before, c, *delete, *insert, *save, self@, timestamp, new_id);
                    }
                },
                Err(e) => {
                    proof {
                        lemma_not_updated(before, c, *delete, *insert, *save, self@, timestamp, e);
                    }
                    let r: Result<(), AgentMemoryError> = Err(e);
                    assert(update_failure(trace.last(), all[trace.len() - 1], *delete, *insert, *save, self@, e));
                    assert(updating(start, all, *delete, *insert, *save, self@, r));
                    return r;
                },
            }
            proof {
                lemma_update_trace_grows(start, all, *delete, *insert, *save, trace, self@);
                trace = trace.push(self@);
            }
            i = i + 1;
        }
        let r: Result<(), AgentMemoryError> = Ok(());
        assert(updating(start, all, *delete, *insert, *save, self@, r));
        r
    }
}

proof fn lemma_updated<
    D: Fn(u64) -> Result<(), TurboError>,
    I: Fn(u64, &str) -> Result<(), TurboError>,
    S: Fn(&PersistentMemory) -> Result<(), AgentMemoryError>,
>(
    before: MemoryState,
    c: Change,
    delete: D,
    insert: I,
    save: S,
    after: MemoryState,
    timestamp: u64,
    id: u64,
)
    requires
        delete.ensures((c.id,), Ok(())),
        ingesting(
            (MemoryState { documents: without(before.documents, c.id), ..before }),
            c.content,
            DocumentKind::Memory,
            Some(c.path),
            timestamp,
            insert,
            save,
            after,
            Ok(id),
        ),
    ensures
        update_step(before, c, delete, insert, save, after),
{
}

proof fn lemma_not_updated<
    D: Fn(u64) -> Result<(), TurboError>,
    I: Fn(u64, &str) -> Result<(), TurboError>,
    S: Fn(&PersistentMemory) -> Result<(), AgentMemoryError>,
>(
    before: MemoryState,
    c: Change,
    delete: D,
    insert: I,
    save: S,
    after: MemoryState,
    timestamp: u64,
    e: AgentMemoryError,
)
    requires
        delete.ensures((c.id,), Ok(())),
        ingesting(
            (MemoryState { documents: without(before.documents, c.id), ..before }),
            c.content,
            DocumentKind::Memory,
            Some(c.path),
            timestamp,
            insert,
            save,
            after,
            Err(e),
        ),
    ensures
        update_failure(before, c, delete, insert, save, after, e),
{
}

/// A synchronization takes a memory from `before` to `after` and gives `r`, where `probes` is
/// what the files showed.
///
/// A file that cannot be read ends it before anything changes. Else the documents whose
/// files are gone are removed, then the changed files are ingested anew, then the memory is
/// saved; the first failure ends it.
pub open spec fn syncing<
    D: Fn(u64) -> Result<(), TurboError>,
    I: Fn(u64, &str) -> Result<(), TurboError>,
    S: Fn(&PersistentMemory) -> Result<(), AgentMemoryError>,
>(
    before: MemoryState,
    probes: Seq<FileProbe>,
    delete: D,
    insert: I,
    save: S,
    after: MemoryState,
    r: Result<SyncStats, AgentMemoryError>,
) -> bool {
    let list = sources(before.documents);
    let missing = missing_ids(list, probes);
    let changed = changes(list, probes, before.hashes);
    if probes.len() > 0 && probes.last() is Unreadable {
        &&& after == before
        &&& r == Err::<SyncStats, AgentMemoryError>(AgentMemoryError::Io(probes.last()->Unreadable_0))
    } else {
        &&& probes.len() == list.len()
        &&& match r {
            Ok(stats) => {
                &&& exists|middle: MemoryState| #[trigger]
                    removing(before, list, missing, delete, middle, Ok(())) && updating(
                        middle,
                        changed,
                        delete,
                        insert,
                        save,
                        after,
                        Ok(()),
                    )
                &&& saving(save, after, Ok(()))
                &&& stats.added == 0
                &&& stats.updated == changed.len()
                &&& stats.removed == missing.len()
                &&& stats.unchanged == list.len() - missing.len() - changed.len()
            },
            Err(e) => {
                ||| e is Turbo && removing(before, list, missing, delete, after, Err(e->Turbo_0))
                ||| exists|middle: MemoryState| #[trigger]
                    removing(before, list, missing, delete, middle, Ok(())) && updating(
                        middle,
                        changed,
                        delete,
                        insert,
                        save,
                        after,
                        Err(e),
                    )
                ||| saving(save, after, Err(e)) && exists|middle: MemoryState| #[trigger]
                    removing(before, list, missing, delete, middle, Ok(())) && updating(
                        middle,
                        changed,
                        delete,
                        insert,
                        save,
                        after,
                        Ok(()),
                    )
            },
        }
    }
}

/// `probes` is what looking at all the files came to, and each could be read or is gone.
pub open spec fn surveyed<P: Fn(&str) -> FileProbe>(
    list: Seq<(u64, Seq<char>)>,
    probe: P,
    probes: Seq<FileProbe>,
) -> bool {
    &&& probed(list, probe, probes)
    &&& probes.len() == list.len()
    &&& forall|k: int| 0 <= k < probes.len() ==> !(#[trigger] probes[k] is Unreadable)
}

/// What a synchronization may do to the index and to what is kept. Only once all files were
/// looked at and none was unreadable, the documents whose files are gone may be deleted from
/// the index, then the changed files dealt with, one after the other, and then the memory that
/// this comes to be saved.
pub open spec fn sync_allowed<
    P: Fn(&str) -> FileProbe,
    D: Fn(u64) -> Result<(), TurboError>,
    I: Fn(u64, &str) -> Result<(), TurboError>,
    S: Fn(&PersistentMemory) -> Result<(), AgentMemoryError>,
>(before: MemoryState, probe: P, delete: D, insert: I, save: S) -> bool {
    let list = sources(before.documents);
    &&& forall|probes: Seq<FileProbe>| #[trigger]
        surveyed(list, probe, probes) ==> removals_allowed(before, list, missing_ids(list, probes), delete)
    &&& forall|probes: Seq<FileProbe>, middle: MemoryState|
        #![trigger surveyed(list, probe, probes), removing(before, list, missing_ids(list, probes), delete, middle, Ok(()))]
        surveyed(list, probe, probes) && removing(before, list, missing_ids(list, probes), delete, middle, Ok(())) ==> {
            &&& updates_allowed(middle, changes(list, probes, before.hashes), delete, insert, save)
            &&& forall|memory: &PersistentMemory|
                updating(
                    middle,
                    changes(list, probes, before.hashes),
                    delete,
                    insert,
                    save,
                    memory@,
                    Ok(()),
                ) ==> #[trigger] save.requires((memory,))
        }
}

/// No more files are missing or changed than were looked at.
pub proof fn lemma_counts_bounded(list: Seq<(u64, Seq<char>)>, probes: Seq<FileProbe>, hashes: Map<Seq<char>, Seq<char>>)
    ensures
        missing_ids(list, probes).len() + changes(list, probes, hashes).len() <= list.len(),
    decreases list.len(),
{
    if list.len() > 0 {
        lemma_counts_bounded(list.drop_last(), probes, hashes);
    }
}

/// There are no more sources than documents.
pub proof fn lemma_sources_bounded(documents: Seq<DocumentFields>)
    ensures
        sources(documents).len() <= documents.len(),
    decreases documents.len(),
{
    if documents.len() > 0 {
        lemma_sources_bounded(documents.drop_last());
    }
}

impl PersistentMemory {
    /// Brings the memory in line with the files that documents came from: documents whose
    /// files are gone are removed, and changed files are ingested anew.
    ///
    /// `probe` looks at a file, `delete` deletes from the index, and the other functions are
    /// those of `ingest`.
    pub fn sync<
        P: Fn(&str) -> FileProbe,
        D: Fn(u64) -> Result<(), TurboError>,
        I: Fn(u64, &str) -> Result<(), TurboError>,
        S: Fn(&PersistentMemory) -> Result<(), AgentMemoryError>,
    >(&mut self, probe: &P, delete: &D, insert: &I, save: &S) -> (r: Result<SyncStats, AgentMemoryError>)
        requires
            old(self)@.next_id + old(self)@.documents.len() <= u64::MAX,
            forall|p: &str| is_source(sources(old(self)@.documents), p@) ==> #[trigger] probe.requires((p,)),
            sync_allowed(old(self)@, *probe, *delete, *insert, *save),
        ensures
            exists|probes: Seq<FileProbe>| #[trigger]
                probed(sources(old(self)@.documents), *probe, probes) && syncing(
                    old(self)@,
                    probes,
                    *delete,
                    *insert,
                    *save,
                    final(self)@,
                    r,
                ),
    {
        let ghost before = self@;
        let list: Vec<(u64, String)> = self.file_sources();
        let planned = self.plan_sync(probe);
        let ghost probes = choose|probes: Seq<FileProbe>| #[trigger]
            probed(sources(before.documents), *probe, probes) && before.planned(probes, planned);
        let plan: SyncPlan = match planned {
            Ok(plan) => plan,
            Err(e) => {
                let r: Result<SyncStats, AgentMemoryError> = Err(e);
                assert(syncing(before, probes, *delete, *insert, *save, self@, r));
                return r;
            },
        };
        proof {
            lemma_counts_bounded(sources(before.documents), probes, before.hashes);
            lemma_sources_bounded(before.documents);
            assert(surveyed(sources(before.documents), *probe, probes));
        }
        match self.remove_missing(&plan.missing, &list, delete) {
            Ok(u) => {
                assert(u == ());
            },
            Err(x) => {
                let r: Result<SyncStats, AgentMemoryError> = Err(AgentMemoryError::Turbo(x));
                assert(syncing(before, probes, *delete, *insert, *save, self@, r));
                return r;
            },
        }
        let ghost middle = self@;
        assert(removing(
            before,
            sources(before.documents),
            missing_ids(sources(before.documents), probes),
            *delete,
            middle,
            Ok(()),
        ));
        match self.update_changed(&plan.changed, delete, insert, save) {
            Ok(u) => {
                assert(u == ());
            },
            Err(e) => {
                let r: Result<SyncStats, AgentMemoryError> = Err(e);
                assert(syncing(before, probes, *delete, *insert, *save, self@, r));
                return r;
            },
        }
        assert(updating(
            middle,
            changes(sources(before.documents), probes, before.hashes),
            *delete,
            *insert,
            *save,
            self@,
            Ok(()),
        ));
        let kept: Result<(), AgentMemoryError> = save(&*self);
        assert(saving(*save, self@, kept));
        let r: Result<SyncStats, AgentMemoryError> = match kept {
            Ok(u) => {
                assert(saving(*save, self@, Ok(u)) && u == ());
                Ok(
                    SyncStats {
                        added: 0,
                        updated: plan.changed.len(),
                        removed: plan.missing.len(),
                        unchanged: plan.unchanged,
                    },
                )
            },
            Err(e) => Err(e),
        };
        assert(syncing(before, probes, *delete, *insert, *save, self@, r));
        r
    }

    /// What is known of the memory as a whole. `index_size_bytes` is the size of the index
    /// where it is kept.
    pub fn stats(&self, index_size_bytes: usize) -> (r: MemoryStats)
        requires
            token_sum(self.remembered()) <= usize::MAX,
        ensures
            r.total_documents == self.remembered().len(),
            r.total_tokens == token_sum(self.remembered()),
            r.index_size_bytes == index_size_bytes,
            are_counts(self.remembered(), r.by_type.counts@),
    {
        MemoryStats {
            total_documents: self.documents.len(),
            total_tokens: count_tokens(&self.documents),
            index_size_bytes,
            by_type: count_types(&self.documents),
        }
    }
}

/// A document's type is asked for: it is listed, or none is.
pub open spec fn is_wanted(kind: DocumentKind, types: Seq<DocumentType>) -> bool {
    types.len() == 0 || exists|i: int| 0 <= i < types.len() && (#[trigger] types[i])@ == kind
}

/// The documents of the ranked results whose type is asked for, with their scores, in the
/// order of the ranking.
pub open spec fn recalled(
    ranked: Seq<RankedResult>,
    documents: Seq<Document>,
    types: Seq<DocumentType>,
) -> Seq<Recalled>
    decreases ranked.len(),
{
    if ranked.len() == 0 {
        Seq::empty()
    } else {
        let before = recalled(ranked.drop_last(), documents, types);
        let r = ranked.last();
        let doc = first_with(documents, r.id)@;
        if has_id(documents, r.id) && is_wanted(doc.kind, types) {
            before.push(
                Recalled {
                    document: doc,
                    relevance_score: r.relevance_score,
                    recency_score: r.recency_score,
                    combined_score: r.combined_score,
                },
            )
        } else {
            before
        }
    }
}

/// The first `n` elements, or all where there are fewer.
pub open spec fn at_most(list: Seq<Recalled>, n: int) -> Seq<Recalled> {
    if list.len() <= n {
        list
    } else {
        list.take(n)
    }
}

/// What was recalled.
pub open spec fn recall_views(list: Seq<RecallResult>) -> Seq<Recalled> {
    list.map_values(|r: RecallResult| r@)
}

/// Seven tenths for relevance, three tenths for recency.
pub open spec fn is_recall_config(c: RankingConfig) -> bool {
    &&& c.relevance_weight.bits == 0x3f33_3333
    &&& c.recency_weight.bits == 0x3e99_999a
    &&& c.always_keep_recent == 0
}

fn type_is_wanted(doc_type: &DocumentType, types: &[DocumentType]) -> (r: bool)
    ensures
        r == is_wanted(doc_type@, types@),
{
    if types.len() == 0 {
        return true;
    }
    let mut i: usize = 0;
    while i < types.len()
        invariant
            i <= types@.len(),
            forall|k: int| 0 <= k < i ==> (#[trigger] types@[k])@ != doc_type@,
        decreases types@.len() - i,
    {
        if types[i].same_as(doc_type) {
            assert(types@[i as int]@ == doc_type@);
            return true;
        }
        i = i + 1;
    }
    false
}

impl PersistentMemory {
    /// `r` is what is recalled at the time `now`, given what the search found.
    pub open spec fn recalled_from<R: Fn(u64) -> Scalar, C: Fn(Scalar, Scalar, Scalar, Scalar) -> Scalar>(
        &self,
        found: Seq<SearchResult>,
        top_k: usize,
        types: Seq<DocumentType>,
        now: u64,
        recency: R,
        combine: C,
        r: Seq<Recalled>,
    ) -> bool {
        exists|config: RankingConfig, scored: Seq<RankedResult>, ranked: Seq<RankedResult>|
            #![trigger all_scored(found, self.remembered(), now, config, recency, combine, scored), is_ranking(scored, ranked)]
            {
                &&& is_recall_config(config)
                &&& all_scored(found, self.remembered(), now, config, recency, combine, scored)
                &&& is_ranking(scored, ranked)
                &&& r == at_most(recalled(ranked, self.remembered(), types), top_k as int)
            }
    }

    /// Recalls the documents that matter most for a query, of whatever type.
    pub fn recall<
        F: FnOnce(&str, usize) -> Vec<SearchResult>,
        R: Fn(u64) -> Scalar,
        C: Fn(Scalar, Scalar, Scalar, Scalar) -> Scalar,
    >(&self, query: &str, top_k: usize, search: F, recency: &R, combine: &C) -> (r: Result<
        Vec<RecallResult>,
        AgentMemoryError,
    >)
        requires
            search.requires((query, SEARCH_LIMIT)),
            forall|age: u64| #[trigger] recency.requires((age,)),
            forall|a: Scalar, b: Scalar, c: Scalar, d: Scalar| #[trigger] combine.requires((a, b, c, d)),
        ensures
            r is Ok,
            self.remembered().len() == 0 ==> r->Ok_0@.len() == 0,
            self.remembered().len() > 0 ==> exists|found: Vec<SearchResult>, now: u64|
                #![trigger search.ensures((query, SEARCH_LIMIT), found), self.recalled_from(found@, top_k, Seq::empty(), now, *recency, *combine, recall_views(r->Ok_0@))]
                search.ensures((query, SEARCH_LIMIT), found) && self.recalled_from(
                    found@,
                    top_k,
                    Seq::empty(),
                    now,
                    *recency,
                    *combine,
                    recall_views(r->Ok_0@),
                ),
    {
        let none: Vec<DocumentType> = Vec::new();
        assert(none@ =~= Seq::<DocumentType>::empty());
        self.recall_typed(query, top_k, none.as_slice(), search, recency, combine)
    }

    /// Recalls the documents that matter most for a query, of the listed types, or of
    /// whatever type where none is listed.
    ///
    /// `search` embeds a text and finds so many similar ones in the index. `recency` and
    /// `combine` are those of `rank`. Ages are counted from the time of the system's clock.
    pub fn recall_typed<
        F: FnOnce(&str, usize) -> Vec<SearchResult>,
        R: Fn(u64) -> Scalar,
        C: Fn(Scalar, Scalar, Scalar, Scalar) -> Scalar,
    >(
        &self,
        query: &str,
        top_k: usize,
        types: &[DocumentType],
        search: F,
        recency: &R,
        combine: &C,
    ) -> (r: Result<Vec<RecallResult>, AgentMemoryError>)
        requires
            search.requires((query, SEARCH_LIMIT)),
            forall|age: u64| #[trigger] recency.requires((age,)),
            forall|a: Scalar, b: Scalar, c: Scalar, d: Scalar| #[trigger] combine.requires((a, b, c, d)),
        ensures
            r is Ok,
            self.remembered().len() == 0 ==> r->Ok_0@.len() == 0,
            self.remembered().len() > 0 ==> exists|found: Vec<SearchResult>, now: u64|
                #![trigger search.ensures((query, SEARCH_LIMIT), found), self.recalled_from(found@, top_k, types@, now, *recency, *combine, recall_views(r->Ok_0@))]
                search.ensures((query, SEARCH_LIMIT), found) && self.recalled_from(
                    found@,
                    top_k,
                    types@,
                    now,
                    *recency,
                    *combine,
                    recall_views(r->Ok_0@),
                ),
    {
        if self.documents.len() == 0 {
            return Ok(Vec::new());
        }
        let found: Vec<SearchResult> = search(query, SEARCH_LIMIT);
        let now: u64 = clock_millis();
        let results: Vec<RecallResult> = self.recall_at(found.as_slice(), top_k, types, now, recency, combine);
        let r: Result<Vec<RecallResult>, AgentMemoryError> = Ok(results);
        assert(search.ensures((query, SEARCH_LIMIT), found) && self.recalled_from(
            found@,
            top_k,
            types@,
            now,
            *recency,
            *combine,
            recall_views(r->Ok_0@),
        ));
        r
    }

    /// What is recalled at the time `now`, given what the search found: the documents found,
    /// ranked, of the listed types, `top_k` of them at most.
    pub fn recall_at<R: Fn(u64) -> Scalar, C: Fn(Scalar, Scalar, Scalar, Scalar) -> Scalar>(
        &self,
        found: &[SearchResult],
        top_k: usize,
        types: &[DocumentType],
        now: u64,
        recency: &R,
        combine: &C,
    ) -> (r: Vec<RecallResult>)
        requires
            forall|age: u64| #[trigger] recency.requires((age,)),
            forall|a: Scalar, b: Scalar, c: Scalar, d: Scalar| #[trigger] combine.requires((a, b, c, d)),
        ensures
            self.recalled_from(found@, top_k, types@, now, *recency, *combine, recall_views(r@)),
    {
        let config = RankingConfig {
            relevance_weight: Scalar::from_bits(0x3f33_3333),
            recency_weight: Scalar::from_bits(0x3e99_999a),
            always_keep_recent: 0,
        };
        let ranked: Vec<RankedResult> = rank(found, &self.documents, now, &config, recency, combine);
        let mut results: Vec<RecallResult> = Vec::new();
        let mut i: usize = 0;
        while i < ranked.len()
            invariant
                i <= ranked@.len(),
                recall_views(results@) =~= recalled(ranked@.take(i as int), self.documents@, types@),
            decreases ranked@.len() - i,
        {
            assert(ranked@.take(i + 1).drop_last() =~= ranked@.take(i as int));
            let one: RankedResult = ranked[i];
            match find_document(&self.documents, one.id) {
                Some(at) => {
                    if type_is_wanted(&self.documents[at].doc_type, types) {
                        results.push(
                            RecallResult {
                                document: self.documents[at].clone(),
                                relevance_score: one.relevance_score,
                                recency_score: one.recency_score,
                                combined_score: one.combined_score,
                            },
                        );
                    }
                },
                None => {},
            }
            i = i + 1;
        }
        assert(ranked@.take(i as int) =~= ranked@);
        let ghost all = recall_views(results@);
        if top_k < results.len() {
            results.truncate(top_k);
        }
        proof {
            assert(recall_views(results@) =~= at_most(all, top_k as int));
            let scored = choose|scored: Seq<RankedResult>| #[trigger]
                all_scored(found@, self.documents@, now, config, *recency, *combine, scored) && is_ranking(
                    scored,
                    ranked@,
                );
            assert(is_recall_config(config));
            assert(all_scored(found@, self.remembered(), now, config, *recency, *combine, scored) && is_ranking(
                scored,
                ranked@,
            ));
        }
        results
    }
}

/// The documents of a memory are what it remembers.
pub proof fn lemma_remembered(memory: PersistentMemory)
    ensures
        memory@.documents == contents(memory.remembered()),
{
}

proof fn lemma_recalled_wanted(ranked: Seq<RankedResult>, documents: Seq<Document>, types: Seq<DocumentType>)
    ensures
        forall|k: int|
            0 <= k < recalled(ranked, documents, types).len() ==> is_wanted(
                (#[trigger] recalled(ranked, documents, types)[k]).document.kind,
                types,
            ),
    decreases ranked.len(),
{
    if ranked.len() > 0 {
        lemma_recalled_wanted(ranked.drop_last(), documents, types);
        let before = recalled(ranked.drop_last(), documents, types);
        let all = recalled(ranked, documents, types);
        assert forall|k: int| 0 <= k < all.len() implies is_wanted((#[trigger] all[k]).document.kind, types) by {
            if k < before.len() {
                assert(all[k] == before[k]);
            }
        }
    }
}

/// Where types are listed, only documents of these types are recalled, and never more than
/// were asked for.
pub proof fn law_recall_filters<R: Fn(u64) -> Scalar, C: Fn(Scalar, Scalar, Scalar, Scalar) -> Scalar>(
    memory: PersistentMemory,
    found: Seq<SearchResult>,
    top_k: usize,
    types: Seq<DocumentType>,
    now: u64,
    recency: R,
    combine: C,
    r: Seq<Recalled>,
)
    requires
        memory.recalled_from(found, top_k, types, now, recency, combine, r),
    ensures
        r.len() <= top_k,
        forall|k: int| 0 <= k < r.len() ==> is_wanted((#[trigger] r[k]).document.kind, types),
{
    let (config, scored, ranked) = choose|
        config: RankingConfig,
        scored: Seq<RankedResult>,
        ranked: Seq<RankedResult>,
    |
        #![trigger all_scored(found, memory.remembered(), now, config, recency, combine, scored), is_ranking(scored, ranked)]
        {
            &&& is_recall_config(config)
            &&& all_scored(found, memory.remembered(), now, config, recency, combine, scored)
            &&& is_ranking(scored, ranked)
            &&& r == at_most(recalled(ranked, memory.remembered(), types), top_k as int)
        };
    lemma_recalled_wanted(ranked, memory.remembered(), types);
    let all = recalled(ranked, memory.remembered(), types);
    assert forall|k: int| 0 <= k < r.len() implies is_wanted((#[trigger] r[k]).document.kind, types) by {
        assert(r[k] == all[k]);
    }
}

/// A removed document is forgotten, and no other document is touched.
pub proof fn law_removed_is_forgotten(documents: Seq<DocumentFields>, id: u64)
    ensures
        forall|k: int|
            0 <= k < without(documents, id).len() ==> (#[trigger] without(documents, id)[k]).id != id
                && documents.contains(without(documents, id)[k]),
        forall|k: int|
            0 <= k < documents.len() && (#[trigger] documents[k]).id != id ==> without(documents, id).contains(
                documents[k],
            ),
    decreases documents.len(),
{
    if documents.len() > 0 {
        let rest = documents.drop_last();
        law_removed_is_forgotten(rest, id);
        let before = without(rest, id);
        let all = without(documents, id);
        assert forall|k: int| 0 <= k < all.len() implies (#[trigger] all[k]).id != id && documents.contains(all[k]) by {
            if k < before.len() {
                assert(all[k] == before[k]);
                let n = choose|n: int| 0 <= n < rest.len() && rest[n] == before[k];
                assert(documents[n] == all[k]);
            } else {
                assert(documents[documents.len() - 1] == all[k]);
            }
        }
        assert forall|k: int| 0 <= k < documents.len() && (#[trigger] documents[k]).id != id implies all.contains(
            documents[k],
        ) by {
            if k < rest.len() {
                assert(rest[k] == documents[k]);
                let n = choose|n: int| 0 <= n < before.len() && before[n] == documents[k];
                assert(all[n] == documents[k]);
            } else {
                assert(all[all.len() - 1] == documents[k]);
            }
        }
    }
}

/// Opening what was saved gives the memory back: its documents, its digests, and the next
/// identifier, which is one above all documents. Where identifiers were used up for documents
/// that are no longer kept, those above all kept ones are given again.
pub proof fn law_open_after_save(saved: PersistentMemory, text: Seq<char>, opened: PersistentMemory)
    requires
        contents(opened.remembered()) == contents(saved.remembered()),
        opened@.documents == contents(opened.remembered()),
        saved@.documents == contents(saved.remembered()),
        (json_strings(text) matches Ok(m) && m == saved@.hashes),
        (json_strings(text) matches Ok(m) && m == opened@.hashes),
        is_next_id(opened.remembered(), opened@.next_id),
        saved@.next_id > 0,
        forall|i: int| 0 <= i < saved.remembered().len() ==> (#[trigger] saved.remembered()[i]).id < saved@.next_id,
    ensures
        opened@.documents == saved@.documents,
        opened@.hashes == saved@.hashes,
        opened@.next_id <= saved@.next_id,
        is_next_id(saved.remembered(), saved@.next_id) ==> opened@ == saved@,
{
    let (a, b) = (saved.remembered(), opened.remembered());
    assert(contents(a).len() == contents(b).len());
    assert forall|i: int| 0 <= i < a.len() implies (#[trigger] a[i]).id == b[i].id by {
        assert(contents(a)[i] == contents(b)[i]);
    }
    if opened@.next_id != 1 {
        let i = choose|i: int| 0 <= i < b.len() && (#[trigger] b[i]).id == opened@.next_id - 1;
        assert(a[i].id == b[i].id);
    }
    if is_next_id(a, saved@.next_id) && saved@.next_id != 1 {
        let i = choose|i: int| 0 <= i < a.len() && (#[trigger] a[i]).id == saved@.next_id - 1;
        assert(a[i].id == b[i].id);
        assert(b[i].id < opened@.next_id);
    }
}

/// A text becomes a document that holds it whole, with a token for every four of its bytes.
pub proof fn law_ingested_document(
    id: u64,
    content: Seq<char>,
    kind: DocumentKind,
    path: Option<Seq<char>>,
    timestamp: u64,
)
    requires
        encode_utf8(content).len() <= usize::MAX,
    ensures
        ({
            let d = ingested_document(id, content, kind, path, timestamp);
            &&& d.content == content && d.id == id && d.kind == kind
            &&& d.source_path == path && d.timestamp == timestamp
            &&& d.token_count * 4 <= encode_utf8(content).len() < d.token_count * 4 + 4
            &&& content.len() <= 200 ==> d.content_preview == content
            &&& content.len() >= 200 ==> d.content_preview == content.subrange(0, 200)
            &&& forall|key: Seq<char>| !#[trigger] d.metadata.dom().contains(key)
        }),
{
    law_new_document(id, kind, content, timestamp);
}

/// Ingesting adds one document at the end and keeps all others. Of a file the digest of its
/// content is noted, and every other digest stays. The identifier is used up.
pub proof fn law_after_ingest(
    before: MemoryState,
    content: Seq<char>,
    kind: DocumentKind,
    path: Option<Seq<char>>,
    timestamp: u64,
)
    requires
        before.next_id < u64::MAX,
    ensures
        ({
            let after = after_ingest(before, content, kind, path, timestamp);
            &&& after.documents.len() == before.documents.len() + 1
            &&& forall|i: int| 0 <= i < before.documents.len() ==> #[trigger] after.documents[i] == before.documents[i]
            &&& after.documents.last().content == content && after.documents.last().id == before.next_id
            &&& after.documents.last().kind == kind && after.documents.last().source_path == path
            &&& after.next_id == before.next_id + 1
            &&& path is None ==> after.hashes == before.hashes
            &&& path matches Some(p) ==> after.hashes.dom().contains(p) && after.hashes[p] == hex(
                sha256(encode_utf8(content)),
            )
            &&& forall|p: Seq<char>|
                path != Some(p) ==> (#[trigger] after.hashes.dom().contains(p) <==> before.hashes.dom().contains(p)) && (
                before.hashes.dom().contains(p) ==> after.hashes[p] == before.hashes[p])
        }),
{
}

/// Where ingesting fails in the index, the memory keeps its documents and digests, and where it
/// succeeds the identifier of the new document is given.
pub proof fn law_ingest_outcome<
    I: FnOnce(u64, &str) -> Result<(), TurboError>,
    S: FnOnce(&PersistentMemory) -> Result<(), AgentMemoryError>,
>(
    before: MemoryState,
    content: Seq<char>,
    kind: DocumentKind,
    path: Option<Seq<char>>,
    timestamp: u64,
    insert: I,
    save: S,
    after: MemoryState,
    r: Result<u64, AgentMemoryError>,
)
    requires
        before.next_id < u64::MAX,
        ingesting(before, content, kind, path, timestamp, insert, save, after, r),
    ensures
        after.next_id == before.next_id + 1,
        r is Ok ==> {
            &&& r->Ok_0 == before.next_id
            &&& after.documents.len() == before.documents.len() + 1
            &&& after.documents.last().content == content && after.documents.last().id == r->Ok_0
        },
        after.documents == before.documents || after.documents.drop_last() == before.documents,
        after.documents.len() == before.documents.len() ==> r is Err && after.hashes == before.hashes,
        exists|text: &str, outcome: Result<(), TurboError>|
            text@ == content && #[trigger] insert.ensures((before.next_id, text), outcome) && (r is Ok ==> outcome
                is Ok) && (outcome is Err ==> after.documents == before.documents && r is Err),
{
    let more = after_ingest(before, content, kind, path, timestamp);
    assert(more.documents.drop_last() =~= before.documents);
    let outcome: Result<(), TurboError> = if inserting(insert, before.next_id, content, Ok(())) && after == more {
        Ok(())
    } else {
        Err((r->Err_0)->Turbo_0)
    };
    assert(inserting(insert, before.next_id, content, outcome));
}

/// The sources are the documents that have a path, in order, each with it.
pub proof fn law_sources(documents: Seq<DocumentFields>)
    ensures
        sources(documents) == documents.filter(|d: DocumentFields| d.source_path is Some).map_values(
            |d: DocumentFields| (d.id, d.source_path->Some_0),
        ),
    decreases documents.len(),
{
    reveal(Seq::filter);
    let pick = |d: DocumentFields| d.source_path is Some;
    let take = |d: DocumentFields| (d.id, d.source_path->Some_0);
    if documents.len() > 0 {
        law_sources(documents.drop_last());
        let before = documents.drop_last().filter(pick);
        if pick(documents.last()) {
            assert(before.push(documents.last()).map_values(take) =~= before.map_values(take).push(
                take(documents.last()),
            ));
        }
    } else {
        assert(sources(documents) =~= documents.filter(pick).map_values(take));
    }
}

/// The documents without one are all others, in order.
pub proof fn law_without(documents: Seq<DocumentFields>, id: u64)
    ensures
        without(documents, id) == documents.filter(|d: DocumentFields| d.id != id),
    decreases documents.len(),
{
    reveal(Seq::filter);
    if documents.len() > 0 {
        law_without(documents.drop_last(), id);
    } else {
        assert(without(documents, id) =~= documents.filter(|d: DocumentFields| d.id != id));
    }
}

/// Removing a document forgets it and the digest of its file, and nothing else.
pub proof fn law_after_remove(before: MemoryState, list: Seq<(u64, Seq<char>)>, k: int)
    requires
        0 <= k < list.len(),
        forall|i: int| 0 <= i < k ==> (#[trigger] list[i]).0 != list[k].0,
    ensures
        ({
            let after = after_remove(before, list, list[k].0);
            &&& after.documents == before.documents.filter(|d: DocumentFields| d.id != list[k].0)
            &&& !after.hashes.dom().contains(list[k].1)
            &&& forall|p: Seq<char>|
                p != list[k].1 ==> (#[trigger] after.hashes.dom().contains(p) <==> before.hashes.dom().contains(p)) && (
                before.hashes.dom().contains(p) ==> after.hashes[p] == before.hashes[p])
            &&& after.next_id == before.next_id
        }),
{
    law_without(before.documents, list[k].0);
    lemma_path_of(list, k);
}

proof fn lemma_path_of(list: Seq<(u64, Seq<char>)>, k: int)
    requires
        0 <= k < list.len(),
        forall|i: int| 0 <= i < k ==> (#[trigger] list[i]).0 != list[k].0,
    ensures
        path_of(list, list[k].0) == Some(list[k].1),
    decreases k,
{
    if k > 0 {
        assert(list[0].0 != list[k].0);
        let rest = list.drop_first();
        assert forall|i: int| 0 <= i < k - 1 implies (#[trigger] rest[i]).0 != rest[k - 1].0 by {
            assert(rest[i] == list[i + 1]);
        }
        lemma_path_of(rest, k - 1);
    }
}

/// Some listed file is gone, and its document is the one with the identifier.
pub open spec fn is_missing(list: Seq<(u64, Seq<char>)>, probes: Seq<FileProbe>, id: u64) -> bool {
    exists|k: int| 0 <= k < list.len() && (#[trigger] probes[k]) is Missing && list[k].0 == id
}

/// Some listed file shows this content, and its digest is not the one that was noted.
pub open spec fn is_new_content(
    list: Seq<(u64, Seq<char>)>,
    probes: Seq<FileProbe>,
    hashes: Map<Seq<char>, Seq<char>>,
    c: Change,
) -> bool {
    exists|k: int|
        0 <= k < list.len() && ((#[trigger] probes[k]) matches FileProbe::Content(content) && content@ == c.content)
            && list[k] == (c.id, c.path) && !(hashes.dom().contains(c.path) && hashes[c.path] == hex(
            sha256(encode_utf8(c.content)),
        ))
}

/// What is listed as missing are the documents whose files are gone.
pub proof fn lemma_missing(list: Seq<(u64, Seq<char>)>, probes: Seq<FileProbe>)
    requires
        list.len() <= probes.len(),
    ensures
        missing_ids(list, probes).len() == probes.take(list.len() as int).filter(|p: FileProbe| p is Missing).len(),
        forall|id: u64| #[trigger] missing_ids(list, probes).contains(id) <==> is_missing(list, probes, id),
    decreases list.len(),
{
    reveal(Seq::filter);
    let all = missing_ids(list, probes);
    if list.len() > 0 {
        let rest = list.drop_last();
        lemma_missing(rest, probes);
        let before = missing_ids(rest, probes);
        let n = list.len() as int;
        assert(probes.take(n).drop_last() =~= probes.take(n - 1));
        assert(probes.take(n).last() == probes[n - 1]);
        assert forall|id: u64| #[trigger] all.contains(id) <==> is_missing(list, probes, id) by {
            if all.contains(id) {
                let m = choose|m: int| 0 <= m < all.len() && all[m] == id;
                if m < before.len() {
                    assert(before[m] == id);
                    assert(before.contains(id));
                    let k = choose|k: int| 0 <= k < rest.len() && (#[trigger] probes[k]) is Missing && rest[k].0 == id;
                    assert(probes[k] is Missing && list[k].0 == id);
                } else {
                    assert(probes[n - 1] is Missing && list[n - 1].0 == id);
                }
            }
            if is_missing(list, probes, id) {
                let k = choose|k: int| 0 <= k < list.len() && (#[trigger] probes[k]) is Missing && list[k].0 == id;
                if k < n - 1 {
                    assert(probes[k] is Missing && rest[k].0 == id);
                    assert(before.contains(id));
                    let m = choose|m: int| 0 <= m < before.len() && before[m] == id;
                    assert(all[m] == id);
                } else {
                    assert(all[all.len() - 1] == id);
                }
            }
        }
    }
}

/// What is listed as changed are the files that show a new content.
pub proof fn lemma_changes(list: Seq<(u64, Seq<char>)>, probes: Seq<FileProbe>, hashes: Map<Seq<char>, Seq<char>>)
    requires
        list.len() <= probes.len(),
    ensures
        forall|c: Change|
            #[trigger] changes(list, probes, hashes).contains(c) <==> is_new_content(list, probes, hashes, c),
        missing_ids(list, probes).len() + changes(list, probes, hashes).len() <= list.len(),
        (forall|k: int| 0 <= k < list.len() ==> is_unchanged(list, probes, hashes, k)) ==> changes(
            list,
            probes,
            hashes,
        ).len() == 0 && missing_ids(list, probes).len() == 0,
    decreases list.len(),
{
    let all = changes(list, probes, hashes);
    if list.len() > 0 {
        let rest = list.drop_last();
        lemma_changes(rest, probes, hashes);
        let before = changes(rest, probes, hashes);
        let n = list.len() as int;
        assert forall|c: Change| #[trigger] all.contains(c) <==> is_new_content(list, probes, hashes, c) by {
            if all.contains(c) {
                let m = choose|m: int| 0 <= m < all.len() && all[m] == c;
                if m < before.len() {
                    assert(before[m] == c);
                    assert(before.contains(c));
                    let k = choose|k: int|
                        0 <= k < rest.len() && ((#[trigger] probes[k]) matches FileProbe::Content(content) && content@
                            == c.content) && rest[k] == (c.id, c.path) && !(hashes.dom().contains(c.path)
                            && hashes[c.path] == hex(sha256(encode_utf8(c.content))));
                    assert(list[k] == rest[k]);
                    assert(probes[k] is Content);
                } else {
                    assert(probes[n - 1] is Content);
                    assert(list[n - 1] == (c.id, c.path));
                }
            }
            if is_new_content(list, probes, hashes, c) {
                let k = choose|k: int|
                    0 <= k < list.len() && ((#[trigger] probes[k]) matches FileProbe::Content(content) && content@
                        == c.content) && list[k] == (c.id, c.path) && !(hashes.dom().contains(c.path)
                        && hashes[c.path] == hex(sha256(encode_utf8(c.content))));
                if k < n - 1 {
                    assert(rest[k] == list[k]);
                    assert(probes[k] is Content);
                    assert(is_new_content(rest, probes, hashes, c));
                    assert(before.contains(c));
                    let m = choose|m: int| 0 <= m < before.len() && before[m] == c;
                    assert(all[m] == c);
                } else {
                    assert(all[all.len() - 1] =~= c);
                }
            }
        }
        if forall|k: int| 0 <= k < list.len() ==> is_unchanged(list, probes, hashes, k) {
            assert forall|k: int| 0 <= k < rest.len() implies is_unchanged(rest, probes, hashes, k) by {
                assert(is_unchanged(list, probes, hashes, k));
            }
            assert(is_unchanged(list, probes, hashes, n - 1));
        }
    }
}

/// The file shows the content whose digest was noted.
pub open spec fn is_unchanged(
    list: Seq<(u64, Seq<char>)>,
    probes: Seq<FileProbe>,
    hashes: Map<Seq<char>, Seq<char>>,
    k: int,
) -> bool {
    probes[k] matches FileProbe::Content(content) && hashes.dom().contains(list[k].1) && hashes[list[k].1] == hex(
        sha256(encode_utf8(content@)),
    )
}

/// A plan lists as missing exactly the documents whose files are gone, and as changed exactly those
/// whose files show a content with another digest than the one noted, with that content. What is
/// left is unchanged.
pub proof fn law_plan(state: MemoryState, probes: Seq<FileProbe>, plan: SyncPlan)
    requires
        state.planned(probes, Ok(plan)),
    ensures
        ({
            let list = sources(state.documents);
            &&& probes.len() == list.len()
            &&& forall|id: u64| #[trigger] plan.missing@.contains(id) <==> is_missing(list, probes, id)
            &&& plan.missing@.len() == probes.filter(|p: FileProbe| p is Missing).len()
            &&& forall|c: Change|
                #[trigger] change_texts(plan.changed@).contains(c) <==> is_new_content(list, probes, state.hashes, c)
            &&& plan.missing@.len() + plan.changed@.len() + plan.unchanged == list.len()
            &&& (forall|k: int| 0 <= k < list.len() ==> is_unchanged(list, probes, state.hashes, k)) ==> plan.unchanged
                == list.len()
        }),
{
    let list = sources(state.documents);
    lemma_missing(list, probes);
    lemma_changes(list, probes, state.hashes);
    assert(probes.take(list.len() as int) =~= probes);
    assert(change_texts(plan.changed@).len() == plan.changed@.len());
}

/// What is recalled are the ranked documents of the wanted types, in the order of the ranking and
/// with their scores, as many as asked for or all where there are fewer.
pub proof fn law_recalled(
    ranked: Seq<RankedResult>,
    documents: Seq<Document>,
    types: Seq<DocumentType>,
    top_k: int,
)
    requires
        0 <= top_k,
    ensures
        ({
            let all = ranked.filter(
                |r: RankedResult| has_id(documents, r.id) && is_wanted(first_with(documents, r.id)@.kind, types),
            );
            let r = at_most(recalled(ranked, documents, types), top_k);
            &&& r.len() <= top_k && r.len() <= all.len()
            &&& r.len() == top_k || r.len() == all.len()
            &&& forall|k: int|
                0 <= k < r.len() ==> {
                    &&& (#[trigger] r[k]).document == first_with(documents, all[k].id)@
                    &&& r[k].relevance_score == all[k].relevance_score
                    &&& r[k].recency_score == all[k].recency_score
                    &&& r[k].combined_score == all[k].combined_score
                }
        }),
{
    lemma_recalled_filter(ranked, documents, types);
}

proof fn lemma_recalled_filter(ranked: Seq<RankedResult>, documents: Seq<Document>, types: Seq<DocumentType>)
    ensures
        ({
            let all = ranked.filter(
                |r: RankedResult| has_id(documents, r.id) && is_wanted(first_with(documents, r.id)@.kind, types),
            );
            let list = recalled(ranked, documents, types);
            &&& list.len() == all.len()
            &&& forall|k: int|
                0 <= k < list.len() ==> {
                    &&& (#[trigger] list[k]).document == first_with(documents, all[k].id)@
                    &&& list[k].relevance_score == all[k].relevance_score
                    &&& list[k].recency_score == all[k].recency_score
                    &&& list[k].combined_score == all[k].combined_score
                }
        }),
    decreases ranked.len(),
{
    reveal(Seq::filter);
    if ranked.len() > 0 {
        let pick = |r: RankedResult| has_id(documents, r.id) && is_wanted(first_with(documents, r.id)@.kind, types);
        let rest = ranked.drop_last();
        lemma_recalled_filter(rest, documents, types);
        let (before, list) = (recalled(rest, documents, types), recalled(ranked, documents, types));
        let (some, all) = (rest.filter(pick), ranked.filter(pick));
        assert forall|k: int| 0 <= k < list.len() implies {
            &&& (#[trigger] list[k]).document == first_with(documents, all[k].id)@
            &&& list[k].relevance_score == all[k].relevance_score
            &&& list[k].recency_score == all[k].recency_score
            &&& list[k].combined_score == all[k].combined_score
        } by {
            if k < before.len() {
                assert(list[k] == before[k]);
                assert(all[k] == some[k]);
            }
        }
    }
}

/// Without a list every type is wanted, and with one those that it holds.
pub proof fn law_wanted(kind: DocumentKind, types: Seq<DocumentType>)
    ensures
        types.len() == 0 ==> is_wanted(kind, types),
        types.len() > 0 ==> (is_wanted(kind, types) <==> types.map_values(|t: DocumentType| t@).contains(kind)),
{
    let kinds = types.map_values(|t: DocumentType| t@);
    if types.len() > 0 && is_wanted(kind, types) {
        let i = choose|i: int| 0 <= i < types.len() && (#[trigger] types[i])@ == kind;
        assert(kinds[i] == kind);
    }
    if kinds.contains(kind) {
        let i = choose|i: int| 0 <= i < kinds.len() && kinds[i] == kind;
        assert(types[i]@ == kind);
    }
}

/// A file is left alone just where the digest of its content is the one noted for it.
pub proof fn law_changed(hashes: Map<Seq<char>, Seq<char>>, path: Seq<char>, content: Seq<char>)
    ensures
        is_changed(hashes, path, content) <==> !hashes.dom().contains(path) || hashes[path] != hex(
            sha256(encode_utf8(content)),
        ),
{
}

} // verus!
