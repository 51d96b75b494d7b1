//! Documents and what is reported of them.
use crate::scalar::Scalar;
use crate::string_map::StringMap;
use crate::text::{first_chars, leading_chars, same_text};
use vstd::prelude::*;

verus! {

/// The number of characters of a preview.
pub const PREVIEW_CHARS: usize = 200;

/// What a document is.
#[derive(Debug, PartialEq, Eq, Hash)]
pub enum DocumentType {
    Plan,
    Memory,
    RCA,
    CommitContext,
    ConversationTurn,
    ToolResult,
    Custom(String),
}

/// What a document is, with the text of a custom type.
pub enum DocumentKind {
    Plan,
    Memory,
    RCA,
    CommitContext,
    ConversationTurn,
    ToolResult,
    Custom(Seq<char>),
}

impl View for DocumentType {
    type V = DocumentKind;

    open spec fn view(&self) -> DocumentKind {
        match *self {
            DocumentType::Plan => DocumentKind::Plan,
            DocumentType::Memory => DocumentKind::Memory,
            DocumentType::RCA => DocumentKind::RCA,
            DocumentType::CommitContext => DocumentKind::CommitContext,
            DocumentType::ConversationTurn => DocumentKind::ConversationTurn,
            DocumentType::ToolResult => DocumentKind::ToolResult,
            DocumentType::Custom(name) => DocumentKind::Custom(name@),
        }
    }
}

impl Clone for DocumentType {
    fn clone(&self) -> (r: DocumentType)
        ensures
            r@ == self@,
    {
        match self {
            DocumentType::Plan => DocumentType::Plan,
            DocumentType::Memory => DocumentType::Memory,
            DocumentType::RCA => DocumentType::RCA,
            DocumentType::CommitContext => DocumentType::CommitContext,
            DocumentType::ConversationTurn => DocumentType::ConversationTurn,
            DocumentType::ToolResult => DocumentType::ToolResult,
            DocumentType::Custom(name) => DocumentType::Custom(name.clone()),
        }
    }
}

impl DocumentType {
    /// Whether two documents are of the same type.
    pub fn same_as(&self, other: &DocumentType) -> (r: bool)
        ensures
            r == (self@ == other@),
    {
        match (self, other) {
            (DocumentType::Plan, DocumentType::Plan) => true,
            (DocumentType::Memory, DocumentType::Memory) => true,
            (DocumentType::RCA, DocumentType::RCA) => true,
            (DocumentType::CommitContext, DocumentType::CommitContext) => true,
            (DocumentType::ConversationTurn, DocumentType::ConversationTurn) => true,
            (DocumentType::ToolResult, DocumentType::ToolResult) => true,
            (DocumentType::Custom(a), DocumentType::Custom(b)) => same_text(a.as_str(), b.as_str()),
            _ => false,
        }
    }
}

/// A piece of text that is remembered.
#[derive(Debug)]
pub struct Document {
    pub id: u64,
    pub doc_type: DocumentType,
    pub source_path: Option<String>,
    pub content: String,
    pub content_preview: String,
    pub token_count: usize,
    pub timestamp: u64,
    pub metadata: StringMap,
}

/// The contents of a document.
#[verifier::ext_equal]
pub struct DocumentFields {
    pub id: u64,
    pub kind: DocumentKind,
    pub source_path: Option<Seq<char>>,
    pub content: Seq<char>,
    pub content_preview: Seq<char>,
    pub token_count: usize,
    pub timestamp: u64,
    pub metadata: Map<Seq<char>, Seq<char>>,
}

/// The text of an optional string.
pub open spec fn text_of(s: Option<String>) -> Option<Seq<char>> {
    match s {
        Some(t) => Some(t@),
        None => None,
    }
}

impl View for Document {
    type V = DocumentFields;

    open spec fn view(&self) -> DocumentFields {
        DocumentFields {
            id: self.id,
            kind: self.doc_type@,
            source_path: text_of(self.source_path),
            content: self.content@,
            content_preview: self.content_preview@,
            token_count: self.token_count,
            timestamp: self.timestamp,
            metadata: self.metadata@,
        }
    }
}

impl Clone for Document {
    fn clone(&self) -> (r: Document)
        ensures
            r@ == self@,
    {
        let source_path: Option<String> = match &self.source_path {
            Some(path) => Some(path.clone()),
            None => None,
        };
        Document {
            id: self.id,
            doc_type: self.doc_type.clone(),
            source_path,
            content: self.content.clone(),
            content_preview: self.content_preview.clone(),
            token_count: self.token_count,
            timestamp: self.timestamp,
            metadata: self.metadata.clone(),
        }
    }
}

/// A new document: without a source and metadata, with no token counted, and with the start
/// of its content as the preview.
pub open spec fn new_document(id: u64, kind: DocumentKind, content: Seq<char>, timestamp: u64) -> DocumentFields {
    DocumentFields {
        id,
        kind,
        source_path: None,
        content,
        content_preview: leading_chars(content, PREVIEW_CHARS as int),
        token_count: 0,
        timestamp,
        metadata: Map::empty(),
    }
}

/// `SystemTime::elapsed` of the epoch: the milliseconds that the system's clock shows. A
/// clock that stands before the epoch shows none. Nothing is claimed of the time.
#[verifier::external_body]
pub(crate) fn clock_millis() -> (r: u64) {
    std::time::UNIX_EPOCH.elapsed().unwrap_or_default().as_millis() as u64
}

impl Document {
    /// A new document with the time of the system's clock.
    pub fn new(id: u64, doc_type: DocumentType, content: String) -> (r: Document)
        ensures
            r@ == new_document(id, doc_type@, content@, r.timestamp),
    {
        Document::at(id, doc_type, content, clock_millis())
    }

    /// A new document with the given time.
    pub fn at(id: u64, doc_type: DocumentType, content: String, timestamp: u64) -> (r: Document)
        ensures
            r@ == new_document(id, doc_type@, content@, timestamp),
    {
        let content_preview: String = first_chars(content.as_str(), PREVIEW_CHARS);
        Document {
            id,
            doc_type,
            source_path: None,
            content,
            content_preview,
            token_count: 0,
            timestamp,
            metadata: StringMap::new(),
        }
    }
}

/// A document recalled, and its scores.
#[derive(Debug, Clone)]
pub struct RecallResult {
    pub document: Document,
    pub relevance_score: Scalar,
    pub recency_score: Scalar,
    pub combined_score: Scalar,
}

/// The contents of a recalled document, and its scores.
#[verifier::ext_equal]
pub struct Recalled {
    pub document: DocumentFields,
    pub relevance_score: Scalar,
    pub recency_score: Scalar,
    pub combined_score: Scalar,
}

impl View for RecallResult {
    type V = Recalled;

    open spec fn view(&self) -> Recalled {
        Recalled {
            document: self.document@,
            relevance_score: self.relevance_score,
            recency_score: self.recency_score,
            combined_score: self.combined_score,
        }
    }
}

/// What a synchronization did.
#[derive(Debug, Clone, Copy, PartialEq, Eq, Structural)]
pub struct SyncStats {
    pub added: usize,
    pub updated: usize,
    pub removed: usize,
    pub unchanged: usize,
}

/// What is known of a memory as a whole.
#[derive(Debug, Clone)]
pub struct MemoryStats {
    pub total_documents: usize,
    pub total_tokens: usize,
    pub index_size_bytes: usize,
    pub by_type: TypeCounts,
}

/// How many documents there are of each type.
#[derive(Debug, Clone)]
pub struct TypeCounts {
    /// Each type that occurs, in the order in which it first does, and its count.
    pub counts: Vec<(DocumentType, usize)>,
}

impl TypeCounts {
    /// The count of a type, if it occurs.
    pub fn get(&self, doc_type: &DocumentType) -> (r: Option<usize>)
        ensures
            match r {
                Some(n) => exists|i: int|
                    0 <= i < self.counts@.len() && (#[trigger] self.counts@[i]).0@ == doc_type@ && self.counts@[i].1 == n
                        && forall|k: int| 0 <= k < i ==> (#[trigger] self.counts@[k]).0@ != doc_type@,
                None => forall|i: int| 0 <= i < self.counts@.len() ==> (#[trigger] self.counts@[i]).0@ != doc_type@,
            },
    {
        let mut i: usize = 0;
        while i < self.counts.len()
            invariant
                i <= self.counts@.len(),
                forall|k: int| 0 <= k < i ==> (#[trigger] self.counts@[k]).0@ != doc_type@,
            decreases self.counts@.len() - i,
        {
            if self.counts[i].0.same_as(doc_type) {
                let n: usize = self.counts[i].1;
                assert(self.counts@[i as int].0@ == doc_type@ && self.counts@[i as int].1 == n);
                return Some(n);
            }
            i = i + 1;
        }
        None
    }
}

/// The number of documents of a type.
pub open spec fn kind_count(documents: Seq<Document>, kind: DocumentKind) -> nat
    decreases documents.len(),
{
    if documents.len() == 0 {
        0
    } else {
        kind_count(documents.drop_last(), kind) + if documents.last()@.kind == kind {
            1nat
        } else {
            0
        }
    }
}

/// The counts are those of the documents: each type stands once, with the number of its
/// documents, and none that does not occur.
pub open spec fn are_counts(documents: Seq<Document>, counts: Seq<(DocumentType, usize)>) -> bool {
    &&& forall|i: int, j: int|
        0 <= i < j < counts.len() ==> (#[trigger] counts[i]).0@ != (#[trigger] counts[j]).0@
    &&& forall|i: int|
        0 <= i < counts.len() ==> (#[trigger] counts[i]).1 == kind_count(documents, counts[i].0@) && counts[i].1 > 0
    &&& forall|d: int|
        0 <= d < documents.len() ==> exists|i: int|
            0 <= i < counts.len() && (#[trigger] counts[i]).0@ == (#[trigger] documents[d])@.kind
}

/// Counts the documents of each type.
pub fn count_types(documents: &Vec<Document>) -> (r: TypeCounts)
    ensures
        are_counts(documents@, r.counts@),
{
    let mut counts: Vec<(DocumentType, usize)> = Vec::new();
    let mut d: usize = 0;
    while d < documents.len()
        invariant
            d <= documents@.len(),
            are_counts(documents@.take(d as int), counts@),
        decreases documents@.len() - d,
    {
        let ghost seen = documents@.take(d as int);
        let ghost more = documents@.take(d + 1);
        let ghost kind = documents@[d as int]@.kind;
        let ghost before = counts@;
        assert(more.drop_last() =~= seen);
        let mut k: usize = 0;
        while k < counts.len() && !counts[k].0.same_as(&documents[d].doc_type)
            invariant
                k <= counts@.len(),
                d < documents@.len(),
                counts@ == before,
                kind == documents@[d as int]@.kind,
                forall|i: int| 0 <= i < k ==> (#[trigger] counts@[i]).0@ != kind,
            decreases counts@.len() - k,
        {
            k = k + 1;
        }
        if k < counts.len() {
            let n: usize = counts[k].1;
            proof {
                lemma_kind_count_bound(seen, kind);
            }
            let doc_type: DocumentType = counts[k].0.clone();
            counts.set(k, (doc_type, n + 1));
        } else {
            proof {
                if kind_count(seen, kind) > 0 {
                    lemma_kind_occurs(seen, kind);
                    let e = choose|e: int| 0 <= e < seen.len() && (#[trigger] seen[e])@.kind == kind;
                    let i = choose|i: int| 0 <= i < before.len() && (#[trigger] before[i]).0@ == seen[e]@.kind;
                    assert(before[i].0@ == kind);
                }
            }
            counts.push((documents[d].doc_type.clone(), 1));
        }
        proof {
            assert forall|i: int| 0 <= i < counts@.len() implies (#[trigger] counts@[i]).1 == kind_count(
                more,
                counts@[i].0@,
            ) && counts@[i].1 > 0 by {
                if i < before.len() {
                    assert(before[i].1 == kind_count(seen, before[i].0@));
                    assert(before[i].0@ == counts@[i].0@);
                    if i != k && k < before.len() {
                        assert(before[i].0@ != before[k as int].0@);
                    }
                }
            }
            assert forall|i: int, j: int| 0 <= i < j < counts@.len() implies (#[trigger] counts@[i]).0@ != (
            #[trigger] counts@[j]).0@ by {
                assert(before[i].0@ == counts@[i].0@);
                if j < before.len() {
                    assert(before[j].0@ == counts@[j].0@);
                }
            }
            assert forall|e: int| 0 <= e < more.len() implies exists|i: int|
                0 <= i < counts@.len() && (#[trigger] counts@[i]).0@ == (#[trigger] more[e])@.kind by {
                if e < seen.len() {
                    assert(seen[e] == more[e]);
                    let i = choose|i: int| 0 <= i < before.len() && (#[trigger] before[i]).0@ == seen[e]@.kind;
                    assert(counts@[i].0@ == more[e]@.kind);
                } else {
                    assert(counts@[k as int].0@ == more[e]@.kind);
                }
            }
        }
        d = d + 1;
    }
    assert(documents@.take(d as int) =~= documents@);
    TypeCounts { counts }
}

proof fn lemma_kind_count_bound(documents: Seq<Document>, kind: DocumentKind)
    ensures
        kind_count(documents, kind) <= documents.len(),
    decreases documents.len(),
{
    if documents.len() > 0 {
        lemma_kind_count_bound(documents.drop_last(), kind);
    }
}

proof fn lemma_kind_occurs(documents: Seq<Document>, kind: DocumentKind)
    requires
        kind_count(documents, kind) > 0,
    ensures
        exists|e: int| 0 <= e < documents.len() && (#[trigger] documents[e])@.kind == kind,
    decreases documents.len(),
{
    if documents.last()@.kind == kind {
        assert(documents[documents.len() - 1]@.kind == kind);
    } else {
        let before = documents.drop_last();
        lemma_kind_occurs(before, kind);
        let e = choose|e: int| 0 <= e < before.len() && (#[trigger] before[e])@.kind == kind;
        assert(documents[e]@.kind == kind);
    }
}

/// The number of tokens of all documents.
pub open spec fn token_sum(documents: Seq<Document>) -> nat
    decreases documents.len(),
{
    if documents.len() == 0 {
        0
    } else {
        token_sum(documents.drop_last()) + documents.last().token_count as nat
    }
}

proof fn lemma_token_sum_grows(documents: Seq<Document>, k: int)
    requires
        0 <= k <= documents.len(),
    ensures
        token_sum(documents.take(k)) <= token_sum(documents),
    decreases documents.len() - k,
{
    if k == documents.len() {
        assert(documents.take(k) =~= documents);
    } else {
        lemma_token_sum_grows(documents, k + 1);
        assert(documents.take(k + 1).drop_last() =~= documents.take(k));
    }
}

/// The number of tokens of all documents.
pub fn count_tokens(documents: &Vec<Document>) -> (r: usize)
    requires
        token_sum(documents@) <= usize::MAX,
    ensures
        r == token_sum(documents@),
{
    let mut total: usize = 0;
    let mut i: usize = 0;
    while i < documents.len()
        invariant
            i <= documents@.len(),
            token_sum(documents@) <= usize::MAX,
            total == token_sum(documents@.take(i as int)),
        decreases documents@.len() - i,
    {
        proof {
            assert(documents@.take(i + 1).drop_last() =~= documents@.take(i as int));
            lemma_token_sum_grows(documents@, i + 1);
        }
        total = total + documents[i].token_count;
        i = i + 1;
    }
    assert(documents@.take(i as int) =~= documents@);
    total
}

/// The position of the first document with an identifier.
pub open spec fn is_first_with(documents: Seq<Document>, id: u64, at: int) -> bool {
    &&& 0 <= at < documents.len()
    &&& documents[at].id == id
    &&& forall|k: int| 0 <= k < at ==> (#[trigger] documents[k]).id != id
}

/// Some document has the identifier.
pub open spec fn has_id(documents: Seq<Document>, id: u64) -> bool {
    exists|k: int| 0 <= k < documents.len() && (#[trigger] documents[k]).id == id
}

/// The first document with an identifier.
pub open spec fn first_with(documents: Seq<Document>, id: u64) -> Document {
    documents[choose|at: int| is_first_with(documents, id, at)]
}

/// The first document with an identifier is at the one position that is the first.
pub proof fn lemma_first_with(documents: Seq<Document>, id: u64, at: int)
    requires
        is_first_with(documents, id, at),
    ensures
        first_with(documents, id) == documents[at],
        has_id(documents, id),
{
    let c = choose|c: int| is_first_with(documents, id, c);
    assert(is_first_with(documents, id, c));
    if c < at {
        assert(documents[c].id != id);
    } else if at < c {
        assert(documents[at].id != id);
    }
}

/// Where some document has the identifier, one is the first that has it.
pub proof fn lemma_first_position(documents: Seq<Document>, id: u64)
    requires
        has_id(documents, id),
    ensures
        exists|at: int| is_first_with(documents, id, at),
        first_with(documents, id).id == id,
{
    let k = choose|k: int| 0 <= k < documents.len() && (#[trigger] documents[k]).id == id;
    lemma_first_up_to(documents, id, k);
    let at = choose|at: int| is_first_with(documents, id, at);
    assert(is_first_with(documents, id, at));
}

proof fn lemma_first_up_to(documents: Seq<Document>, id: u64, k: int)
    requires
        0 <= k < documents.len(),
        documents[k].id == id,
    ensures
        exists|at: int| is_first_with(documents, id, at),
    decreases k,
{
    if forall|n: int| 0 <= n < k ==> (#[trigger] documents[n]).id != id {
        assert(is_first_with(documents, id, k));
    } else {
        let n = choose|n: int| 0 <= n < k && (#[trigger] documents[n]).id == id;
        lemma_first_up_to(documents, id, n);
    }
}

/// Where the first document with an identifier stands.
pub fn find_document(documents: &Vec<Document>, id: u64) -> (r: Option<usize>)
    ensures
        match r {
            Some(at) => is_first_with(documents@, id, at as int) && documents@[at as int] == first_with(
                documents@,
                id,
            ) && has_id(documents@, id),
            None => !has_id(documents@, id),
        },
{
    let mut i: usize = 0;
    while i < documents.len()
        invariant
            i <= documents@.len(),
            forall|k: int| 0 <= k < i ==> (#[trigger] documents@[k]).id != id,
        decreases documents@.len() - i,
    {
        if documents[i].id == id {
            proof {
                lemma_first_with(documents@, id, i as int);
            }
            return Some(i);
        }
        i = i + 1;
    }
    None
}

/// The tokens of all documents are those of the parts together, and those of one document its
/// own.
pub proof fn law_token_sum_adds_up(a: Seq<Document>, b: Seq<Document>, d: Document)
    ensures
        token_sum(a + b) == token_sum(a) + token_sum(b),
        token_sum(seq![d]) == d.token_count,
    decreases b.len(),
{
    if b.len() == 0 {
        assert(a + b =~= a);
    } else {
        law_token_sum_adds_up(a, b.drop_last(), d);
        assert((a + b).drop_last() =~= a + b.drop_last());
    }
    let one = seq![d];
    assert(one.drop_last() =~= Seq::empty());
    assert(token_sum(one.drop_last()) == 0);
}

/// The count of a type is the number of the documents that are of this type.
pub proof fn law_kind_count(documents: Seq<Document>, kind: DocumentKind)
    ensures
        kind_count(documents, kind) == documents.filter(|d: Document| d@.kind == kind).len(),
    decreases documents.len(),
{
    reveal(Seq::filter);
    if documents.len() > 0 {
        law_kind_count(documents.drop_last(), kind);
    }
}

/// Every type that occurs has one count, which is the number of its documents, and no other has
/// any.
pub proof fn law_counts(documents: Seq<Document>, counts: Seq<(DocumentType, usize)>, kind: DocumentKind)
    requires
        are_counts(documents, counts),
    ensures
        forall|i: int, j: int|
            0 <= i < counts.len() && 0 <= j < counts.len() && (#[trigger] counts[i]).0@ == kind && (
            #[trigger] counts[j]).0@ == kind ==> i == j,
        forall|i: int|
            0 <= i < counts.len() && (#[trigger] counts[i]).0@ == kind ==> counts[i].1 == documents.filter(
                |d: Document| d@.kind == kind,
            ).len() && counts[i].1 > 0,
        (exists|d: int| 0 <= d < documents.len() && (#[trigger] documents[d])@.kind == kind) ==> exists|i: int|
            0 <= i < counts.len() && (#[trigger] counts[i]).0@ == kind,
{
    law_kind_count(documents, kind);
    assert forall|i: int, j: int|
        0 <= i < counts.len() && 0 <= j < counts.len() && (#[trigger] counts[i]).0@ == kind && (
        #[trigger] counts[j]).0@ == kind implies i == j by {
        if i < j {
            assert(counts[i].0@ != counts[j].0@);
        }
        if j < i {
            assert(counts[j].0@ != counts[i].0@);
        }
    }
    if exists|d: int| 0 <= d < documents.len() && (#[trigger] documents[d])@.kind == kind {
        let d = choose|d: int| 0 <= d < documents.len() && (#[trigger] documents[d])@.kind == kind;
        let i = choose|i: int| 0 <= i < counts.len() && (#[trigger] counts[i]).0@ == documents[d]@.kind;
        assert(counts[i].0@ == kind);
    }
}

/// A new document holds its content whole, and as its preview the first two hundred characters of it,
/// or all where there are fewer. It has no source, no metadata and no tokens yet.
pub proof fn law_new_document(id: u64, kind: DocumentKind, content: Seq<char>, timestamp: u64)
    ensures
        ({
            let d = new_document(id, kind, content, timestamp);
            &&& d.id == id && d.kind == kind && d.timestamp == timestamp
            &&& d.content == content
            &&& content.len() <= 200 ==> d.content_preview == content
            &&& content.len() >= 200 ==> d.content_preview == content.subrange(0, 200)
            &&& d.source_path is None && d.token_count == 0
            &&& forall|key: Seq<char>| !#[trigger] d.metadata.dom().contains(key)
        }),
{
    let d = new_document(id, kind, content, timestamp);
    if content.len() <= 200 {
        assert(d.content_preview =~= content);
    }
    if content.len() >= 200 {
        assert(d.content_preview =~= content.subrange(0, 200));
    }
}

/// The document with an identifier is found where there is one, and it is the first of them.
pub proof fn law_first_with(documents: Seq<Document>, id: u64)
    ensures
        has_id(documents, id) <==> exists|k: int| 0 <= k < documents.len() && (#[trigger] documents[k]).id == id,
        has_id(documents, id) ==> exists|at: int|
            {
                &&& 0 <= at < documents.len()
                &&& #[trigger] documents[at] == first_with(documents, id)
                &&& documents[at].id == id
                &&& forall|k: int| 0 <= k < at ==> (#[trigger] documents[k]).id != id
            },
{
    if has_id(documents, id) {
        lemma_first_position(documents, id);
        let at = choose|at: int| is_first_with(documents, id, at);
        lemma_first_with(documents, id, at);
        assert(documents[at] == first_with(documents, id));
    }
}

} // verus!
