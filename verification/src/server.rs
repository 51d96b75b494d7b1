//! The tools of the memory server: what is asked, what is done, and what is answered.
use crate::document::{DocumentKind, DocumentType, MemoryStats, RecallResult, SyncStats};
use crate::error::AgentMemoryError;
use crate::persistent::slice_text;
use crate::scalar::Scalar;
use crate::text::{decimal, decimal_text, first_chars, holds, leading_chars, lemma_holds, lemma_holds_around, same_text};
use vstd::prelude::*;
use vstd::utf8::encode_utf8;

verus! {

/// How many results a recall gives where no number is asked for.
pub const DEFAULT_TOP_K: usize = 5;

/// How many characters of an ingested text the answer shows.
pub const ANSWER_PREVIEW_CHARS: usize = 80;

/// What to ingest: files that match a pattern, or a file, or a text.
#[derive(Debug, Default)]
pub struct IngestParams {
    /// A text to ingest.
    pub content: Option<String>,
    /// The path of a file to ingest.
    pub path: Option<String>,
    /// A pattern that matches the files to ingest.
    pub glob: Option<String>,
    /// The type of the documents.
    pub doc_type: Option<String>,
    /// The project whose memory it is.
    pub project_dir: Option<String>,
}

/// What to recall.
#[derive(Debug)]
pub struct RecallParams {
    /// What to look for.
    pub query: String,
    /// How many results to give.
    pub top_k: Option<usize>,
    /// The types of documents to look for.
    pub doc_types: Option<Vec<String>>,
    /// The project whose memory it is.
    pub project_dir: Option<String>,
}

/// What to synchronize.
#[derive(Debug, Default)]
pub struct SyncParams {
    /// The project whose memory it is.
    pub project_dir: Option<String>,
}

/// What to give statistics of.
#[derive(Debug, Default)]
pub struct StatsParams {
    /// The project whose memory it is.
    pub project_dir: Option<String>,
}

/// The type of documents where none is asked for.
pub fn default_doc_type() -> (r: Option<String>)
    ensures
        r matches Some(name) && name@ == "Custom"@,
{
    Some(String::from_str("Custom"))
}

/// The number of results where none is asked for.
pub fn default_top_k() -> (r: Option<usize>)
    ensures
        r == Some(DEFAULT_TOP_K),
{
    Some(DEFAULT_TOP_K)
}

/// The type with a name. A name that stands for no type names a custom one.
pub open spec fn kind_named(name: Seq<char>) -> DocumentKind {
    if name == "Plan"@ {
        DocumentKind::Plan
    } else if name == "Memory"@ {
        DocumentKind::Memory
    } else if name == "RCA"@ {
        DocumentKind::RCA
    } else if name == "CommitContext"@ {
        DocumentKind::CommitContext
    } else {
        DocumentKind::Custom(name)
    }
}

/// The type with a name.
pub fn parse_doc_type(s: &str) -> (r: DocumentType)
    ensures
        r@ == kind_named(s@),
{
    if same_text(s, "Plan") {
        DocumentType::Plan
    } else if same_text(s, "Memory") {
        DocumentType::Memory
    } else if same_text(s, "RCA") {
        DocumentType::RCA
    } else if same_text(s, "CommitContext") {
        DocumentType::CommitContext
    } else {
        DocumentType::Custom(String::from_str(s))
    }
}

/// The project that is meant: the one asked for, or else the current directory, or else a
/// dot where that is not known.
pub fn resolve_project_dir(project_dir: Option<&str>, current_dir: Option<&str>) -> (r: String)
    ensures
        r@ == match project_dir {
            Some(given) => given@,
            None => match current_dir {
                Some(here) => here@,
                None => "."@,
            },
        },
{
    match project_dir {
        Some(given) => String::from_str(given),
        None => match current_dir {
            Some(here) => String::from_str(here),
            None => String::from_str("."),
        },
    }
}

/// The type of what is ingested: the one named, or "Custom".
pub open spec fn asked_kind(params: IngestParams) -> DocumentKind {
    match params.doc_type {
        Some(name) => kind_named(name@),
        None => kind_named("Custom"@),
    }
}

/// The answer to a text that was ingested.
pub open spec fn text_answer(id: u64, content: Seq<char>) -> Seq<char> {
    "Ingested text (doc id: "@ + decimal(id as nat) + ", "@ + decimal(encode_utf8(content).len() as usize as nat)
        + " chars): \""@ + leading_chars(content, ANSWER_PREVIEW_CHARS as int) + "...\""@
}

/// A text may be ingested, with this type and source: it is what `read` gave for the path, which
/// is then its source, or, where there is no path, the content itself, without a source. Where
/// there is a pattern no text is.
pub open spec fn may_ingest<R: FnOnce(&str) -> Result<String, String>>(
    params: IngestParams,
    read: R,
    text: Seq<char>,
    kind: DocumentKind,
    source: Option<Seq<char>>,
) -> bool {
    &&& params.glob is None
    &&& kind == asked_kind(params)
    &&& match (params.path, params.content) {
        (Some(path), _) => source == Some(path@) && exists|p: &str, content: String|
            p@ == path@ && content@ == text && #[trigger] read.ensures((p,), Ok(content)),
        (None, Some(content)) => source is None && text == content@,
        (None, None) => false,
    }
}

/// Ingests what is asked for and gives the answer. A pattern goes before a path, and a path
/// before a text.
///
/// `ingest_glob` ingests the files that match a pattern, `read` reads a file, and `ingest`
/// ingests a text that may have a source.
pub fn memory_ingest<
    G: FnOnce(&str, DocumentType) -> Result<usize, AgentMemoryError>,
    R: FnOnce(&str) -> Result<String, String>,
    I: FnOnce(&str, DocumentType, Option<&str>) -> Result<u64, AgentMemoryError>,
>(params: &IngestParams, ingest_glob: G, read: R, ingest: I) -> (r: Result<String, String>)
    requires
        forall|pattern: &str, t: DocumentType|
            (params.glob matches Some(glob) && pattern@ == glob@ && t@ == asked_kind(*params))
                ==> #[trigger] ingest_glob.requires((pattern, t)),
        forall|p: &str|
            params.glob is None && (params.path matches Some(path) && p@ == path@) ==> #[trigger] read.requires((p,)),
        forall|text: &str, t: DocumentType, source: Option<&str>|
            may_ingest(*params, read, text@, t@, slice_text(source)) ==> #[trigger] ingest.requires((text, t, source)),
    ensures
        match (params.glob, params.path, params.content) {
            (Some(glob), _, _) => exists|pattern: &str, t: DocumentType, done: Result<usize, AgentMemoryError>|
                #![trigger ingest_glob.ensures((pattern, t), done)]
                {
                    &&& pattern@ == glob@
                    &&& t@ == asked_kind(*params)
                    &&& ingest_glob.ensures((pattern, t), done)
                    &&& match done {
                        Ok(count) => r matches Ok(answer) && answer@ == "Ingested "@ + decimal(count as nat)
                            + " files matching '"@ + glob@ + "'"@,
                        Err(e) => r matches Err(answer) && answer@ == "Glob ingest failed: "@ + e.text(),
                    }
                },
            (None, Some(path), _) => exists|p: &str, outcome: Result<String, String>|
                #![trigger read.ensures((p,), outcome)]
                {
                    &&& p@ == path@
                    &&& read.ensures((p,), outcome)
                    &&& match outcome {
                        Ok(content) => exists|
                            text: &str,
                            t: DocumentType,
                            source: &str,
                            done: Result<u64, AgentMemoryError>,
                        |
                            #![trigger ingest.ensures((text, t, Some(source)), done)]
                            {
                                &&& text@ == content@
                                &&& t@ == asked_kind(*params)
                                &&& source@ == path@
                                &&& ingest.ensures((text, t, Some(source)), done)
                                &&& match done {
                                    Ok(id) => r matches Ok(answer) && answer@ == "Ingested file '"@ + path@
                                        + "' (doc id: "@ + decimal(id as nat) + ")"@,
                                    Err(e) => r matches Err(answer) && answer@ == "Ingest failed: "@ + e.text(),
                                }
                            },
                        Err(m) => r matches Err(answer) && answer@ == "Failed to read file '"@ + path@ + "': "@ + m@,
                    }
                },
            (None, None, Some(content)) => exists|text: &str, t: DocumentType, done: Result<u64, AgentMemoryError>|
                #![trigger ingest.ensures((text, t, None), done)]
                {
                    &&& text@ == content@
                    &&& t@ == asked_kind(*params)
                    &&& ingest.ensures((text, t, None), done)
                    &&& match done {
                        Ok(id) => r matches Ok(answer) && answer@ == text_answer(id, content@),
                        Err(e) => r matches Err(answer) && answer@ == "Ingest failed: "@ + e.text(),
                    }
                },
            (None, None, None) => r matches Err(answer) && answer@
                == "No content, path, or glob provided. Supply at least one."@,
        },
{
    let doc_type: DocumentType = match &params.doc_type {
        Some(name) => parse_doc_type(name.as_str()),
        None => parse_doc_type("Custom"),
    };
    if let Some(glob) = &params.glob {
        let pattern: &str = glob.as_str();
        let ghost t = doc_type;
        let done: Result<usize, AgentMemoryError> = ingest_glob(pattern, doc_type);
        assert(ingest_glob.ensures((pattern, t), done));
        return match done {
            Ok(count) => {
                let mut answer: String = String::from_str("Ingested ");
                answer.append(decimal_text(count as u64).as_str());
                answer.append(" files matching '");
                answer.append(pattern);
                answer.append("'");
                Ok(answer)
            },
            Err(e) => Err(String::from_str("Glob ingest failed: ").concat(e.message().as_str())),
        };
    }
    if let Some(path) = &params.path {
        let p: &str = path.as_str();
        let outcome: Result<String, String> = read(p);
        assert(read.ensures((p,), outcome));
        return match outcome {
            Ok(content) => {
                let text: &str = content.as_str();
                let ghost t = doc_type;
                let done: Result<u64, AgentMemoryError> = ingest(text, doc_type, Some(p));
                assert(ingest.ensures((text, t, Some(p)), done));
                match done {
                    Ok(id) => {
                        let mut answer: String = String::from_str("Ingested file '");
                        answer.append(p);
                        answer.append("' (doc id: ");
                        answer.append(decimal_text(id).as_str());
                        answer.append(")");
                        Ok(answer)
                    },
                    Err(e) => Err(String::from_str("Ingest failed: ").concat(e.message().as_str())),
                }
            },
            Err(m) => {
                let mut answer: String = String::from_str("Failed to read file '");
                answer.append(p);
                answer.append("': ");
                answer.append(m.as_str());
                Err(answer)
            },
        };
    }
    if let Some(content) = &params.content {
        let text: &str = content.as_str();
        let ghost t = doc_type;
        let done: Result<u64, AgentMemoryError> = ingest(text, doc_type, None);
        assert(ingest.ensures((text, t, None), done));
        return match done {
            Ok(id) => {
                let mut answer: String = String::from_str("Ingested text (doc id: ");
                answer.append(decimal_text(id).as_str());
                answer.append(", ");
                answer.append(decimal_text(text.len() as u64).as_str());
                answer.append(" chars): \"");
                answer.append(first_chars(text, ANSWER_PREVIEW_CHARS).as_str());
                answer.append("...\"");
                Ok(answer)
            },
            Err(e) => Err(String::from_str("Ingest failed: ").concat(e.message().as_str())),
        };
    }
    Err(String::from_str("No content, path, or glob provided. Supply at least one."))
}

/// A text as Rust's `Debug` writes it: in quotation marks, with special characters escaped.
pub uninterp spec fn quoted(s: Seq<char>) -> Seq<char>;

/// `std`'s `Debug` for `str`: the text in quotation marks, with special characters escaped.
#[verifier::external_body]
fn quote(s: &str) -> (r: String)
    ensures
        r@ == quoted(s@),
{
    format!("{:?}", s)
}

/// How a type is shown.
pub open spec fn kind_shown(kind: DocumentKind) -> Seq<char> {
    match kind {
        DocumentKind::Plan => "Plan"@,
        DocumentKind::Memory => "Memory"@,
        DocumentKind::RCA => "RCA"@,
        DocumentKind::CommitContext => "CommitContext"@,
        DocumentKind::ConversationTurn => "ConversationTurn"@,
        DocumentKind::ToolResult => "ToolResult"@,
        DocumentKind::Custom(name) => "Custom("@ + quoted(name) + ")"@,
    }
}

/// How a type is shown.
pub fn show_type(doc_type: &DocumentType) -> (r: String)
    ensures
        r@ == kind_shown(doc_type@),
{
    match doc_type {
        DocumentType::Plan => String::from_str("Plan"),
        DocumentType::Memory => String::from_str("Memory"),
        DocumentType::RCA => String::from_str("RCA"),
        DocumentType::CommitContext => String::from_str("CommitContext"),
        DocumentType::ConversationTurn => String::from_str("ConversationTurn"),
        DocumentType::ToolResult => String::from_str("ToolResult"),
        DocumentType::Custom(name) => {
            let mut shown: String = String::from_str("Custom(");
            shown.append(quote(name.as_str()).as_str());
            shown.append(")");
            shown
        },
    }
}

/// The part of the answer on one result, where `score` is how its score is shown.
pub open spec fn result_entry(number: nat, r: RecallResult, score: Seq<char>) -> Seq<char> {
    "--- Result "@ + decimal(number) + " (score: "@ + score + ", type: "@ + kind_shown(r@.document.kind)
        + ") ---\nSource: "@ + match r@.document.source_path {
        Some(path) => path,
        None => "(inline)"@,
    } + "\n"@ + r@.document.content + "\n\n"@
}

/// The parts of the answer on the first `n` results.
pub open spec fn result_entries(results: Seq<RecallResult>, scores: Seq<Seq<char>>, n: nat) -> Seq<char>
    decreases n,
{
    if n == 0 {
        Seq::empty()
    } else {
        result_entries(results, scores, (n - 1) as nat) + result_entry(n, results[n - 1], scores[n - 1])
    }
}

/// `scores` is how the scores of the results are shown.
pub open spec fn are_shown<F: Fn(Scalar) -> String>(
    results: Seq<RecallResult>,
    show_score: F,
    scores: Seq<Seq<char>>,
) -> bool {
    &&& scores.len() == results.len()
    &&& forall|i: int| 0 <= i < scores.len() ==> is_shown(results[i].combined_score, show_score, #[trigger] scores[i])
}

/// `shown` is how a score is shown.
pub open spec fn is_shown<F: Fn(Scalar) -> String>(score: Scalar, show_score: F, shown: Seq<char>) -> bool {
    exists|text: String| text@ == shown && #[trigger] show_score.ensures((score,), text)
}

/// The answer that lists results. `show_score` shows a score with three decimals.
pub fn recall_answer<F: Fn(Scalar) -> String>(results: &Vec<RecallResult>, show_score: &F) -> (r: String)
    requires
        forall|s: Scalar| #[trigger] show_score.requires((s,)),
    ensures
        results@.len() == 0 ==> r@ == "No relevant documents found."@,
        results@.len() > 0 ==> exists|scores: Seq<Seq<char>>| #[trigger]
            are_shown(results@, *show_score, scores) && r@ == "Found "@ + decimal(results@.len() as usize as nat)
                + " relevant documents:\n\n"@ + result_entries(results@, scores, results@.len()),
        forall|i: int| 0 <= i < results@.len() ==> holds(r@, (#[trigger] results@[i]).document.content@),
{
    if results.len() == 0 {
        return String::from_str("No relevant documents found.");
    }
    let mut answer: String = String::from_str("Found ");
    answer.append(decimal_text(results.len() as u64).as_str());
    answer.append(" relevant documents:\n\n");
    let ghost head = answer@;
    let ghost mut scores: Seq<Seq<char>> = Seq::empty();
    assert(answer@ =~= head + result_entries(results@, scores, 0));
    let mut i: usize = 0;
    while i < results.len()
        invariant
            i <= results@.len(),
            forall|s: Scalar| #[trigger] show_score.requires((s,)),
            scores.len() == i,
            forall|k: int|
                0 <= k < i ==> is_shown(results@[k].combined_score, *show_score, #[trigger] scores[k]),
            answer@ == head + result_entries(results@, scores, i as nat),
        decreases results@.len() - i,
    {
        let one: &RecallResult = &results[i];
        let score: String = show_score(one.combined_score);
        let source: &str = match &one.document.source_path {
            Some(path) => path.as_str(),
            None => "(inline)",
        };
        let ghost before = answer@;
        let ghost seen = scores;
        answer.append("--- Result ");
        answer.append(decimal_text(i as u64 + 1).as_str());
        answer.append(" (score: ");
        answer.append(score.as_str());
        answer.append(", type: ");
        answer.append(show_type(&one.document.doc_type).as_str());
        answer.append(") ---\nSource: ");
        answer.append(source);
        answer.append("\n");
        answer.append(one.document.content.as_str());
        answer.append("\n\n");
        proof {
            assert(is_shown(one.combined_score, *show_score, score@));
            scores = scores.push(score@);
            lemma_entries_prefix(results@, seen, scores, i as nat);
            let entry = result_entry((i + 1) as nat, *one, score@);
            assert(answer@ =~= before + entry);
            assert(answer@ =~= head + result_entries(results@, scores, (i + 1) as nat));
            assert forall|k: int| 0 <= k < i + 1 implies is_shown(
                results@[k].combined_score,
                *show_score,
                #[trigger] scores[k],
            ) by {
                if k < i {
                    assert(scores[k] == seen[k]);
                }
            }
        }
        i = i + 1;
    }
    assert(are_shown(results@, *show_score, scores));
    proof {
        law_results_are_shown(results@, *show_score, scores, answer@);
    }
    answer
}

proof fn lemma_entries_prefix(results: Seq<RecallResult>, a: Seq<Seq<char>>, b: Seq<Seq<char>>, n: nat)
    requires
        n <= a.len(),
        n <= b.len(),
        forall|k: int| 0 <= k < n ==> a[k] == b[k],
    ensures
        result_entries(results, a, n) == result_entries(results, b, n),
    decreases n,
{
    if n > 0 {
        lemma_entries_prefix(results, a, b, (n - 1) as nat);
    }
}

/// The types with the given names.
pub open spec fn kinds_named(names: Seq<String>) -> Seq<DocumentKind> {
    names.map_values(|name: String| kind_named(name@))
}

/// The types of documents.
pub open spec fn kinds_of(types: Seq<DocumentType>) -> Seq<DocumentKind> {
    types.map_values(|t: DocumentType| t@)
}

/// The names of types that are asked for, none where they are not given.
pub open spec fn asked_types(params: RecallParams) -> Seq<DocumentKind> {
    match params.doc_types {
        Some(names) => kinds_named(names@),
        None => Seq::empty(),
    }
}

/// How many results are asked for.
pub open spec fn asked_count(params: RecallParams) -> usize {
    match params.top_k {
        Some(n) => n,
        None => DEFAULT_TOP_K,
    }
}

/// Recalls what is asked for and gives the answer.
///
/// `recall` recalls so many documents of the given types, or of any where none is given, and
/// `show_score` shows a score with three decimals.
pub fn memory_recall<
    C: FnOnce(&str, usize, &Vec<DocumentType>) -> Result<Vec<RecallResult>, AgentMemoryError>,
    F: Fn(Scalar) -> String,
>(params: &RecallParams, recall: C, show_score: &F) -> (r: Result<String, String>)
    requires
        forall|query: &str, types: &Vec<DocumentType>|
            query@ == params.query@ && kinds_of(types@) == asked_types(*params) ==> #[trigger] recall.requires(
                (query, asked_count(*params), types),
            ),
        forall|s: Scalar| #[trigger] show_score.requires((s,)),
    ensures
        exists|query: &str, types: &Vec<DocumentType>, done: Result<Vec<RecallResult>, AgentMemoryError>|
            #![trigger recall.ensures((query, asked_count(*params), types), done)]
            {
                &&& query@ == params.query@
                &&& kinds_of(types@) == asked_types(*params)
                &&& recall.ensures((query, asked_count(*params), types), done)
                &&& match done {
                    Ok(results) => r matches Ok(answer) && {
                        &&& results@.len() == 0 ==> answer@ == "No relevant documents found."@
                        &&& results@.len() > 0 ==> exists|scores: Seq<Seq<char>>| #[trigger]
                            are_shown(results@, *show_score, scores) && answer@ == "Found "@ + decimal(
                                results@.len() as usize as nat,
                            ) + " relevant documents:\n\n"@ + result_entries(results@, scores, results@.len())
                    },
                    Err(e) => r matches Err(answer) && answer@ == "Recall failed: "@ + e.text(),
                }
            },
{
    let top_k: usize = match params.top_k {
        Some(n) => n,
        None => DEFAULT_TOP_K,
    };
    let mut types: Vec<DocumentType> = Vec::new();
    if let Some(names) = &params.doc_types {
        let mut i: usize = 0;
        while i < names.len()
            invariant
                i <= names@.len(),
                kinds_of(types@) =~= kinds_named(names@.take(i as int)),
            decreases names@.len() - i,
        {
            let ghost before = kinds_of(types@);
            types.push(parse_doc_type(names[i].as_str()));
            proof {
                assert(kinds_of(types@) =~= before.push(kind_named(names@[i as int]@)));
                assert(kinds_named(names@.take(i + 1)) =~= kinds_named(names@.take(i as int)).push(
                    kind_named(names@[i as int]@),
                ));
            }
            i = i + 1;
        }
        assert(names@.take(i as int) =~= names@);
    }
    assert(kinds_of(types@) =~= asked_types(*params));
    let query: &str = params.query.as_str();
    let done: Result<Vec<RecallResult>, AgentMemoryError> = recall(query, top_k, &types);
    let ghost listed = &types;
    assert(recall.ensures((query, asked_count(*params), listed), done));
    match done {
        Ok(results) => Ok(recall_answer(&results, show_score)),
        Err(e) => Err(String::from_str("Recall failed: ").concat(e.message().as_str())),
    }
}

/// The answer to a synchronization.
pub open spec fn sync_text(stats: SyncStats) -> Seq<char> {
    "Sync complete: "@ + decimal(stats.added as nat) + " added, "@ + decimal(stats.updated as nat) + " updated, "@
        + decimal(stats.removed as nat) + " removed, "@ + decimal(stats.unchanged as nat) + " unchanged"@
}

/// The answer to a synchronization.
pub fn sync_answer(done: &Result<SyncStats, AgentMemoryError>) -> (r: Result<String, String>)
    ensures
        match *done {
            Ok(stats) => r matches Ok(answer) && answer@ == sync_text(stats),
            Err(e) => r matches Err(answer) && answer@ == "Sync failed: "@ + e.text(),
        },
{
    match done {
        Ok(stats) => {
            let mut answer: String = String::from_str("Sync complete: ");
            answer.append(decimal_text(stats.added as u64).as_str());
            answer.append(" added, ");
            answer.append(decimal_text(stats.updated as u64).as_str());
            answer.append(" updated, ");
            answer.append(decimal_text(stats.removed as u64).as_str());
            answer.append(" removed, ");
            answer.append(decimal_text(stats.unchanged as u64).as_str());
            answer.append(" unchanged");
            Ok(answer)
        },
        Err(e) => Err(String::from_str("Sync failed: ").concat(e.message().as_str())),
    }
}

/// The lines on the first `n` types.
pub open spec fn type_lines(counts: Seq<(DocumentType, usize)>, n: nat) -> Seq<char>
    decreases n,
{
    if n == 0 {
        Seq::empty()
    } else {
        type_lines(counts, (n - 1) as nat) + "  "@ + kind_shown(counts[n - 1].0@) + ": "@ + decimal(
            counts[n - 1].1 as nat,
        ) + "\n"@
    }
}

/// The answer that gives the statistics of a project's memory.
pub open spec fn stats_text(project_dir: Seq<char>, stats: MemoryStats) -> Seq<char> {
    "Memory stats for project: "@ + project_dir + "\nTotal documents: "@ + decimal(stats.total_documents as nat)
        + "\nTotal tokens (approx): "@ + decimal(stats.total_tokens as nat) + "\nIndex size: "@ + decimal(
        stats.index_size_bytes as nat,
    ) + " bytes\nBy type:\n"@ + if stats.by_type.counts@.len() == 0 {
        "  (none)\n"@
    } else {
        type_lines(stats.by_type.counts@, stats.by_type.counts@.len())
    }
}

/// The answer that gives the statistics of a project's memory.
pub fn stats_answer(project_dir: &str, stats: &MemoryStats) -> (r: String)
    ensures
        r@ == stats_text(project_dir@, *stats),
{
    let counts: &Vec<(DocumentType, usize)> = &stats.by_type.counts;
    let mut breakdown: String = String::new();
    let mut i: usize = 0;
    while i < counts.len()
        invariant
            i <= counts@.len(),
            breakdown@ == type_lines(counts@, i as nat),
        decreases counts@.len() - i,
    {
        breakdown.append("  ");
        breakdown.append(show_type(&counts[i].0).as_str());
        breakdown.append(": ");
        breakdown.append(decimal_text(counts[i].1 as u64).as_str());
        breakdown.append("\n");
        i = i + 1;
    }
    if counts.len() == 0 {
        breakdown = String::from_str("  (none)\n");
    }
    let mut answer: String = String::from_str("Memory stats for project: ");
    answer.append(project_dir);
    answer.append("\nTotal documents: ");
    answer.append(decimal_text(stats.total_documents as u64).as_str());
    answer.append("\nTotal tokens (approx): ");
    answer.append(decimal_text(stats.total_tokens as u64).as_str());
    answer.append("\nIndex size: ");
    answer.append(decimal_text(stats.index_size_bytes as u64).as_str());
    answer.append(" bytes\nBy type:\n");
    answer.append(breakdown.as_str());
    answer
}

/// The answer where a project's memory could not be opened.
pub fn open_failure(e: &AgentMemoryError) -> (r: String)
    ensures
        r@ == "Failed to open memory: "@ + e.text(),
{
    String::from_str("Failed to open memory: ").concat(e.message().as_str())
}

/// Every result is in the answer: its number, its score and its type stand there, its source, or
/// that it has none, and its whole content. The answer also gives the number of results.
pub proof fn law_results_are_shown<F: Fn(Scalar) -> String>(
    results: Seq<RecallResult>,
    show_score: F,
    scores: Seq<Seq<char>>,
    answer: Seq<char>,
)
    requires
        are_shown(results, show_score, scores),
        answer == "Found "@ + decimal(results.len() as usize as nat) + " relevant documents:\n\n"@ + result_entries(
            results,
            scores,
            results.len(),
        ),
    ensures
        holds(answer, "Found "@ + decimal(results.len() as usize as nat) + " relevant documents:"@),
        forall|i: int|
            0 <= i < results.len() ==> {
                let d = (#[trigger] results[i]).document;
                &&& holds(answer, d.content@)
                &&& holds(answer, "--- Result "@ + decimal((i + 1) as nat) + " (score: "@)
                &&& holds(answer, ", type: "@ + kind_shown(d.doc_type@) + ")"@)
                &&& d.source_path matches Some(path) ==> holds(answer, "Source: "@ + path@ + "\n"@ + d.content@)
                &&& d.source_path is None ==> holds(answer, "Source: (inline)\n"@ + d.content@)
                &&& exists|text: String| #[trigger]
                    show_score.ensures((results[i].combined_score,), text) && holds(answer, "(score: "@ + text@ + ","@)
            },
{
    let head = "Found "@ + decimal(results.len() as usize as nat) + " relevant documents:\n\n"@;
    let n = results.len();
    assert(holds(answer, "Found "@ + decimal(results.len() as usize as nat) + " relevant documents:"@)) by {
        reveal_strlit(" relevant documents:\n\n");
        reveal_strlit(" relevant documents:");
        reveal_strlit("\n\n");
        assert(" relevant documents:\n\n"@ =~= " relevant documents:"@ + "\n\n"@);
        let part = "Found "@ + decimal(results.len() as usize as nat) + " relevant documents:"@;
        let none: Seq<char> = Seq::empty();
        assert(answer =~= none + part + ("\n\n"@ + result_entries(results, scores, n)));
    }
    assert forall|i: int| 0 <= i < results.len() implies {
        let d = (#[trigger] results[i]).document;
        &&& holds(answer, d.content@)
        &&& holds(answer, "--- Result "@ + decimal((i + 1) as nat) + " (score: "@)
        &&& holds(answer, ", type: "@ + kind_shown(d.doc_type@) + ")"@)
        &&& d.source_path matches Some(path) ==> holds(answer, "Source: "@ + path@ + "\n"@ + d.content@)
        &&& d.source_path is None ==> holds(answer, "Source: (inline)\n"@ + d.content@)
        &&& exists|text: String| #[trigger]
            show_score.ensures((results[i].combined_score,), text) && holds(answer, "(score: "@ + text@ + ","@)
    } by {
        let d = results[i].document;
        let entry = result_entry((i + 1) as nat, results[i], scores[i]);
        let (a, b) = lemma_entry_stands(results, scores, i, n);
        assert(answer =~= (head + a) + entry + b);
        lemma_entry_parts((i + 1) as nat, results[i], scores[i]);
        lemma_holds_around(head + a, entry, b, d.content@);
        lemma_holds_around(head + a, entry, b, "--- Result "@ + decimal((i + 1) as nat) + " (score: "@);
        lemma_holds_around(head + a, entry, b, ", type: "@ + kind_shown(d.doc_type@) + ")"@);
        match d.source_path {
            Some(path) => {
                lemma_holds_around(head + a, entry, b, "Source: "@ + path@ + "\n"@ + d.content@);
            },
            None => {
                lemma_holds_around(head + a, entry, b, "Source: (inline)\n"@ + d.content@);
            },
        }
        lemma_holds_around(head + a, entry, b, "(score: "@ + scores[i] + ","@);
        assert(is_shown(results[i].combined_score, show_score, scores[i]));
    }
}

proof fn lemma_entry_stands(results: Seq<RecallResult>, scores: Seq<Seq<char>>, i: int, n: nat) -> (r: (
    Seq<char>,
    Seq<char>,
))
    requires
        0 <= i < n,
    ensures
        result_entries(results, scores, n) == r.0 + result_entry((i + 1) as nat, results[i], scores[i]) + r.1,
    decreases n,
{
    let entry = result_entry((i + 1) as nat, results[i], scores[i]);
    if i == n - 1 {
        let none: Seq<char> = Seq::empty();
        let a = result_entries(results, scores, (n - 1) as nat);
        assert(result_entries(results, scores, n) =~= a + entry + none);
        (a, none)
    } else {
        let (a, b) = lemma_entry_stands(results, scores, i, (n - 1) as nat);
        let last = result_entry(n, results[n - 1], scores[n - 1]);
        assert(result_entries(results, scores, n) =~= a + entry + (b + last));
        (a, b + last)
    }
}

#[verifier::rlimit(40)]
proof fn lemma_entry_parts(number: nat, r: RecallResult, score: Seq<char>)
    ensures
        ({
            let d = r.document;
            let entry = result_entry(number, r, score);
            &&& holds(entry, d.content@)
            &&& holds(entry, "--- Result "@ + decimal(number) + " (score: "@)
            &&& holds(entry, ", type: "@ + kind_shown(d.doc_type@) + ")"@)
            &&& d.source_path matches Some(path) ==> holds(entry, "Source: "@ + path@ + "\n"@ + d.content@)
            &&& d.source_path is None ==> holds(entry, "Source: (inline)\n"@ + d.content@)
            &&& holds(entry, "(score: "@ + score + ","@)
        }),
{
    let d = r.document;
    let entry = result_entry(number, r, score);
    let none: Seq<char> = Seq::empty();
    let source = match r@.document.source_path {
        Some(path) => path,
        None => "(inline)"@,
    };
    let kind = kind_shown(r@.document.kind);
    let first = "--- Result "@ + decimal(number) + " (score: "@;
    let middle = ", type: "@ + kind + ") ---\nSource: "@;
    let last = source + "\n"@ + d.content@ + "\n\n"@;
    assert(entry =~= first + score + middle + last);
    assert(entry =~= (first + score + middle + source + "\n"@) + d.content@ + "\n\n"@);
    assert(entry =~= none + first + (score + middle + last));
    reveal_strlit(") ---\nSource: ");
    reveal_strlit(")");
    reveal_strlit(" ---\nSource: ");
    reveal_strlit(" ---\n");
    reveal_strlit("Source: ");
    reveal_strlit("Source: (inline)\n");
    reveal_strlit("(inline)");
    reveal_strlit("\n");
    reveal_strlit(" (score: ");
    reveal_strlit("(score: ");
    reveal_strlit(" ");
    reveal_strlit(", type: ");
    reveal_strlit(",");
    reveal_strlit(" type: ");
    assert(") ---\nSource: "@ =~= ")"@ + " ---\nSource: "@);
    let shown = ", type: "@ + kind + ")"@;
    assert(entry =~= (first + score) + shown + (" ---\nSource: "@ + last));
    assert(") ---\nSource: "@ =~= (")"@ + " ---\n"@) + "Source: "@);
    let before = first + score + ", type: "@ + kind + (")"@ + " ---\n"@);
    let part = "Source: "@ + source + "\n"@ + d.content@;
    assert(entry =~= before + part + "\n\n"@);
    if d.source_path is None {
        assert("Source: (inline)\n"@ =~= "Source: "@ + "(inline)"@ + "\n"@);
        assert("Source: (inline)\n"@ + d.content@ =~= part);
    }
    assert(" (score: "@ =~= " "@ + "(score: "@);
    assert(", type: "@ =~= ","@ + " type: "@);
    let begun = "--- Result "@ + decimal(number) + " "@;
    let graded = "(score: "@ + score + ","@;
    assert(entry =~= begun + graded + (" type: "@ + kind + ") ---\nSource: "@ + last));
}

/// The answer to an ingested text gives its identifier and shows it: a short one whole, and of a
/// longer one the first eighty characters.
pub proof fn law_text_answer(id: u64, content: Seq<char>)
    ensures
        holds(text_answer(id, content), "(doc id: "@ + decimal(id as nat) + ", "@),
        holds(text_answer(id, content), decimal(encode_utf8(content).len() as usize as nat) + " chars)"@),
        content.len() <= 80 ==> holds(text_answer(id, content), "\""@ + content + "...\""@),
        content.len() >= 80 ==> holds(text_answer(id, content), "\""@ + content.subrange(0, 80) + "...\""@),
{
    let answer = text_answer(id, content);
    let none: Seq<char> = Seq::empty();
    let size = decimal(encode_utf8(content).len() as usize as nat);
    let shown = leading_chars(content, 80);
    reveal_strlit("Ingested text (doc id: ");
    reveal_strlit("Ingested text ");
    reveal_strlit("(doc id: ");
    reveal_strlit(" chars): \"");
    reveal_strlit(" chars)");
    reveal_strlit(": \"");
    reveal_strlit(" chars): ");
    reveal_strlit("\"");
    assert("Ingested text (doc id: "@ =~= "Ingested text "@ + "(doc id: "@);
    assert(" chars): \""@ =~= " chars)"@ + ": \""@);
    assert(" chars): \""@ =~= " chars): "@ + "\""@);
    let tail = shown + "...\""@;
    let a = "(doc id: "@ + decimal(id as nat) + ", "@;
    assert(answer =~= "Ingested text "@ + a + (size + " chars): \""@ + tail));
    let b = size + " chars)"@;
    assert(answer =~= ("Ingested text (doc id: "@ + decimal(id as nat) + ", "@) + b + (": \""@ + tail));
    let c = "\""@ + shown + "...\""@;
    let before = "Ingested text (doc id: "@ + decimal(id as nat) + ", "@ + size + " chars): "@;
    assert(answer =~= before + c + none);
    if content.len() <= 80 {
        assert(shown =~= content);
    }
    if content.len() >= 80 {
        assert(shown =~= content.subrange(0, 80));
    }
}

/// The answer to a synchronization gives each number with what it counts.
#[verifier::rlimit(40)]
pub proof fn law_sync_text(stats: SyncStats)
    ensures
        holds(sync_text(stats), ": "@ + decimal(stats.added as nat) + " added,"@),
        holds(sync_text(stats), ", "@ + decimal(stats.updated as nat) + " updated,"@),
        holds(sync_text(stats), ", "@ + decimal(stats.removed as nat) + " removed,"@),
        holds(sync_text(stats), ", "@ + decimal(stats.unchanged as nat) + " unchanged"@),
{
    let text = sync_text(stats);
    let none: Seq<char> = Seq::empty();
    reveal_strlit("Sync complete: ");
    reveal_strlit("Sync complete");
    reveal_strlit(": ");
    reveal_strlit(" added, ");
    reveal_strlit(" added,");
    reveal_strlit(" added");
    reveal_strlit(" updated, ");
    reveal_strlit(" updated,");
    reveal_strlit(" updated");
    reveal_strlit(" removed, ");
    reveal_strlit(" removed,");
    reveal_strlit(" removed");
    reveal_strlit(", ");
    reveal_strlit(" ");
    assert("Sync complete: "@ =~= "Sync complete"@ + ": "@);
    assert(" added, "@ =~= " added,"@ + " "@);
    assert(" added, "@ =~= " added"@ + ", "@);
    assert(" updated, "@ =~= " updated,"@ + " "@);
    assert(" updated, "@ =~= " updated"@ + ", "@);
    assert(" removed, "@ =~= " removed,"@ + " "@);
    assert(" removed, "@ =~= " removed"@ + ", "@);
    let added = decimal(stats.added as nat);
    let updated = decimal(stats.updated as nat);
    let removed = decimal(stats.removed as nat);
    let unchanged = decimal(stats.unchanged as nat);
    let a = ": "@ + added + " added,"@;
    assert(text =~= "Sync complete"@ + a + (" "@ + updated + " updated, "@ + removed + " removed, "@ + unchanged
        + " unchanged"@));
    let b = ", "@ + updated + " updated,"@;
    assert(text =~= ("Sync complete: "@ + added + " added"@) + b + (" "@ + removed + " removed, "@ + unchanged
        + " unchanged"@));
    let c = ", "@ + removed + " removed,"@;
    assert(text =~= ("Sync complete: "@ + added + " added, "@ + updated + " updated"@) + c + (" "@ + unchanged
        + " unchanged"@));
    let d = ", "@ + unchanged + " unchanged"@;
    assert(text =~= ("Sync complete: "@ + added + " added, "@ + updated + " updated, "@ + removed + " removed"@) + d
        + none);
}

/// The statistics name the project, give each number with what it counts, and have a line for
/// every type with its count.
pub proof fn law_stats_text(project_dir: Seq<char>, stats: MemoryStats)
    ensures
        holds(stats_text(project_dir, stats), "project: "@ + project_dir + "\n"@),
        holds(stats_text(project_dir, stats), "\nTotal documents: "@ + decimal(stats.total_documents as nat) + "\n"@),
        holds(stats_text(project_dir, stats), "\nTotal tokens (approx): "@ + decimal(stats.total_tokens as nat) + "\n"@),
        holds(stats_text(project_dir, stats), "\nIndex size: "@ + decimal(stats.index_size_bytes as nat) + " bytes\n"@),
        forall|i: int|
            0 <= i < stats.by_type.counts@.len() ==> holds(
                stats_text(project_dir, stats),
                "  "@ + kind_shown((#[trigger] stats.by_type.counts@[i]).0@) + ": "@ + decimal(
                    stats.by_type.counts@[i].1 as nat,
                ) + "\n"@,
            ),
{
    let text = stats_text(project_dir, stats);
    let counts = stats.by_type.counts@;
    let lines = if counts.len() == 0 {
        "  (none)\n"@
    } else {
        type_lines(counts, counts.len())
    };
    let documents = decimal(stats.total_documents as nat);
    let tokens = decimal(stats.total_tokens as nat);
    let size = decimal(stats.index_size_bytes as nat);
    lemma_stats_parts(project_dir, documents, tokens, size, lines);
    assert forall|i: int| 0 <= i < counts.len() implies holds(
        text,
        "  "@ + kind_shown((#[trigger] counts[i]).0@) + ": "@ + decimal(counts[i].1 as nat) + "\n"@,
    ) by {
        let line = "  "@ + kind_shown(counts[i].0@) + ": "@ + decimal(counts[i].1 as nat) + "\n"@;
        let (x, y) = lemma_line_stands(counts, i, counts.len());
        let none: Seq<char> = Seq::empty();
        lemma_holds(x, line, y);
        let above = "Memory stats for project: "@ + project_dir + "\nTotal documents: "@ + documents
            + "\nTotal tokens (approx): "@ + tokens + "\nIndex size: "@ + size + " bytes\nBy type:\n"@;
        lemma_holds_around(above, lines, none, line);
        assert(text =~= above + lines + none);
    }
}

#[verifier::rlimit(40)]
proof fn lemma_stats_parts(
    project_dir: Seq<char>,
    documents: Seq<char>,
    tokens: Seq<char>,
    size: Seq<char>,
    lines: Seq<char>,
)
    ensures
        ({
            let text = "Memory stats for project: "@ + project_dir + "\nTotal documents: "@ + documents
                + "\nTotal tokens (approx): "@ + tokens + "\nIndex size: "@ + size + " bytes\nBy type:\n"@ + lines;
            &&& holds(text, "project: "@ + project_dir + "\n"@)
            &&& holds(text, "\nTotal documents: "@ + documents + "\n"@)
            &&& holds(text, "\nTotal tokens (approx): "@ + tokens + "\n"@)
            &&& holds(text, "\nIndex size: "@ + size + " bytes\n"@)
        }),
{
    let text = "Memory stats for project: "@ + project_dir + "\nTotal documents: "@ + documents
        + "\nTotal tokens (approx): "@ + tokens + "\nIndex size: "@ + size + " bytes\nBy type:\n"@ + lines;
    let first = "Memory stats for project: "@ + project_dir;
    let (p, q) = ("\nTotal documents: "@, "\nTotal tokens (approx): "@);
    let (u, v) = ("\nIndex size: "@, " bytes\nBy type:\n"@);
    let (p_rest, q_rest, u_rest) = ("Total documents: "@, "Total tokens (approx): "@, "Index size: "@);
    assert("Memory stats for project: "@ =~= "Memory stats for "@ + "project: "@ && p =~= "\n"@ + p_rest && q =~= "\n"@
        + q_rest && u =~= "\n"@ + u_rest && v =~= " bytes\n"@ + "By type:\n"@) by {
        reveal_strlit("Memory stats for project: ");
        reveal_strlit("Memory stats for ");
        reveal_strlit("project: ");
        reveal_strlit("\nTotal documents: ");
        reveal_strlit("Total documents: ");
        reveal_strlit("\nTotal tokens (approx): ");
        reveal_strlit("Total tokens (approx): ");
        reveal_strlit("\nIndex size: ");
        reveal_strlit("Index size: ");
        reveal_strlit(" bytes\nBy type:\n");
        reveal_strlit(" bytes\n");
        reveal_strlit("By type:\n");
        reveal_strlit("\n");
    }
    let (a, b, c) = (first + p + documents, first + p + documents + q + tokens, first + p + documents + q + tokens + u + size);
    let part = "project: "@ + project_dir + "\n"@;
    assert(first + p =~= "Memory stats for "@ + part + p_rest);
    lemma_holds_before(first + p, documents, part);
    lemma_holds_before(a, q, part);
    lemma_holds_before(a + q, tokens, part);
    lemma_stats_rest(b, u, size, v, lines, part);
    lemma_labelled(first, p, documents, "\n"@, q_rest);
    let part = p + documents + "\n"@;
    lemma_holds_before(a + q, tokens, part);
    lemma_stats_rest(b, u, size, v, lines, part);
    lemma_labelled(a, q, tokens, "\n"@, u_rest);
    let part = q + tokens + "\n"@;
    lemma_holds_before(b + u, size, part);
    lemma_holds_before(c, v, part);
    lemma_holds_before(c + v, lines, part);
    lemma_labelled(b, u, size, " bytes\n"@, "By type:\n"@);
    lemma_holds_before(c + v, lines, u + size + " bytes\n"@);
}

proof fn lemma_holds_before(text: Seq<char>, after: Seq<char>, part: Seq<char>)
    requires
        holds(text, part),
    ensures
        holds(text + after, part),
{
    let none: Seq<char> = Seq::empty();
    lemma_holds_around(none, text, after, part);
    assert(none + text + after =~= text + after);
}

proof fn lemma_stats_rest(
    text: Seq<char>,
    u: Seq<char>,
    size: Seq<char>,
    v: Seq<char>,
    lines: Seq<char>,
    part: Seq<char>,
)
    requires
        holds(text, part),
    ensures
        holds(text + u + size + v + lines, part),
{
    lemma_holds_before(text, u, part);
    lemma_holds_before(text + u, size, part);
    lemma_holds_before(text + u + size, v, part);
    lemma_holds_before(text + u + size + v, lines, part);
}

proof fn lemma_labelled(before: Seq<char>, label: Seq<char>, value: Seq<char>, mark: Seq<char>, after: Seq<char>)
    ensures
        holds(before + label + value + (mark + after), label + value + mark),
{
    let part = label + value + mark;
    assert(before + label + value + (mark + after) =~= before + part + after);
}

proof fn lemma_line_stands(counts: Seq<(DocumentType, usize)>, i: int, n: nat) -> (r: (Seq<char>, Seq<char>))
    requires
        0 <= i < n,
    ensures
        type_lines(counts, n) == r.0 + ("  "@ + kind_shown(counts[i].0@) + ": "@ + decimal(counts[i].1 as nat) + "\n"@)
            + r.1,
    decreases n,
{
    let line = "  "@ + kind_shown(counts[i].0@) + ": "@ + decimal(counts[i].1 as nat) + "\n"@;
    let above = type_lines(counts, (n - 1) as nat);
    if i == n - 1 {
        let none: Seq<char> = Seq::empty();
        assert(type_lines(counts, n) =~= above + line + none);
        (above, none)
    } else {
        let (a, b) = lemma_line_stands(counts, i, (n - 1) as nat);
        let last = "  "@ + kind_shown(counts[n - 1].0@) + ": "@ + decimal(counts[n - 1].1 as nat) + "\n"@;
        assert(type_lines(counts, n) =~= above + last);
        assert(type_lines(counts, n) =~= a + line + (b + last));
        (a, b + last)
    }
}

/// A type that can be asked for by a name of its own is shown by that name, and no other name
/// stands for it. Every other name stands for the custom type of that name.
pub proof fn law_named_types(name: Seq<char>)
    ensures
        kind_named(kind_shown(DocumentKind::Plan)) == DocumentKind::Plan,
        kind_named(kind_shown(DocumentKind::Memory)) == DocumentKind::Memory,
        kind_named(kind_shown(DocumentKind::RCA)) == DocumentKind::RCA,
        kind_named(kind_shown(DocumentKind::CommitContext)) == DocumentKind::CommitContext,
        kind_named(name) is Custom || kind_shown(kind_named(name)) == name,
        kind_named(name) matches DocumentKind::Custom(other) ==> other == name,
        !(kind_named(name) is ConversationTurn) && !(kind_named(name) is ToolResult),
        name.len() != 3 && name.len() != 4 && name.len() != 6 && name.len() != 13 ==> kind_named(name) is Custom,
{
    reveal_strlit("Plan");
    reveal_strlit("Memory");
    reveal_strlit("RCA");
    reveal_strlit("CommitContext");
    assert("Plan"@.len() == 4 && "Memory"@.len() == 6 && "RCA"@.len() == 3 && "CommitContext"@.len() == 13);
}

/// Where nothing else is asked for, what is ingested is of the custom type "Custom", and a recall
/// gives five results of any type. What is asked for is taken as it is.
pub proof fn law_what_is_asked(ingest: IngestParams, recall: RecallParams)
    ensures
        ingest.doc_type is None ==> asked_kind(ingest) == DocumentKind::Custom("Custom"@),
        ingest.doc_type matches Some(name) ==> (asked_kind(ingest) is Custom || kind_shown(asked_kind(ingest)) == name@),
        ingest.doc_type matches Some(name) ==> (asked_kind(ingest) matches DocumentKind::Custom(other) ==> other == name@),
        recall.top_k is None ==> asked_count(recall) == 5,
        recall.top_k matches Some(n) ==> asked_count(recall) == n,
        recall.doc_types is None ==> asked_types(recall).len() == 0,
        recall.doc_types matches Some(names) ==> asked_types(recall).len() == names@.len() && forall|i: int|
            0 <= i < names@.len() ==> asked_types(recall)[i] == kind_named((#[trigger] names@[i])@),
{
    reveal_strlit("Plan");
    reveal_strlit("Memory");
    reveal_strlit("RCA");
    reveal_strlit("CommitContext");
    reveal_strlit("Custom");
    assert("Plan"@.len() == 4 && "Memory"@.len() == 6 && "RCA"@.len() == 3 && "CommitContext"@.len() == 13);
    assert("Custom"@[0] != "Memory"@[0]);
    assert("Custom"@.len() == 6);
    if let Some(name) = ingest.doc_type {
        law_named_types(name@);
    }
}

/// A type is shown by its name, and a custom one with its own name in quotation marks, as Rust's
/// `Debug` writes both.
pub proof fn law_types_are_shown(name: Seq<char>)
    ensures
        kind_shown(DocumentKind::Plan) == "Plan"@,
        kind_shown(DocumentKind::Memory) == "Memory"@,
        kind_shown(DocumentKind::RCA) == "RCA"@,
        kind_shown(DocumentKind::CommitContext) == "CommitContext"@,
        kind_shown(DocumentKind::ConversationTurn) == "ConversationTurn"@,
        kind_shown(DocumentKind::ToolResult) == "ToolResult"@,
        kind_shown(DocumentKind::Custom(name)) == "Custom("@ + quoted(name) + ")"@,
{
}

} // verus!
