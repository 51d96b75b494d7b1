//! What the operations of a memory keep, and what a synchronization leaves behind.
use crate::digest::{sha256, text_digest};
use crate::document::{DocumentFields, DocumentKind, SyncStats};
use crate::error::{AgentMemoryError, TurboError};
use crate::persistent::{
    after_ingest, changes, file_step, file_step_at, file_trace, ingesting, is_changed, is_missing, is_new_content,
    law_removed_is_forgotten, lemma_changes, lemma_counts_bounded, lemma_missing, lemma_sources_bounded, missing_ids, path_of, reading, removal_at, removal_trace, removing,
    saving, skips, sources, syncing, update_at, update_failure, update_step, update_trace, updating, without, Change,
    FileProbe, MemoryState, PersistentMemory,
};
use crate::text::hex;
use vstd::prelude::*;
use vstd::utf8::encode_utf8;

verus! {

impl MemoryState {
    /// No two documents have one identifier, and every identifier is below the next one.
    pub open spec fn orderly(self) -> bool {
        distinct_below(self.documents, self.next_id)
    }
}

/// No two documents have one identifier, and every identifier is below `next`.
pub open spec fn distinct_below(documents: Seq<DocumentFields>, next: u64) -> bool {
    &&& forall|i: int, j: int| 0 <= i < j < documents.len() ==> (#[trigger] documents[i]).id != (#[trigger] documents[j]).id
    &&& forall|i: int| 0 <= i < documents.len() ==> (#[trigger] documents[i]).id < next
}

proof fn lemma_without_distinct(documents: Seq<DocumentFields>, id: u64, next: u64)
    requires
        distinct_below(documents, next),
    ensures
        distinct_below(without(documents, id), next),
    decreases documents.len(),
{
    if documents.len() > 0 {
        let rest = documents.drop_last();
        lemma_without_distinct(rest, id, next);
        law_removed_is_forgotten(rest, id);
        let before = without(rest, id);
        let all = without(documents, id);
        assert forall|i: int, j: int| 0 <= i < j < all.len() implies (#[trigger] all[i]).id != (#[trigger] all[j]).id by {
            assert(all[i] == before[i]);
            if j < before.len() {
                assert(all[j] == before[j]);
            } else {
                assert(rest.contains(before[i]));
                let k = choose|k: int| 0 <= k < rest.len() && rest[k] == before[i];
                assert(documents[k].id != documents.last().id);
            }
        }
        assert forall|i: int| 0 <= i < all.len() implies (#[trigger] all[i]).id < next by {
            if i < before.len() {
                assert(all[i] == before[i]);
            }
        }
    }
}

/// Ingesting a text keeps the identifiers apart, and uses up one of them.
pub proof fn law_ingest_keeps_order<
    I: Fn(u64, &str) -> Result<(), TurboError>,
    S: Fn(&PersistentMemory) -> Result<(), AgentMemoryError>,
>(
    before: MemoryState,
    content: Seq<char>,
    kind: DocumentKind,
    path: Option<Seq<char>>,
    timestamp: u64,
    insert: I,
    save: S,
    after: MemoryState,
    r: Result<u64, AgentMemoryError>,
)
    requires
        before.orderly(),
        before.next_id < u64::MAX,
        ingesting(before, content, kind, path, timestamp, insert, save, after, r),
    ensures
        after.orderly(),
        after.next_id == before.next_id + 1,
{
    let full = after_ingest(before, content, kind, path, timestamp);
    assert(full.orderly());
}

proof fn lemma_removals_keep_order<D: Fn(u64) -> Result<(), TurboError>>(
    before: MemoryState,
    list: Seq<(u64, Seq<char>)>,
    ids: Seq<u64>,
    delete: D,
    trace: Seq<MemoryState>,
    k: int,
)
    requires
        before.orderly(),
        removal_trace(before, list, ids, delete, trace),
        0 <= k < trace.len(),
    ensures
        trace[k].orderly(),
        trace[k].next_id == before.next_id,
    decreases k,
{
    if k > 0 {
        lemma_removals_keep_order(before, list, ids, delete, trace, k - 1);
        assert(removal_at(trace, k - 1, list, ids, delete));
        lemma_without_distinct(trace[k - 1].documents, ids[k - 1], before.next_id);
    }
}

proof fn lemma_updates_keep_order<
    D: Fn(u64) -> Result<(), TurboError>,
    I: Fn(u64, &str) -> Result<(), TurboError>,
    S: Fn(&PersistentMemory) -> Result<(), AgentMemoryError>,
>(before: MemoryState, list: Seq<Change>, delete: D, insert: I, save: S, trace: Seq<MemoryState>, k: int)
    requires
        before.orderly(),
        before.next_id + list.len() <= u64::MAX,
        update_trace(before, list, delete, insert, save, trace),
        0 <= k < trace.len(),
    ensures
        trace[k].orderly(),
        trace[k].next_id == before.next_id + k,
    decreases k,
{
    if k > 0 {
        lemma_updates_keep_order(before, list, delete, insert, save, trace, k - 1);
        assert(update_at(trace, k - 1, list, delete, insert, save));
        let c = list[k - 1];
        let last = trace[k - 1];
        let emptied = MemoryState { documents: without(last.documents, c.id), ..last };
        lemma_without_distinct(last.documents, c.id, last.next_id);
        let (timestamp, id) = choose|timestamp: u64, id: u64| #[trigger]
            ingesting(
                emptied,
                c.content,
                DocumentKind::Memory,
                Some(c.path),
                timestamp,
                insert,
                save,
                trace[k],
                Ok(id),
            );
        law_ingest_keeps_order(
            emptied,
            c.content,
            DocumentKind::Memory,
            Some(c.path),
            timestamp,
            insert,
            save,
            trace[k],
            Ok(id),
        );
    }
}

proof fn lemma_failed_update_keeps_order<
    D: Fn(u64) -> Result<(), TurboError>,
    I: Fn(u64, &str) -> Result<(), TurboError>,
    S: Fn(&PersistentMemory) -> Result<(), AgentMemoryError>,
>(before: MemoryState, c: Change, delete: D, insert: I, save: S, after: MemoryState, e: AgentMemoryError)
    requires
        before.orderly(),
        before.next_id < u64::MAX,
        update_failure(before, c, delete, insert, save, after, e),
    ensures
        after.orderly(),
{
    if !(e is Turbo && delete.ensures((c.id,), Err(e->Turbo_0)) && after == before) {
        let emptied = MemoryState { documents: without(before.documents, c.id), ..before };
        lemma_without_distinct(before.documents, c.id, before.next_id);
        let timestamp = choose|timestamp: u64| #[trigger]
            ingesting(
                emptied,
                c.content,
                DocumentKind::Memory,
                Some(c.path),
                timestamp,
                insert,
                save,
                after,
                Err(e),
            );
        law_ingest_keeps_order(
            emptied,
            c.content,
            DocumentKind::Memory,
            Some(c.path),
            timestamp,
            insert,
            save,
            after,
            Err(e),
        );
    }
}

proof fn lemma_removing_keeps_order<D: Fn(u64) -> Result<(), TurboError>>(
    before: MemoryState,
    list: Seq<(u64, Seq<char>)>,
    ids: Seq<u64>,
    delete: D,
    after: MemoryState,
    r: Result<(), TurboError>,
)
    requires
        before.orderly(),
        removing(before, list, ids, delete, after, r),
    ensures
        after.orderly(),
        after.next_id == before.next_id,
{
    let trace = choose|trace: Seq<MemoryState>| #[trigger]
        removal_trace(before, list, ids, delete, trace) && trace.last() == after;
    lemma_removals_keep_order(before, list, ids, delete, trace, trace.len() - 1);
}

proof fn lemma_updating_keeps_order<
    D: Fn(u64) -> Result<(), TurboError>,
    I: Fn(u64, &str) -> Result<(), TurboError>,
    S: Fn(&PersistentMemory) -> Result<(), AgentMemoryError>,
>(
    before: MemoryState,
    list: Seq<Change>,
    delete: D,
    insert: I,
    save: S,
    after: MemoryState,
    r: Result<(), AgentMemoryError>,
)
    requires
        before.orderly(),
        before.next_id + list.len() <= u64::MAX,
        updating(before, list, delete, insert, save, after, r),
    ensures
        after.orderly(),
{
    let trace = choose|trace: Seq<MemoryState>| #[trigger]
        update_trace(before, list, delete, insert, save, trace) && match r {
            Ok(_) => trace.len() == list.len() + 1 && trace.last() == after,
            Err(e) => trace.len() <= list.len() && update_failure(
                trace.last(),
                list[trace.len() - 1],
                delete,
                insert,
                save,
                after,
                e,
            ),
        };
    lemma_updates_keep_order(before, list, delete, insert, save, trace, trace.len() - 1);
    match r {
        Ok(_) => {},
        Err(e) => {
            lemma_failed_update_keeps_order(
                trace.last(),
                list[trace.len() - 1],
                delete,
                insert,
                save,
                after,
                e,
            );
        },
    }
}

/// A synchronization keeps the identifiers apart, whatever it comes to.
pub proof fn law_sync_keeps_order<
    D: Fn(u64) -> Result<(), TurboError>,
    I: Fn(u64, &str) -> Result<(), TurboError>,
    S: Fn(&PersistentMemory) -> Result<(), AgentMemoryError>,
>(
    before: MemoryState,
    probes: Seq<FileProbe>,
    delete: D,
    insert: I,
    save: S,
    after: MemoryState,
    r: Result<SyncStats, AgentMemoryError>,
)
    requires
        before.orderly(),
        before.next_id + before.documents.len() <= u64::MAX,
        syncing(before, probes, delete, insert, save, after, r),
    ensures
        after.orderly(),
{
    let list = sources(before.documents);
    let missing = missing_ids(list, probes);
    let changed = changes(list, probes, before.hashes);
    lemma_counts_bounded(list, probes, before.hashes);
    lemma_sources_bounded(before.documents);
    if probes.len() > 0 && probes.last() is Unreadable {
    } else if r is Err && r->Err_0 is Turbo && removing(before, list, missing, delete, after, Err(r->Err_0->Turbo_0)) {
        lemma_removing_keeps_order(before, list, missing, delete, after, Err(r->Err_0->Turbo_0));
    } else if r is Err && exists|middle: MemoryState| #[trigger]
        removing(before, list, missing, delete, middle, Ok(())) && updating(
            middle,
            changed,
            delete,
            insert,
            save,
            after,
            Err(r->Err_0),
        ) {
        let middle = choose|middle: MemoryState| #[trigger]
            removing(before, list, missing, delete, middle, Ok(())) && updating(
                middle,
                changed,
                delete,
                insert,
                save,
                after,
                Err(r->Err_0),
            );
        lemma_removing_keeps_order(before, list, missing, delete, middle, Ok(()));
        lemma_updating_keeps_order(middle, changed, delete, insert, save, after, Err(r->Err_0));
    } else {
        let middle = choose|middle: MemoryState| #[trigger]
            removing(before, list, missing, delete, middle, Ok(())) && updating(
                middle,
                changed,
                delete,
                insert,
                save,
                after,
                Ok(()),
            );
        lemma_removing_keeps_order(before, list, missing, delete, middle, Ok(()));
        lemma_updating_keeps_order(middle, changed, delete, insert, save, after, Ok(()));
    }
}

/// Ingesting files keeps the identifiers apart at every file.
pub proof fn law_ingest_glob_keeps_order<
    R: Fn(&str) -> Result<String, String>,
    I: Fn(u64, &str) -> Result<(), TurboError>,
    S: Fn(&PersistentMemory) -> Result<(), AgentMemoryError>,
>(
    before: MemoryState,
    paths: Seq<String>,
    kind: DocumentKind,
    read: R,
    insert: I,
    save: S,
    trace: Seq<(MemoryState, int)>,
    k: int,
)
    requires
        before.orderly(),
        before.next_id + paths.len() <= u64::MAX,
        file_trace(before, paths, kind, read, insert, save, trace),
        0 <= k < trace.len(),
    ensures
        trace[k].0.orderly(),
        trace[k].0.next_id == before.next_id + trace[k].1,
        0 <= trace[k].1 <= k,
    decreases k,
{
    if k > 0 {
        law_ingest_glob_keeps_order(before, paths, kind, read, insert, save, trace, k - 1);
        assert(file_step_at(trace, k - 1, paths, kind, read, insert, save));
        let (last, path, next) = (trace[k - 1], paths[k - 1]@, trace[k]);
        assert(file_step(last, path, kind, read, insert, save, next));
        if next != last {
            let (content, timestamp, id) = choose|content: String, timestamp: u64, id: u64|
                #![trigger reading(read, path, Ok(content)), ingesting(last.0, content@, kind, Some(path), timestamp, insert, save, next.0, Ok(id))]
                reading(read, path, Ok(content)) && ingesting(
                    last.0,
                    content@,
                    kind,
                    Some(path),
                    timestamp,
                    insert,
                    save,
                    next.0,
                    Ok(id),
                );
            law_ingest_keeps_order(
                last.0,
                content@,
                kind,
                Some(path),
                timestamp,
                insert,
                save,
                next.0,
                Ok(id),
            );
        }
    }
}

/// The probes show the files as they are: a path that has no file is missing, and any other
/// shows its content.
pub open spec fn shows(
    files: Map<Seq<char>, Seq<char>>,
    list: Seq<(u64, Seq<char>)>,
    probes: Seq<FileProbe>,
) -> bool {
    &&& probes.len() == list.len()
    &&& forall|k: int|
        0 <= k < list.len() ==> match #[trigger] probes[k] {
            FileProbe::Missing => !files.dom().contains(list[k].1),
            FileProbe::Content(content) => files.dom().contains(list[k].1) && files[list[k].1] == content@,
            FileProbe::Unreadable(_) => false,
        }
}

/// There is a file at the path, and the digest of its content is noted.
pub open spec fn noted(hashes: Map<Seq<char>, Seq<char>>, files: Map<Seq<char>, Seq<char>>, path: Seq<char>) -> bool {
    &&& files.dom().contains(path)
    &&& hashes.dom().contains(path)
    &&& hashes[path] == text_digest(files[path])
}

impl MemoryState {
    /// Every document that came from a file has one, whose content's digest is noted.
    pub open spec fn in_line(self, files: Map<Seq<char>, Seq<char>>) -> bool {
        forall|i: int|
            0 <= i < self.documents.len() ==> match (#[trigger] self.documents[i]).source_path {
                Some(path) => noted(self.hashes, files, path),
                None => true,
            }
    }
}

proof fn lemma_source_of(documents: Seq<DocumentFields>, i: int) -> (k: int)
    requires
        0 <= i < documents.len(),
        documents[i].source_path is Some,
    ensures
        0 <= k < sources(documents).len(),
        sources(documents)[k] == (documents[i].id, documents[i].source_path->0),
    decreases documents.len(),
{
    let rest = documents.drop_last();
    if i < rest.len() {
        let k = lemma_source_of(rest, i);
        assert(rest[i] == documents[i]);
        assert(sources(documents)[k] == sources(rest)[k]);
        k
    } else {
        sources(documents).len() - 1
    }
}

proof fn lemma_document_of(documents: Seq<DocumentFields>, k: int) -> (i: int)
    requires
        0 <= k < sources(documents).len(),
    ensures
        0 <= i < documents.len(),
        documents[i].id == sources(documents)[k].0,
        documents[i].source_path == Some(sources(documents)[k].1),
    decreases documents.len(),
{
    let rest = documents.drop_last();
    if k < sources(rest).len() {
        let i = lemma_document_of(rest, k);
        assert(rest[i] == documents[i]);
        assert(sources(documents)[k] == sources(rest)[k]);
        i
    } else {
        documents.len() - 1
    }
}

proof fn lemma_path_listed(list: Seq<(u64, Seq<char>)>, id: u64) -> (k: int)
    requires
        path_of(list, id) is Some,
    ensures
        0 <= k < list.len(),
        list[k] == (id, path_of(list, id)->0),
    decreases list.len(),
{
    if list[0].0 == id {
        0
    } else {
        let k = lemma_path_listed(list.drop_first(), id);
        assert(list.drop_first()[k] == list[k + 1]);
        k + 1
    }
}

proof fn lemma_missing_listed(list: Seq<(u64, Seq<char>)>, probes: Seq<FileProbe>, k: int)
    requires
        0 <= k < list.len(),
        probes[k] is Missing,
    ensures
        missing_ids(list, probes).contains(list[k].0),
    decreases list.len(),
{
    let rest = list.drop_last();
    let before = missing_ids(rest, probes);
    let all = missing_ids(list, probes);
    if k < rest.len() {
        lemma_missing_listed(rest, probes, k);
        let n = choose|n: int| 0 <= n < before.len() && before[n] == list[k].0;
        assert(all[n] == list[k].0);
    } else {
        assert(all[all.len() - 1] == list[k].0);
    }
}

proof fn lemma_missing_shown(list: Seq<(u64, Seq<char>)>, probes: Seq<FileProbe>, n: int) -> (k: int)
    requires
        0 <= n < missing_ids(list, probes).len(),
    ensures
        0 <= k < list.len(),
        probes[k] is Missing,
        list[k].0 == missing_ids(list, probes)[n],
    decreases list.len(),
{
    let rest = list.drop_last();
    if n < missing_ids(rest, probes).len() {
        let k = lemma_missing_shown(rest, probes, n);
        assert(missing_ids(list, probes)[n] == missing_ids(rest, probes)[n]);
        k
    } else {
        list.len() - 1
    }
}

proof fn lemma_change_listed(
    list: Seq<(u64, Seq<char>)>,
    probes: Seq<FileProbe>,
    hashes: Map<Seq<char>, Seq<char>>,
    k: int,
) -> (n: int)
    requires
        0 <= k < list.len(),
        probes[k] is Content,
        is_changed(hashes, list[k].1, probes[k]->Content_0@),
    ensures
        0 <= n < changes(list, probes, hashes).len(),
        changes(list, probes, hashes)[n].id == list[k].0,
    decreases list.len(),
{
    let rest = list.drop_last();
    if k < rest.len() {
        let n = lemma_change_listed(rest, probes, hashes, k);
        assert(changes(list, probes, hashes)[n] == changes(rest, probes, hashes)[n]);
        n
    } else {
        changes(list, probes, hashes).len() - 1
    }
}

proof fn lemma_change_shown(
    list: Seq<(u64, Seq<char>)>,
    probes: Seq<FileProbe>,
    hashes: Map<Seq<char>, Seq<char>>,
    n: int,
) -> (k: int)
    requires
        0 <= n < changes(list, probes, hashes).len(),
    ensures
        0 <= k < list.len(),
        probes[k] is Content,
        is_changed(hashes, list[k].1, probes[k]->Content_0@),
        changes(list, probes, hashes)[n] == (Change {
            id: list[k].0,
            path: list[k].1,
            content: probes[k]->Content_0@,
        }),
    decreases list.len(),
{
    let rest = list.drop_last();
    if n < changes(rest, probes, hashes).len() {
        let k = lemma_change_shown(rest, probes, hashes, n);
        assert(changes(list, probes, hashes)[n] == changes(rest, probes, hashes)[n]);
        k
    } else {
        list.len() - 1
    }
}

/// The documents of `state` are among those of `before`, none of them is among the first `k`
/// that were removed, and the digests of the files that there are stay.
spec fn thinned(
    before: MemoryState,
    files: Map<Seq<char>, Seq<char>>,
    ids: Seq<u64>,
    k: int,
    state: MemoryState,
) -> bool {
    &&& forall|i: int|
        0 <= i < state.documents.len() ==> before.documents.contains(#[trigger] state.documents[i])
            && !ids.take(k).contains(state.documents[i].id)
    &&& forall|p: Seq<char>| #[trigger]
        files.dom().contains(p) ==> state.hashes.dom().contains(p) == before.hashes.dom().contains(p)
            && state.hashes[p] == before.hashes[p]
}

proof fn lemma_removals_thin<D: Fn(u64) -> Result<(), TurboError>>(
    before: MemoryState,
    files: Map<Seq<char>, Seq<char>>,
    probes: Seq<FileProbe>,
    delete: D,
    trace: Seq<MemoryState>,
    k: int,
)
    requires
        before.orderly(),
        shows(files, sources(before.documents), probes),
        removal_trace(
            before,
            sources(before.documents),
            missing_ids(sources(before.documents), probes),
            delete,
            trace,
        ),
        0 <= k < trace.len(),
    ensures
        thinned(before, files, missing_ids(sources(before.documents), probes), k, trace[k]),
    decreases k,
{
    let list = sources(before.documents);
    let ids = missing_ids(list, probes);
    if k == 0 {
        assert(ids.take(0) =~= Seq::<u64>::empty());
    } else {
        lemma_removals_thin(before, files, probes, delete, trace, k - 1);
        assert(removal_at(trace, k - 1, list, ids, delete));
        let (last, next, id) = (trace[k - 1], trace[k], ids[k - 1]);
        law_removed_is_forgotten(last.documents, id);
        assert forall|i: int| 0 <= i < next.documents.len() implies before.documents.contains(
            #[trigger] next.documents[i],
        ) && !ids.take(k).contains(next.documents[i].id) by {
            let d = next.documents[i];
            assert(last.documents.contains(d));
            let j = choose|j: int| 0 <= j < last.documents.len() && last.documents[j] == d;
            assert(before.documents.contains(last.documents[j]));
            if ids.take(k).contains(d.id) {
                let n = choose|n: int| 0 <= n < k && ids.take(k)[n] == d.id;
                assert(n < k - 1);
                assert(ids.take(k - 1)[n] == d.id);
            }
        }
        let m = lemma_missing_shown(list, probes, k - 1);
        if path_of(list, id) is Some {
            let at = lemma_path_listed(list, id);
            let i = lemma_document_of(before.documents, at);
            let j = lemma_document_of(before.documents, m);
            assert(i == j);
            assert(list[at].1 == list[m].1);
            assert(probes[m] is Missing);
        }
    }
}

/// Every document of `state` that came from a file has one, and its digest is noted or one of
/// the changes from `k` on is about it.
spec fn settled_up_to(
    state: MemoryState,
    files: Map<Seq<char>, Seq<char>>,
    list: Seq<Change>,
    k: int,
) -> bool {
    forall|i: int|
        0 <= i < state.documents.len() ==> match (#[trigger] state.documents[i]).source_path {
            Some(path) => {
                ||| noted(state.hashes, files, path)
                ||| files.dom().contains(path) && exists|n: int|
                    k <= n < list.len() && (#[trigger] list[n]).id == state.documents[i].id
            },
            None => true,
        }
}

proof fn lemma_updates_settle<
    D: Fn(u64) -> Result<(), TurboError>,
    I: Fn(u64, &str) -> Result<(), TurboError>,
    S: Fn(&PersistentMemory) -> Result<(), AgentMemoryError>,
>(
    before: MemoryState,
    files: Map<Seq<char>, Seq<char>>,
    list: Seq<Change>,
    delete: D,
    insert: I,
    save: S,
    trace: Seq<MemoryState>,
    k: int,
)
    requires
        settled_up_to(before, files, list, 0),
        forall|n: int|
            0 <= n < list.len() ==> files.dom().contains((#[trigger] list[n]).path) && files[list[n].path]
                == list[n].content,
        update_trace(before, list, delete, insert, save, trace),
        0 <= k < trace.len(),
    ensures
        settled_up_to(trace[k], files, list, k),
    decreases k,
{
    if k > 0 {
        lemma_updates_settle(before, files, list, delete, insert, save, trace, k - 1);
        assert(update_at(trace, k - 1, list, delete, insert, save));
        let (last, next, c) = (trace[k - 1], trace[k], list[k - 1]);
        assert(update_step(last, c, delete, insert, save, next));
        let emptied = MemoryState { documents: without(last.documents, c.id), ..last };
        law_removed_is_forgotten(last.documents, c.id);
        assert(next.hashes == last.hashes.insert(c.path, text_digest(c.content)));
        assert forall|i: int| 0 <= i < next.documents.len() implies match (
        #[trigger] next.documents[i]).source_path {
            Some(path) => {
                ||| noted(next.hashes, files, path)
                ||| files.dom().contains(path) && exists|n: int|
                    k <= n < list.len() && (#[trigger] list[n]).id == next.documents[i].id
            },
            None => true,
        } by {
            let d = next.documents[i];
            if i < emptied.documents.len() {
                assert(d == emptied.documents[i]);
                assert(last.documents.contains(d));
                let j = choose|j: int| 0 <= j < last.documents.len() && last.documents[j] == d;
                if d.source_path is Some && !noted(last.hashes, files, d.source_path->0) {
                    let n = choose|n: int|
                        k - 1 <= n < list.len() && (#[trigger] list[n]).id == last.documents[j].id;
                    assert(list[n].id == d.id);
                    assert(n != k - 1);
                }
            } else {
                assert(d.source_path == Some(c.path));
            }
        }
    }
}

/// A synchronization that succeeds brings the memory in line with the files: afterwards every
/// document that came from a file has one, and the digest of its content is noted.
pub proof fn law_sync_brings_in_line<
    D: Fn(u64) -> Result<(), TurboError>,
    I: Fn(u64, &str) -> Result<(), TurboError>,
    S: Fn(&PersistentMemory) -> Result<(), AgentMemoryError>,
>(
    before: MemoryState,
    files: Map<Seq<char>, Seq<char>>,
    probes: Seq<FileProbe>,
    delete: D,
    insert: I,
    save: S,
    after: MemoryState,
    stats: SyncStats,
)
    requires
        before.orderly(),
        shows(files, sources(before.documents), probes),
        syncing(before, probes, delete, insert, save, after, Ok(stats)),
    ensures
        after.in_line(files),
{
    let list = sources(before.documents);
    let missing = missing_ids(list, probes);
    let changed = changes(list, probes, before.hashes);
    assert(!(probes.len() > 0 && probes.last() is Unreadable));
    let middle = choose|middle: MemoryState| #[trigger]
        removing(before, list, missing, delete, middle, Ok(())) && updating(
            middle,
            changed,
            delete,
            insert,
            save,
            after,
            Ok(()),
        );
    let removals = choose|trace: Seq<MemoryState>| #[trigger]
        removal_trace(before, list, missing, delete, trace) && trace.last() == middle && trace.len() == missing.len()
            + 1;
    lemma_removals_thin(before, files, probes, delete, removals, missing.len() as int);
    assert(missing.take(missing.len() as int) =~= missing);
    assert(settled_up_to(middle, files, changed, 0)) by {
        assert forall|i: int| 0 <= i < middle.documents.len() implies match (
        #[trigger] middle.documents[i]).source_path {
            Some(path) => {
                ||| noted(middle.hashes, files, path)
                ||| files.dom().contains(path) && exists|n: int|
                    0 <= n < changed.len() && (#[trigger] changed[n]).id == middle.documents[i].id
            },
            None => true,
        } by {
            let d = middle.documents[i];
            if d.source_path is Some {
                assert(before.documents.contains(d));
                let j = choose|j: int| 0 <= j < before.documents.len() && before.documents[j] == d;
                let k = lemma_source_of(before.documents, j);
                if probes[k] is Missing {
                    lemma_missing_listed(list, probes, k);
                }
                assert(probes[k] is Content);
                let path = list[k].1;
                assert(files.dom().contains(path));
                if is_changed(before.hashes, path, probes[k]->Content_0@) {
                    let n = lemma_change_listed(list, probes, before.hashes, k);
                    assert(changed[n].id == d.id);
                }
            }
        }
    }
    assert forall|n: int| 0 <= n < changed.len() implies files.dom().contains((#[trigger] changed[n]).path)
        && files[changed[n].path] == changed[n].content by {
        let k = lemma_change_shown(list, probes, before.hashes, n);
        assert(probes[k] is Content);
    }
    let updates = choose|trace: Seq<MemoryState>| #[trigger]
        update_trace(middle, changed, delete, insert, save, trace) && trace.len() == changed.len() + 1
            && trace.last() == after;
    lemma_updates_settle(middle, files, changed, delete, insert, save, updates, changed.len() as int);
}

/// Where the memory is in line with the files, a synchronization finds nothing to do.
pub proof fn law_in_line_needs_nothing(
    state: MemoryState,
    files: Map<Seq<char>, Seq<char>>,
    probes: Seq<FileProbe>,
)
    requires
        state.in_line(files),
        shows(files, sources(state.documents), probes),
    ensures
        missing_ids(sources(state.documents), probes).len() == 0,
        changes(sources(state.documents), probes, state.hashes).len() == 0,
{
    let list = sources(state.documents);
    if missing_ids(list, probes).len() > 0 {
        let k = lemma_missing_shown(list, probes, 0);
        let i = lemma_document_of(state.documents, k);
        assert(probes[k] is Missing);
        assert(noted(state.hashes, files, list[k].1));
    }
    if changes(list, probes, state.hashes).len() > 0 {
        let k = lemma_change_shown(list, probes, state.hashes, 0);
        let i = lemma_document_of(state.documents, k);
        assert(probes[k] is Content);
        assert(noted(state.hashes, files, list[k].1));
    }
}

/// A second synchronization, with no file changed since the first, leaves the memory as it is.
/// It fails only where saving does, and else reports that nothing was updated or removed and
/// that every document that came from a file is unchanged.
pub proof fn law_second_sync_changes_nothing<
    D: Fn(u64) -> Result<(), TurboError>,
    I: Fn(u64, &str) -> Result<(), TurboError>,
    S: Fn(&PersistentMemory) -> Result<(), AgentMemoryError>,
>(
    before: MemoryState,
    files: Map<Seq<char>, Seq<char>>,
    probes: Seq<FileProbe>,
    delete: D,
    insert: I,
    save: S,
    after: MemoryState,
    stats: SyncStats,
    later_probes: Seq<FileProbe>,
    later: MemoryState,
    r: Result<SyncStats, AgentMemoryError>,
)
    requires
        before.orderly(),
        shows(files, sources(before.documents), probes),
        syncing(before, probes, delete, insert, save, after, Ok(stats)),
        shows(files, sources(after.documents), later_probes),
        syncing(after, later_probes, delete, insert, save, later, r),
    ensures
        later == after,
        match r {
            Ok(stats) => {
                &&& stats.added == 0
                &&& stats.updated == 0
                &&& stats.removed == 0
                &&& stats.unchanged == sources(after.documents).len()
            },
            Err(e) => saving(save, after, Err(e)),
        },
{
    law_sync_brings_in_line(before, files, probes, delete, insert, save, after, stats);
    law_in_line_needs_nothing(after, files, later_probes);
    let list = sources(after.documents);
    let missing = missing_ids(list, later_probes);
    let changed = changes(list, later_probes, after.hashes);
    assert(!(later_probes.len() > 0 && later_probes.last() is Unreadable));
    assert forall|middle: MemoryState, outcome: Result<(), TurboError>| #[trigger]
        removing(after, list, missing, delete, middle, outcome) implies middle == after && outcome is Ok by {}
    assert forall|middle: MemoryState, end: MemoryState, outcome: Result<(), AgentMemoryError>| #[trigger]
        updating(middle, changed, delete, insert, save, end, outcome) implies end == middle && outcome is Ok by {}
}

/// There is a document with the content and the path of a changed file, with an identifier that is
/// not below `next`.
pub open spec fn brings(documents: Seq<DocumentFields>, c: Change, next: u64) -> bool {
    exists|i: int|
        {
            &&& 0 <= i < documents.len()
            &&& (#[trigger] documents[i]).source_path == Some(c.path)
            &&& documents[i].content == c.content
            &&& documents[i].kind is Memory
            &&& documents[i].id >= next
        }
}

/// The document holds the content and the path of one of the changed files.
pub open spec fn is_brought(d: DocumentFields, list: Seq<Change>) -> bool {
    exists|n: int|
        0 <= n < list.len() && d.source_path == Some((#[trigger] list[n]).path) && d.content == list[n].content
}

/// One of the changed files is that of the document with the identifier.
pub open spec fn is_outdated(list: Seq<Change>, id: u64) -> bool {
    exists|n: int| 0 <= n < list.len() && (#[trigger] list[n]).id == id
}

proof fn lemma_removals_keep_others<D: Fn(u64) -> Result<(), TurboError>>(
    before: MemoryState,
    list: Seq<(u64, Seq<char>)>,
    ids: Seq<u64>,
    delete: D,
    trace: Seq<MemoryState>,
    k: int,
)
    requires
        removal_trace(before, list, ids, delete, trace),
        0 <= k < trace.len(),
    ensures
        forall|d: DocumentFields|
            #[trigger] trace[k].documents.contains(d) <==> before.documents.contains(d) && !ids.take(k).contains(d.id),
        trace[k].next_id == before.next_id,
    decreases k,
{
    if k == 0 {
        assert(ids.take(0) =~= Seq::<u64>::empty());
    } else {
        lemma_removals_keep_others(before, list, ids, delete, trace, k - 1);
        assert(removal_at(trace, k - 1, list, ids, delete));
        let (last, next, id) = (trace[k - 1], trace[k], ids[k - 1]);
        law_removed_is_forgotten(last.documents, id);
        assert forall|d: DocumentFields| #[trigger] next.documents.contains(d) <==> before.documents.contains(d)
            && !ids.take(k).contains(d.id) by {
            lemma_take_one_more(ids, k, d.id);
            if next.documents.contains(d) {
                let i = choose|i: int| 0 <= i < next.documents.len() && next.documents[i] == d;
                assert(last.documents.contains(next.documents[i]));
            }
            if last.documents.contains(d) && d.id != id {
                let i = choose|i: int| 0 <= i < last.documents.len() && last.documents[i] == d;
                assert(without(last.documents, id).contains(last.documents[i]));
            }
        }
    }
}

proof fn lemma_take_one_more(ids: Seq<u64>, k: int, id: u64)
    requires
        0 < k <= ids.len(),
    ensures
        ids.take(k).contains(id) <==> ids.take(k - 1).contains(id) || ids[k - 1] == id,
{
    let (some, more) = (ids.take(k - 1), ids.take(k));
    if more.contains(id) {
        let n = choose|n: int| 0 <= n < more.len() && more[n] == id;
        if n < k - 1 {
            assert(some[n] == id);
        }
    }
    if some.contains(id) {
        let n = choose|n: int| 0 <= n < some.len() && some[n] == id;
        assert(more[n] == id);
    }
    if ids[k - 1] == id {
        assert(more[k - 1] == id);
    }
}

/// After `k` updates the documents that no change is about are still there, each change brought a
/// document, and there is nothing else.
spec fn updated_up_to(
    first: Seq<DocumentFields>,
    next: u64,
    list: Seq<Change>,
    k: int,
    documents: Seq<DocumentFields>,
) -> bool {
    &&& forall|d: DocumentFields| #[trigger]
        first.contains(d) && !is_outdated(list.take(k), d.id) ==> documents.contains(d)
    &&& forall|n: int| 0 <= n < k ==> brings(documents, #[trigger] list[n], next)
    &&& forall|d: DocumentFields| #[trigger]
        documents.contains(d) ==> is_brought(d, list.take(k)) || first.contains(d) && !is_outdated(list.take(k), d.id)
}

proof fn lemma_outdated_one_more(list: Seq<Change>, k: int, id: u64)
    requires
        0 < k <= list.len(),
    ensures
        is_outdated(list.take(k), id) <==> is_outdated(list.take(k - 1), id) || list[k - 1].id == id,
{
    let (some, more) = (list.take(k - 1), list.take(k));
    if is_outdated(more, id) {
        let n = choose|n: int| 0 <= n < more.len() && (#[trigger] more[n]).id == id;
        if n < k - 1 {
            assert(some[n].id == id);
        }
    }
    if is_outdated(some, id) {
        let n = choose|n: int| 0 <= n < some.len() && (#[trigger] some[n]).id == id;
        assert(more[n].id == id);
    }
    if list[k - 1].id == id {
        assert(more[k - 1].id == id);
    }
}

proof fn lemma_brought_one_more(list: Seq<Change>, k: int, d: DocumentFields)
    requires
        0 < k <= list.len(),
    ensures
        is_brought(d, list.take(k - 1)) ==> is_brought(d, list.take(k)),
        d.source_path == Some(list[k - 1].path) && d.content == list[k - 1].content ==> is_brought(d, list.take(k)),
{
    let (some, more) = (list.take(k - 1), list.take(k));
    if is_brought(d, some) {
        let n = choose|n: int|
            0 <= n < some.len() && d.source_path == Some((#[trigger] some[n]).path) && d.content == some[n].content;
        assert(more[n] == some[n]);
    }
    assert(more[k - 1] == list[k - 1]);
}

proof fn lemma_one_update(
    first: Seq<DocumentFields>,
    next: u64,
    list: Seq<Change>,
    k: int,
    last: Seq<DocumentFields>,
    documents: Seq<DocumentFields>,
)
    requires
        0 < k <= list.len(),
        list[k - 1].id < next,
        updated_up_to(first, next, list, k - 1, last),
        documents.len() > 0,
        documents.drop_last() == without(last, list[k - 1].id),
        documents.last().source_path == Some(list[k - 1].path),
        documents.last().content == list[k - 1].content,
        documents.last().kind is Memory,
        documents.last().id >= next,
    ensures
        updated_up_to(first, next, list, k, documents),
{
    let c = list[k - 1];
    let emptied = without(last, c.id);
    law_removed_is_forgotten(last, c.id);
    assert forall|d: DocumentFields| #[trigger]
        documents.contains(d) <==> (last.contains(d) && d.id != c.id) || d == documents.last() by {
        if documents.contains(d) {
            let i = choose|i: int| 0 <= i < documents.len() && documents[i] == d;
            if i < emptied.len() {
                assert(emptied[i] == d);
                assert(last.contains(emptied[i]));
            }
        }
        if last.contains(d) && d.id != c.id {
            let i = choose|i: int| 0 <= i < last.len() && last[i] == d;
            assert(emptied.contains(last[i]));
            let j = choose|j: int| 0 <= j < emptied.len() && emptied[j] == d;
            assert(documents.drop_last()[j] == documents[j]);
        }
        if d == documents.last() {
            assert(documents[documents.len() - 1] == d);
        }
    }
    assert forall|d: DocumentFields| #[trigger]
        first.contains(d) && !is_outdated(list.take(k), d.id) implies documents.contains(d) by {
        lemma_outdated_one_more(list, k, d.id);
        assert(last.contains(d));
    }
    assert forall|n: int| 0 <= n < k implies brings(documents, #[trigger] list[n], next) by {
        if n < k - 1 {
            let i = choose|i: int|
                {
                    &&& 0 <= i < last.len()
                    &&& (#[trigger] last[i]).source_path == Some(list[n].path)
                    &&& last[i].content == list[n].content
                    &&& last[i].kind is Memory
                    &&& last[i].id >= next
                };
            assert(last.contains(last[i]));
            assert(documents.contains(last[i]));
            let j = choose|j: int| 0 <= j < documents.len() && documents[j] == last[i];
            assert(documents[j].source_path == Some(list[n].path));
        } else {
            assert(documents[documents.len() - 1].source_path == Some(list[n].path));
        }
    }
    assert forall|d: DocumentFields| #[trigger] documents.contains(d) implies is_brought(d, list.take(k))
        || first.contains(d) && !is_outdated(list.take(k), d.id) by {
        lemma_outdated_one_more(list, k, d.id);
        lemma_brought_one_more(list, k, d);
    }
}

proof fn lemma_update_documents<
    D: Fn(u64) -> Result<(), TurboError>,
    I: Fn(u64, &str) -> Result<(), TurboError>,
    S: Fn(&PersistentMemory) -> Result<(), AgentMemoryError>,
>(last: MemoryState, c: Change, delete: D, insert: I, save: S, next: MemoryState)
    requires
        last.next_id < u64::MAX,
        update_step(last, c, delete, insert, save, next),
    ensures
        next.next_id == last.next_id + 1,
        next.documents.len() > 0,
        next.documents.drop_last() == without(last.documents, c.id),
        next.documents.last().source_path == Some(c.path),
        next.documents.last().content == c.content,
        next.documents.last().kind is Memory,
        next.documents.last().id == last.next_id,
{
    assert(next.documents.drop_last() =~= without(last.documents, c.id));
}

proof fn lemma_updates_keep_others<
    D: Fn(u64) -> Result<(), TurboError>,
    I: Fn(u64, &str) -> Result<(), TurboError>,
    S: Fn(&PersistentMemory) -> Result<(), AgentMemoryError>,
>(
    before: MemoryState,
    list: Seq<Change>,
    delete: D,
    insert: I,
    save: S,
    trace: Seq<MemoryState>,
    k: int,
)
    requires
        before.next_id + list.len() <= u64::MAX,
        forall|n: int| 0 <= n < list.len() ==> (#[trigger] list[n]).id < before.next_id,
        update_trace(before, list, delete, insert, save, trace),
        0 <= k < trace.len(),
    ensures
        trace[k].next_id == before.next_id + k,
        updated_up_to(before.documents, before.next_id, list, k, trace[k].documents),
    decreases k,
{
    if k > 0 {
        lemma_updates_keep_others(before, list, delete, insert, save, trace, k - 1);
        assert(update_at(trace, k - 1, list, delete, insert, save));
        lemma_update_documents(trace[k - 1], list[k - 1], delete, insert, save, trace[k]);
        lemma_one_update(
            before.documents,
            before.next_id,
            list,
            k,
            trace[k - 1].documents,
            trace[k].documents,
        );
    } else {
        assert(list.take(0) =~= Seq::<Change>::empty());
    }
}

/// A synchronization that succeeds forgets the documents whose files are gone, puts new documents
/// with the new content in the place of those whose files changed, and keeps all others as they
/// are, those that came from no file among them.
#[verifier::rlimit(40)]
pub proof fn law_sync_keeps_the_others<
    D: Fn(u64) -> Result<(), TurboError>,
    I: Fn(u64, &str) -> Result<(), TurboError>,
    S: Fn(&PersistentMemory) -> Result<(), AgentMemoryError>,
>(
    before: MemoryState,
    probes: Seq<FileProbe>,
    delete: D,
    insert: I,
    save: S,
    after: MemoryState,
    stats: SyncStats,
)
    requires
        before.orderly(),
        before.next_id + before.documents.len() <= u64::MAX,
        syncing(before, probes, delete, insert, save, after, Ok(stats)),
    ensures
        ({
            let list = sources(before.documents);
            &&& probes.len() == list.len()
            &&& forall|d: DocumentFields| #[trigger]
                before.documents.contains(d) && d.source_path is None ==> after.documents.contains(d)
            &&& forall|d: DocumentFields| #[trigger]
                before.documents.contains(d) && !is_missing(list, probes, d.id) && !has_new_content(
                    list,
                    probes,
                    before.hashes,
                    d.id,
                ) ==> after.documents.contains(d)
            &&& forall|d: DocumentFields| #[trigger]
                after.documents.contains(d) && before.documents.contains(d) ==> !is_missing(list, probes, d.id)
            &&& forall|c: Change| #[trigger]
                is_new_content(list, probes, before.hashes, c) ==> brings(after.documents, c, before.next_id)
            &&& stats.added == 0
            &&& stats.removed == probes.filter(|p: FileProbe| p is Missing).len()
            &&& stats.removed + stats.updated + stats.unchanged == list.len()
            &&& after.next_id == before.next_id + stats.updated
        }),
{
    let list = sources(before.documents);
    let missing = missing_ids(list, probes);
    let changed = changes(list, probes, before.hashes);
    lemma_counts_bounded(list, probes, before.hashes);
    lemma_sources_bounded(before.documents);
    lemma_missing(list, probes);
    lemma_changes(list, probes, before.hashes);
    assert(probes.take(list.len() as int) =~= probes);
    let middle = choose|middle: MemoryState| #[trigger]
        removing(before, list, missing, delete, middle, Ok(())) && updating(
            middle,
            changed,
            delete,
            insert,
            save,
            after,
            Ok(()),
        );
    let removals = choose|trace: Seq<MemoryState>| #[trigger]
        removal_trace(before, list, missing, delete, trace) && trace.last() == middle && trace.len() == missing.len()
            + 1;
    let updates = choose|trace: Seq<MemoryState>| #[trigger]
        update_trace(middle, changed, delete, insert, save, trace) && trace.len() == changed.len() + 1 && trace.last()
            == after;
    lemma_removals_keep_others(before, list, missing, delete, removals, missing.len() as int);
    assert(missing.take(missing.len() as int) =~= missing);
    assert forall|n: int| 0 <= n < changed.len() implies (#[trigger] changed[n]).id < middle.next_id by {
        let k = lemma_change_shown(list, probes, before.hashes, n);
        let i = lemma_document_of(before.documents, k);
        assert(before.documents[i].id < before.next_id);
    }
    lemma_updates_keep_others(middle, changed, delete, insert, save, updates, changed.len() as int);
    assert(changed.take(changed.len() as int) =~= changed);
    assert forall|d: DocumentFields| #[trigger]
        before.documents.contains(d) && !is_missing(list, probes, d.id) && !has_new_content(
            list,
            probes,
            before.hashes,
            d.id,
        ) implies after.documents.contains(d) by {
        assert(!missing.contains(d.id));
        assert(middle.documents.contains(d));
        if is_outdated(changed, d.id) {
            let n = choose|n: int| 0 <= n < changed.len() && (#[trigger] changed[n]).id == d.id;
            assert(changed.contains(changed[n]));
            assert(is_new_content(list, probes, before.hashes, changed[n]));
        }
    }
    assert forall|d: DocumentFields| #[trigger]
        before.documents.contains(d) && d.source_path is None implies after.documents.contains(d) by {
        if is_missing(list, probes, d.id) {
            let k = choose|k: int| 0 <= k < list.len() && (#[trigger] probes[k]) is Missing && list[k].0 == d.id;
            lemma_not_a_source(before, d, k);
        }
        if has_new_content(list, probes, before.hashes, d.id) {
            let c = choose|c: Change| c.id == d.id && #[trigger] is_new_content(list, probes, before.hashes, c);
            let k = choose|k: int|
                0 <= k < list.len() && ((#[trigger] probes[k]) matches FileProbe::Content(content) && content@
                    == c.content) && list[k] == (c.id, c.path) && !(before.hashes.dom().contains(c.path)
                    && before.hashes[c.path] == hex(sha256(encode_utf8(c.content))));
            lemma_not_a_source(before, d, k);
        }
    }
    assert forall|d: DocumentFields| #[trigger]
        after.documents.contains(d) && before.documents.contains(d) implies !is_missing(list, probes, d.id) by {
        if is_missing(list, probes, d.id) {
            assert(missing.contains(d.id));
            assert(!middle.documents.contains(d));
            lemma_brought_is_new(middle, changed, delete, insert, save, updates, changed.len() as int, d);
            let i = choose|i: int| 0 <= i < before.documents.len() && before.documents[i] == d;
            assert(before.documents[i].id < before.next_id);
        }
    }
    assert forall|c: Change| #[trigger] is_new_content(list, probes, before.hashes, c) implies brings(
        after.documents,
        c,
        before.next_id,
    ) by {
        assert(changed.contains(c));
        let n = choose|n: int| 0 <= n < changed.len() && changed[n] == c;
        assert(brings(after.documents, changed[n], middle.next_id));
    }
}

/// Some file shows a new content, and its document is the one with the identifier.
pub open spec fn has_new_content(
    list: Seq<(u64, Seq<char>)>,
    probes: Seq<FileProbe>,
    hashes: Map<Seq<char>, Seq<char>>,
    id: u64,
) -> bool {
    exists|c: Change| c.id == id && #[trigger] is_new_content(list, probes, hashes, c)
}

proof fn lemma_not_a_source(state: MemoryState, d: DocumentFields, k: int)
    requires
        state.orderly(),
        state.documents.contains(d),
        d.source_path is None,
        0 <= k < sources(state.documents).len(),
    ensures
        sources(state.documents)[k].0 != d.id,
{
    let i = lemma_document_of(state.documents, k);
    let j = choose|j: int| 0 <= j < state.documents.len() && state.documents[j] == d;
    if i < j {
        assert(state.documents[i].id != state.documents[j].id);
    } else if j < i {
        assert(state.documents[j].id != state.documents[i].id);
    }
}

/// What updates bring and was not there before has a new identifier.
proof fn lemma_brought_is_new<
    D: Fn(u64) -> Result<(), TurboError>,
    I: Fn(u64, &str) -> Result<(), TurboError>,
    S: Fn(&PersistentMemory) -> Result<(), AgentMemoryError>,
>(
    before: MemoryState,
    list: Seq<Change>,
    delete: D,
    insert: I,
    save: S,
    trace: Seq<MemoryState>,
    k: int,
    d: DocumentFields,
)
    requires
        before.next_id + list.len() <= u64::MAX,
        forall|n: int| 0 <= n < list.len() ==> (#[trigger] list[n]).id < before.next_id,
        update_trace(before, list, delete, insert, save, trace),
        0 <= k < trace.len(),
        trace[k].documents.contains(d),
        !before.documents.contains(d),
    ensures
        d.id >= before.next_id,
    decreases k,
{
    if k > 0 {
        lemma_updates_keep_others(before, list, delete, insert, save, trace, k - 1);
        assert(update_at(trace, k - 1, list, delete, insert, save));
        let (last, next, c) = (trace[k - 1], trace[k], list[k - 1]);
        lemma_update_documents(last, c, delete, insert, save, next);
        let emptied = without(last.documents, c.id);
        law_removed_is_forgotten(last.documents, c.id);
        let i = choose|i: int| 0 <= i < next.documents.len() && next.documents[i] == d;
        if i < emptied.len() {
            assert(emptied[i] == d);
            assert(last.documents.contains(emptied[i]));
            lemma_brought_is_new(before, list, delete, insert, save, trace, k - 1, d);
        } else {
            assert(d.id == last.next_id);
        }
    }
}

/// A file that is dealt with is remembered: a content that was read of it is the one whose digest
/// is noted. Where that was noted before, nothing changes. Else a document with this content
/// comes last.
pub proof fn law_file_is_remembered<
    R: Fn(&str) -> Result<String, String>,
    I: Fn(u64, &str) -> Result<(), TurboError>,
    S: Fn(&PersistentMemory) -> Result<(), AgentMemoryError>,
>(
    before: (MemoryState, int),
    path: Seq<char>,
    kind: DocumentKind,
    read: R,
    insert: I,
    save: S,
    after: (MemoryState, int),
)
    requires
        before.0.next_id < u64::MAX,
        file_step(before, path, kind, read, insert, save, after),
    ensures
        !before.0.hashes.dom().contains(path) ==> after.1 == before.1 + 1,
        exists|content: String|
            {
                &&& #[trigger] reading(read, path, Ok(content))
                &&& after.0.hashes.dom().contains(path)
                &&& after.0.hashes[path] == hex(sha256(encode_utf8(content@)))
                &&& after.0.documents == before.0.documents && after.0 == before.0 && after.1 == before.1 || {
                    &&& after.1 == before.1 + 1
                    &&& after.0.documents.len() == before.0.documents.len() + 1
                    &&& after.0.documents.drop_last() == before.0.documents
                    &&& after.0.documents.last().content == content@
                    &&& after.0.documents.last().source_path == Some(path)
                    &&& after.0.documents.last().kind == kind
                    &&& after.0.documents.last().id == before.0.next_id
                }
            },
{
    if skips(before.0, path, read) && after == before {
        let content = choose|content: String| #[trigger]
            reading(read, path, Ok(content)) && before.0.hashes[path] == text_digest(content@);
        assert(reading(read, path, Ok(content)));
    } else {
        let (content, timestamp, id) = choose|content: String, timestamp: u64, id: u64|
            #![trigger reading(read, path, Ok(content)), ingesting(before.0, content@, kind, Some(path), timestamp, insert, save, after.0, Ok(id))]
            reading(read, path, Ok(content)) && ingesting(
                before.0,
                content@,
                kind,
                Some(path),
                timestamp,
                insert,
                save,
                after.0,
                Ok(id),
            );
        let more = after_ingest(before.0, content@, kind, Some(path), timestamp);
        assert(more.documents.drop_last() =~= before.0.documents);
        assert(reading(read, path, Ok(content)));
    }
}

/// Ingesting files adds as many documents as it counts, and keeps all that there were.
pub proof fn law_files_are_added<
    R: Fn(&str) -> Result<String, String>,
    I: Fn(u64, &str) -> Result<(), TurboError>,
    S: Fn(&PersistentMemory) -> Result<(), AgentMemoryError>,
>(
    before: MemoryState,
    paths: Seq<String>,
    kind: DocumentKind,
    read: R,
    insert: I,
    save: S,
    trace: Seq<(MemoryState, int)>,
    k: int,
)
    requires
        before.orderly(),
        before.next_id + paths.len() <= u64::MAX,
        file_trace(before, paths, kind, read, insert, save, trace),
        0 <= k < trace.len(),
    ensures
        trace[k].0.documents.len() == before.documents.len() + trace[k].1,
        before.documents.is_prefix_of(trace[k].0.documents),
        forall|n: int|
            0 <= n < k ==> trace[k].0.hashes.dom().contains((#[trigger] paths[n])@),
    decreases k,
{
    if k > 0 {
        law_files_are_added(before, paths, kind, read, insert, save, trace, k - 1);
        law_ingest_glob_keeps_order(before, paths, kind, read, insert, save, trace, k - 1);
        assert(file_step_at(trace, k - 1, paths, kind, read, insert, save));
        law_file_is_remembered(trace[k - 1], paths[k - 1]@, kind, read, insert, save, trace[k]);
        let (last, next) = (trace[k - 1].0, trace[k].0);
        assert forall|i: int| 0 <= i < before.documents.len() implies next.documents[i] == before.documents[i] by {
            assert(last.documents[i] == before.documents[i]);
            if next.documents != last.documents {
                assert(next.documents.drop_last()[i] == last.documents[i]);
            }
        }
        lemma_hashes_stay(trace[k - 1], paths[k - 1]@, kind, read, insert, save, trace[k]);
    }
}

proof fn lemma_hashes_stay<
    R: Fn(&str) -> Result<String, String>,
    I: Fn(u64, &str) -> Result<(), TurboError>,
    S: Fn(&PersistentMemory) -> Result<(), AgentMemoryError>,
>(
    before: (MemoryState, int),
    path: Seq<char>,
    kind: DocumentKind,
    read: R,
    insert: I,
    save: S,
    after: (MemoryState, int),
)
    requires
        file_step(before, path, kind, read, insert, save, after),
    ensures
        forall|p: Seq<char>| #[trigger]
            before.0.hashes.dom().contains(p) ==> after.0.hashes.dom().contains(p),
{
}

/// A file that cannot be read ends a synchronization before anything changes, with the error of
/// that file.
pub proof fn law_unreadable_file_ends_sync<
    D: Fn(u64) -> Result<(), TurboError>,
    I: Fn(u64, &str) -> Result<(), TurboError>,
    S: Fn(&PersistentMemory) -> Result<(), AgentMemoryError>,
>(
    before: MemoryState,
    probes: Seq<FileProbe>,
    delete: D,
    insert: I,
    save: S,
    after: MemoryState,
    r: Result<SyncStats, AgentMemoryError>,
)
    requires
        probes.len() > 0,
        probes[probes.len() - 1] is Unreadable,
        syncing(before, probes, delete, insert, save, after, r),
    ensures
        after == before,
        r is Err && r->Err_0 is Io,
        r->Err_0->Io_0 == probes[probes.len() - 1]->Unreadable_0,
{
}

} // verus!
