//! What holds of an index over several calls.
use crate::index::{
    law_compact_keeps_results, law_insert_adds, law_open_gives_index_back, lemma_live, live, SearchResult, TurboIndex,
};
use crate::meta::{encoded_meta, MetaFields};
use crate::scalar::{lemma_descending_key, Scalar};
use crate::sorting::{
    is_leading, is_stable_order, law_leading_are_least, lemma_order_exists, lemma_order_is_permutation, precedes,
};
use crate::storage::{appends, Appended, StoredVector};
use crate::turboquant::{LloydMaxVector, PreparedQuery};
use vstd::prelude::*;

verus! {

/// The results without those of an identifier, in order.
pub open spec fn without(results: Seq<SearchResult>, id: u64) -> Seq<SearchResult>
    decreases results.len(),
{
    if results.len() == 0 {
        Seq::empty()
    } else {
        let before = without(results.drop_last(), id);
        if results.last().id == id {
            before
        } else {
            before.push(results.last())
        }
    }
}

/// The result for the vector at a position.
spec fn result_at(index: TurboIndex, scores: Map<int, Scalar>, p: int) -> SearchResult {
    SearchResult { id: index.identifiers()[p], score: scores[p] }
}

/// Position `a` comes before position `b` in a search with the given scores.
spec fn ahead(scores: Map<int, Scalar>, a: int, b: int) -> bool {
    let (x, y) = (scores[a].descending_key(), scores[b].descending_key());
    x < y || (x == y && a < b)
}

spec fn in_order(scores: Map<int, Scalar>, list: Seq<int>) -> bool {
    forall|i: int, j: int| 0 <= i < j < list.len() ==> ahead(scores, #[trigger] list[i], #[trigger] list[j])
}

spec fn same_members(a: Seq<int>, b: Seq<int>) -> bool {
    forall|p: int| #[trigger] a.contains(p) <==> b.contains(p)
}

/// Two lists of the same positions that are both in order are the same.
proof fn lemma_one_order(scores: Map<int, Scalar>, a: Seq<int>, b: Seq<int>)
    requires
        in_order(scores, a),
        in_order(scores, b),
        same_members(a, b),
    ensures
        a == b,
    decreases a.len() + b.len(),
{
    if a.len() == 0 {
        if b.len() > 0 {
            assert(b.contains(b[0]));
            assert(a.contains(b[0]));
        }
        assert(a =~= b);
    } else {
        assert(a.contains(a[a.len() - 1]));
        assert(b.contains(a.last()));
        let i = choose|i: int| 0 <= i < b.len() && b[i] == a.last();
        assert(b.contains(b[b.len() - 1]));
        assert(a.contains(b.last()));
        let j = choose|j: int| 0 <= j < a.len() && a[j] == b.last();
        if i < b.len() - 1 {
            assert(ahead(scores, b[i], b[b.len() - 1]));
            if j < a.len() - 1 {
                assert(ahead(scores, a[j], a[a.len() - 1]));
            }
        }
        assert(a.last() == b.last());
        let (c, d) = (a.drop_last(), b.drop_last());
        assert forall|p: int| #[trigger] c.contains(p) <==> d.contains(p) by {
            if c.contains(p) {
                let k = choose|k: int| 0 <= k < c.len() && c[k] == p;
                assert(a[k] == p);
                assert(ahead(scores, a[k], a[a.len() - 1]));
                assert(a.contains(p));
                assert(b.contains(p));
                let n = choose|n: int| 0 <= n < b.len() && b[n] == p;
                assert(d[n] == p);
            }
            if d.contains(p) {
                let k = choose|k: int| 0 <= k < d.len() && d[k] == p;
                assert(b[k] == p);
                assert(ahead(scores, b[k], b[b.len() - 1]));
                assert(b.contains(p));
                assert(a.contains(p));
                let n = choose|n: int| 0 <= n < a.len() && a[n] == p;
                assert(c[n] == p);
            }
        }
        lemma_one_order(scores, c, d);
        assert(a =~= c.push(a.last()));
        assert(b =~= d.push(b.last()));
    }
}

/// The positions of a list whose identifier is another one.
spec fn others(index: TurboIndex, list: Seq<int>, id: u64) -> Seq<int>
    decreases list.len(),
{
    if list.len() == 0 {
        Seq::empty()
    } else {
        let before = others(index, list.drop_last(), id);
        if index.identifiers()[list.last()] == id {
            before
        } else {
            before.push(list.last())
        }
    }
}

proof fn lemma_others(index: TurboIndex, scores: Map<int, Scalar>, list: Seq<int>, id: u64)
    requires
        in_order(scores, list),
    ensures
        others(index, list, id).len() <= list.len(),
        in_order(scores, others(index, list, id)),
        forall|p: int| #[trigger]
            others(index, list, id).contains(p) <==> list.contains(p) && index.identifiers()[p] != id,
        without(list.map_values(|p: int| result_at(index, scores, p)), id) == others(index, list, id).map_values(
            |p: int| result_at(index, scores, p),
        ),
    decreases list.len(),
{
    let kept = others(index, list, id);
    let f = |p: int| result_at(index, scores, p);
    if list.len() > 0 {
        let rest = list.drop_last();
        let last = list.last();
        assert forall|i: int, j: int| 0 <= i < j < rest.len() implies ahead(
            scores,
            #[trigger] rest[i],
            #[trigger] rest[j],
        ) by {
            assert(ahead(scores, list[i], list[j]));
        }
        lemma_others(index, scores, rest, id);
        let before = others(index, rest, id);
        assert(list.map_values(f).drop_last() =~= rest.map_values(f));
        assert forall|p: int| #[trigger] kept.contains(p) <==> list.contains(p) && index.identifiers()[p] != id by {
            if kept.contains(p) {
                let k = choose|k: int| 0 <= k < kept.len() && kept[k] == p;
                if k < before.len() {
                    assert(before[k] == p);
                    assert(before.contains(p));
                    let n = choose|n: int| 0 <= n < rest.len() && rest[n] == p;
                    assert(list[n] == p);
                } else {
                    assert(list[list.len() - 1] == p);
                }
            }
            if list.contains(p) && index.identifiers()[p] != id {
                let n = choose|n: int| 0 <= n < list.len() && list[n] == p;
                if n < rest.len() {
                    assert(rest[n] == p);
                    assert(before.contains(p));
                    let k = choose|k: int| 0 <= k < before.len() && before[k] == p;
                    assert(kept[k] == p);
                } else {
                    assert(kept[kept.len() - 1] == p);
                }
            }
        }
        assert forall|i: int, j: int| 0 <= i < j < kept.len() implies ahead(
            scores,
            #[trigger] kept[i],
            #[trigger] kept[j],
        ) by {
            assert(kept[i] == before[i]);
            if j < before.len() {
                assert(kept[j] == before[j]);
            } else {
                assert(before.contains(before[i]));
                let n = choose|n: int| 0 <= n < rest.len() && rest[n] == before[i];
                assert(ahead(scores, list[n], list[list.len() - 1]));
            }
        }
        assert(kept.map_values(f) =~= (if index.identifiers()[last] == id {
            before.map_values(f)
        } else {
            before.map_values(f).push(f(last))
        }));
    } else {
        assert(list.map_values(f) =~= Seq::empty());
        assert(kept.map_values(f) =~= Seq::empty());
    }
}

/// The scores by position.
spec fn by_position(positions: Seq<int>, scores: Seq<Scalar>) -> Map<int, Scalar> {
    Map::new(|p: int| positions.contains(p), |p: int| scores[positions.index_of(p)])
}

proof fn lemma_by_position(positions: Seq<int>, scores: Seq<Scalar>, k: int)
    requires
        0 <= k < positions.len(),
        forall|i: int, j: int| 0 <= i < j < positions.len() ==> #[trigger] positions[i] < #[trigger] positions[j],
    ensures
        by_position(positions, scores)[positions[k]] == scores[k],
{
    assert(positions.contains(positions[k]));
    let i = positions.index_of(positions[k]);
    assert(0 <= i < positions.len() && positions[i] == positions[k]);
    if i < k {
        assert(positions[i] < positions[k]);
    } else if k < i {
        assert(positions[k] < positions[i]);
    }
}

/// After a delete a search for all vectors finds what it found before without the vectors of
/// the identifier, in the same order. A second delete changes nothing.
pub proof fn law_delete_leaves_the_others<
    T: Fn(&[Scalar], &[Scalar]) -> Scalar,
    F: Fn(Scalar, bool, Scalar) -> Scalar,
    G: Fn(Scalar, Scalar) -> Scalar,
    H: Fn(Scalar, Scalar, Scalar) -> Scalar,
>(
    before: TurboIndex,
    id: u64,
    after: TurboIndex,
    q: PreparedQuery,
    file: Seq<u8>,
    top_k: int,
    dot: T,
    step: F,
    scale: G,
    finish: H,
    results: Seq<SearchResult>,
)
    requires
        after.compression() == before.compression(),
        after.store() == before.store(),
        after.identifiers() == before.identifiers(),
        after.removed() == before.removed().insert(id),
        before.identifiers().len() <= usize::MAX,
        top_k >= before.live_positions().len(),
        before.finds(q, file, top_k, dot, step, scale, finish, results),
    ensures
        after.finds(q, file, top_k, dot, step, scale, finish, without(results, id)),
        after.removed().insert(id) == after.removed(),
{
    let ids = before.identifiers();
    let (old_live, new_live) = (before.live_positions(), after.live_positions());
    lemma_live(ids, before.removed());
    lemma_live(ids, after.removed());
    let scores = choose|scores: Seq<Scalar>|
        {
            &&& #[trigger] before.are_best(scores, top_k, results)
            &&& scores.len() == old_live.len()
            &&& forall|k: int|
                0 <= k < scores.len() ==> before.scored(q, file, old_live[k], dot, step, scale, finish, #[trigger] scores[k])
        };
    let keys = TurboIndex::score_keys(scores);
    let picks = choose|picks: Seq<usize>| #[trigger]
        is_leading(keys, picks, top_k) && results == picks.map_values(
            |k: usize| SearchResult { id: ids[old_live[k as int]], score: scores[k as int] },
        );
    let at = by_position(old_live, scores);
    let list = picks.map_values(|k: usize| old_live[k as int]);
    let f = |p: int| result_at(before, at, p);
    assert(results =~= list.map_values(f)) by {
        assert forall|i: int| 0 <= i < results.len() implies results[i] == list.map_values(f)[i] by {
            lemma_by_position(old_live, scores, picks[i] as int);
        }
    }
    assert(in_order(at, list)) by {
        assert forall|i: int, j: int| 0 <= i < j < list.len() implies ahead(at, #[trigger] list[i], #[trigger] list[j]) by {
            let (a, b) = (picks[i] as int, picks[j] as int);
            assert(precedes(keys, picks[i] as int, picks[j] as int));
            lemma_by_position(old_live, scores, a);
            lemma_by_position(old_live, scores, b);
        }
    }
    assert(is_stable_order(keys, picks));
    lemma_order_is_permutation(keys, picks);
    assert forall|p: int| #[trigger] list.contains(p) <==> old_live.contains(p) by {
        if list.contains(p) {
            let i = choose|i: int| 0 <= i < list.len() && list[i] == p;
            assert(old_live[picks[i] as int] == p);
        }
        if old_live.contains(p) {
            let k = choose|k: int| 0 <= k < old_live.len() && old_live[k] == p;
            assert(picks.contains(k as usize));
            let i = choose|i: int| 0 <= i < picks.len() && picks[i] == k as usize;
            assert(list[i] == p);
        }
    }
    lemma_others(before, at, list, id);
    let kept = others(before, list, id);

    let new_scores = Seq::new(new_live.len(), |k: int| at[new_live[k]]);
    let new_keys = TurboIndex::score_keys(new_scores);
    lemma_order_exists(new_keys);
    let order = choose|order: Seq<usize>| is_stable_order(new_keys, order);
    lemma_order_is_permutation(new_keys, order);
    let new_list = order.map_values(|k: usize| new_live[k as int]);
    assert(in_order(at, new_list)) by {
        assert forall|i: int, j: int| 0 <= i < j < new_list.len() implies ahead(
            at,
            #[trigger] new_list[i],
            #[trigger] new_list[j],
        ) by {
            assert(precedes(new_keys, order[i] as int, order[j] as int));
        }
    }
    assert(same_members(kept, new_list)) by {
        assert forall|p: int| #[trigger] kept.contains(p) <==> new_list.contains(p) by {
            if kept.contains(p) {
                assert(list.contains(p));
                assert(old_live.contains(p));
                let k = choose|k: int| 0 <= k < old_live.len() && old_live[k] == p;
                assert(!before.removed().contains(ids[old_live[k]]));
                assert(new_live.contains(p));
                let n = choose|n: int| 0 <= n < new_live.len() && new_live[n] == p;
                assert(order.contains(n as usize));
                let i = choose|i: int| 0 <= i < order.len() && order[i] == n as usize;
                assert(new_list[i] == p);
            }
            if new_list.contains(p) {
                let i = choose|i: int| 0 <= i < new_list.len() && new_list[i] == p;
                let n = order[i] as int;
                assert(new_live[n] == p);
                assert(!after.removed().contains(ids[new_live[n]]));
                assert(old_live.contains(p));
                assert(list.contains(p));
            }
        }
    }
    lemma_one_order(at, kept, new_list);
    let found = without(results, id);
    assert(found == kept.map_values(f));
    assert(found =~= order.map_values(
        |k: usize|
            SearchResult { id: after.identifiers()[after.live_positions()[k as int]], score: new_scores[k as int] },
    ));
    assert(is_leading(new_keys, order, top_k)) by {
        assert forall|m: usize, i: int|
            m < new_keys.len() && !(#[trigger] order.contains(m)) && 0 <= i < order.len() implies precedes(
            new_keys,
            #[trigger] order[i] as int,
            m as int,
        ) by {
            assert(order.contains(m as int as usize));
        }
    }
    assert(after.are_best(new_scores, top_k, found));
    assert forall|k: int| 0 <= k < new_scores.len() implies after.scored(
        q,
        file,
        new_live[k],
        dot,
        step,
        scale,
        finish,
        #[trigger] new_scores[k],
    ) by {
        let p = new_live[k];
        assert(!after.removed().contains(ids[new_live[k]]));
        assert(old_live.contains(p));
        let n = choose|n: int| 0 <= n < old_live.len() && old_live[n] == p;
        lemma_by_position(old_live, scores, n);
        assert(before.scored(q, file, old_live[n], dot, step, scale, finish, scores[n]));
    }
    assert(after.removed().insert(id) =~= after.removed());
}

/// Inserting an identifier that no vector has raises the number of live vectors by one, and a
/// search for all of them finds it. The other vectors keep their scores.
pub proof fn law_new_vector_is_found<
    T: Fn(&[Scalar], &[Scalar]) -> Scalar,
    F: Fn(Scalar, bool, Scalar) -> Scalar,
    G: Fn(Scalar, Scalar) -> Scalar,
    H: Fn(Scalar, Scalar, Scalar) -> Scalar,
>(
    before: TurboIndex,
    file: Seq<u8>,
    id: u64,
    v: StoredVector,
    w: Appended,
    after: TurboIndex,
    q: PreparedQuery,
    top_k: int,
    dot: T,
    step: F,
    scale: G,
    finish: H,
    results: Seq<SearchResult>,
)
    requires
        before.tidy(),
        !before.identifiers().contains(id),
        before.store().in_step(file),
        before.identifiers().len() == before.store().count(),
        appends(before.store(), v, after.store(), w),
        after.identifiers() == before.identifiers().push(id),
        after.removed() == before.removed(),
        after.compression() == before.compression(),
        top_k >= after.live_positions().len(),
        after.finds(q, w.written_to(file), top_k, dot, step, scale, finish, results),
    ensures
        after.live_positions() == before.live_positions().push(before.identifiers().len() as int),
        exists|j: int| 0 <= j < results.len() && (#[trigger] results[j]).id == id,
        forall|i: int, score: Scalar|
            0 <= i < before.identifiers().len() ==> #[trigger] after.scored(
                q,
                w.written_to(file),
                i,
                dot,
                step,
                scale,
                finish,
                score,
            ) == before.scored(q, file, i, dot, step, scale, finish, score),
{
    assert(!before.removed().contains(id));
    law_insert_adds(before, file, id, v, w, after);
    let live = after.live_positions();
    let scores = choose|scores: Seq<Scalar>|
        #[trigger] after.are_best(scores, top_k, results) && scores.len() == live.len();
    let keys = TurboIndex::score_keys(scores);
    let picks = choose|picks: Seq<usize>| #[trigger]
        is_leading(keys, picks, top_k) && results == picks.map_values(
            |k: usize| SearchResult { id: after.identifiers()[live[k as int]], score: scores[k as int] },
        );
    assert(before.store().count() <= u32::MAX);
    lemma_live(before.identifiers(), before.removed());
    assert(is_stable_order(keys, picks));
    lemma_order_is_permutation(keys, picks);
    let last = live.len() - 1;
    assert(picks.contains(last as usize));
    let j = choose|j: int| 0 <= j < picks.len() && picks[j] == last as usize;
    assert(results[j].id == id);
    assert forall|i: int, score: Scalar| 0 <= i < before.identifiers().len() implies #[trigger] after.scored(
        q,
        w.written_to(file),
        i,
        dot,
        step,
        scale,
        finish,
        score,
    ) == before.scored(q, file, i, dot, step, scale, finish, score) by {
        let data = after.store().record_at(w.written_to(file), i);
        assert forall|lv: LloydMaxVector| after.store().holds(data, lv) == #[trigger] before.store().holds(data, lv) by {}
    }
}

/// Where the live vectors of two indices have the same scores in the same order, what a search
/// of one finds a search of the other finds.
proof fn lemma_finds_carries<
    T: Fn(&[Scalar], &[Scalar]) -> Scalar,
    F: Fn(Scalar, bool, Scalar) -> Scalar,
    G: Fn(Scalar, Scalar) -> Scalar,
    H: Fn(Scalar, Scalar, Scalar) -> Scalar,
>(
    a: TurboIndex,
    a_file: Seq<u8>,
    b: TurboIndex,
    b_file: Seq<u8>,
    q: PreparedQuery,
    top_k: int,
    dot: T,
    step: F,
    scale: G,
    finish: H,
    results: Seq<SearchResult>,
)
    requires
        a.live_positions().len() == b.live_positions().len(),
        forall|k: int, score: Scalar|
            0 <= k < a.live_positions().len() ==> b.scored(
                q,
                b_file,
                b.live_positions()[k],
                dot,
                step,
                scale,
                finish,
                score,
            ) == #[trigger] a.scored(q, a_file, a.live_positions()[k], dot, step, scale, finish, score),
        forall|scores: Seq<Scalar>|
            scores.len() == a.live_positions().len() ==> b.are_best(scores, top_k, results)
                == #[trigger] a.are_best(scores, top_k, results),
    ensures
        a.finds(q, a_file, top_k, dot, step, scale, finish, results) ==> b.finds(
            q,
            b_file,
            top_k,
            dot,
            step,
            scale,
            finish,
            results,
        ),
{
    if a.finds(q, a_file, top_k, dot, step, scale, finish, results) {
        let scores = choose|scores: Seq<Scalar>|
            {
                &&& #[trigger] a.are_best(scores, top_k, results)
                &&& scores.len() == a.live_positions().len()
                &&& forall|k: int|
                    0 <= k < scores.len() ==> a.scored(
                        q,
                        a_file,
                        a.live_positions()[k],
                        dot,
                        step,
                        scale,
                        finish,
                        #[trigger] scores[k],
                    )
            };
        assert(b.are_best(scores, top_k, results));
        assert forall|k: int| 0 <= k < scores.len() implies b.scored(
            q,
            b_file,
            b.live_positions()[k],
            dot,
            step,
            scale,
            finish,
            #[trigger] scores[k],
        ) by {
            assert(a.scored(q, a_file, a.live_positions()[k], dot, step, scale, finish, scores[k]));
        }
    }
}

/// Every search finds after a compaction what it found before.
pub proof fn law_compact_keeps_search<
    T: Fn(&[Scalar], &[Scalar]) -> Scalar,
    F: Fn(Scalar, bool, Scalar) -> Scalar,
    G: Fn(Scalar, Scalar) -> Scalar,
    H: Fn(Scalar, Scalar, Scalar) -> Scalar,
>(
    before: TurboIndex,
    old_file: Seq<u8>,
    after: TurboIndex,
    new_file: Seq<u8>,
    q: PreparedQuery,
    top_k: int,
    dot: T,
    step: F,
    scale: G,
    finish: H,
    results: Seq<SearchResult>,
)
    requires
        before.matched(),
        after.matched(),
        after.dimension() == before.dimension(),
        after.width() == before.width(),
        after.compression() == before.compression(),
        after.removed() == Set::<u64>::empty(),
        after.identifiers() == before.live_identifiers(),
        forall|k: int|
            0 <= k < before.live_positions().len() ==> #[trigger] after.store().record_at(new_file, k)
                == before.store().record_at(old_file, before.live_positions()[k]),
    ensures
        after.live_positions().len() == before.live_positions().len(),
        after.finds(q, new_file, top_k, dot, step, scale, finish, results) == before.finds(
            q,
            old_file,
            top_k,
            dot,
            step,
            scale,
            finish,
            results,
        ),
{
    law_compact_keeps_results(before, old_file, after, new_file, q, dot, step, scale, finish);
    assert forall|k: int, score: Scalar| 0 <= k < before.live_positions().len() implies after.scored(
        q,
        new_file,
        after.live_positions()[k],
        dot,
        step,
        scale,
        finish,
        score,
    ) == #[trigger] before.scored(q, old_file, before.live_positions()[k], dot, step, scale, finish, score) by {
        let same = after.scored(q, new_file, after.live_positions()[k], dot, step, scale, finish, score);
    }
    assert forall|scores: Seq<Scalar>| scores.len() == before.live_positions().len() implies after.are_best(
        scores,
        top_k,
        results,
    ) == #[trigger] before.are_best(scores, top_k, results) by {
        let same = after.are_best(scores, top_k, results);
    }
    lemma_finds_carries(before, old_file, after, new_file, q, top_k, dot, step, scale, finish, results);
    lemma_finds_carries(after, new_file, before, old_file, q, top_k, dot, step, scale, finish, results);
}

/// What a compaction leaves out is gone: no vector has an identifier that counted as deleted.
pub proof fn law_compact_forgets(before: TurboIndex, after: TurboIndex)
    requires
        after.removed() == Set::<u64>::empty(),
        after.identifiers() == before.live_identifiers(),
    ensures
        forall|x: u64| #[trigger] before.removed().contains(x) ==> !after.identifiers().contains(x),
{
    lemma_live(before.identifiers(), before.removed());
    assert forall|x: u64| #[trigger] before.removed().contains(x) implies !after.identifiers().contains(x) by {
        if after.identifiers().contains(x) {
            let k = choose|k: int| 0 <= k < after.identifiers().len() && after.identifiers()[k] == x;
            assert(!before.removed().contains(before.identifiers()[before.live_positions()[k]]));
        }
    }
}

/// An index with the contents of its files.
pub ghost struct Kept {
    pub index: TurboIndex,
    pub storage: Seq<u8>,
    pub meta: Seq<u8>,
}

impl Kept {
    /// The files are those of the index.
    pub open spec fn in_step(&self) -> bool {
        &&& self.index.wf()
        &&& self.index.tidy()
        &&& self.index.store().in_step(self.storage)
        &&& self.index.saved_as(self.meta)
    }

    /// Both are of vectors that are compressed alike, and their files have the same seeds.
    pub open spec fn alike(&self, other: Kept) -> bool {
        &&& other.index.compression() == self.index.compression()
        &&& other.index.dimension() == self.index.dimension()
        &&& other.index.width() == self.index.width()
        &&& other.index.seeds() == self.index.seeds()
    }

    /// `next` is what an insert makes of this, its writes done.
    pub open spec fn inserts(&self, id: u64, v: StoredVector, w: Appended, next: Kept) -> bool {
        &&& self.alike(next)
        &&& appends(self.index.store(), v, next.index.store(), w)
        &&& next.index.identifiers() == self.index.identifiers().push(id)
        &&& next.index.removed() == self.index.removed()
        &&& next.index.saved_as(next.meta)
        &&& next.storage == w.written_to(self.storage)
    }

    /// `next` is what a delete makes of this, its write done.
    pub open spec fn deletes(&self, id: u64, next: Kept) -> bool {
        &&& self.alike(next)
        &&& self.index.identifiers().contains(id)
        &&& next.index.store() == self.index.store()
        &&& next.index.identifiers() == self.index.identifiers()
        &&& next.index.removed() == self.index.removed().insert(id)
        &&& next.index.saved_as(next.meta)
        &&& next.storage == self.storage
    }

    /// `next` is what a compaction makes of this, its writes done.
    pub open spec fn compacts(&self, next: Kept) -> bool {
        &&& self.alike(next)
        &&& next.index.wf()
        &&& next.index.removed() == Set::<u64>::empty()
        &&& next.index.identifiers() == self.index.live_identifiers()
        &&& next.index.store().in_step(next.storage)
        &&& forall|k: int|
            0 <= k < self.index.live_positions().len() ==> #[trigger] next.index.store().record_at(next.storage, k)
                == self.index.store().record_at(self.storage, self.index.live_positions()[k])
        &&& next.index.saved_as(next.meta)
    }

    /// `next` is what one call makes of this: an insert, a delete, a compaction, or one that
    /// changes nothing.
    pub open spec fn steps(&self, next: Kept) -> bool {
        ||| exists|id: u64, v: StoredVector, w: Appended| #[trigger] self.inserts(id, v, w, next)
        ||| exists|id: u64| #[trigger] self.deletes(id, next)
        ||| self.compacts(next)
        ||| next == *self
    }
}

/// `history` starts with a new index, and each of its later states is what one call made of
/// the one before.
pub open spec fn is_history(history: Seq<Kept>) -> bool {
    &&& history.len() > 0
    &&& history[0].in_step()
    &&& history[0].index.identifiers() == Seq::<u64>::empty()
    &&& forall|i: int| 0 < i < history.len() ==> history[i - 1].steps(#[trigger] history[i])
}

proof fn lemma_step_keeps(before: Kept, next: Kept)
    requires
        before.in_step(),
        before.steps(next),
    ensures
        next.in_step(),
        before.alike(next),
{
    if exists|id: u64, v: StoredVector, w: Appended| #[trigger] before.inserts(id, v, w, next) {
        let (id, v, w) = choose|id: u64, v: StoredVector, w: Appended| #[trigger] before.inserts(id, v, w, next);
        law_insert_adds(before.index, before.storage, id, v, w, next.index);
        assert forall|x: u64| #[trigger] next.index.removed().contains(x) implies next.index.identifiers().contains(x) by {
            assert(before.index.removed().contains(x));
            let k = choose|k: int| 0 <= k < before.index.identifiers().len() && before.index.identifiers()[k] == x;
            assert(next.index.identifiers()[k] == x);
        }
    } else if exists|id: u64| #[trigger] before.deletes(id, next) {
        let id = choose|id: u64| #[trigger] before.deletes(id, next);
        assert forall|x: u64| #[trigger] next.index.removed().contains(x) implies next.index.identifiers().contains(x) by {
            assert(x == id || before.index.removed().contains(x));
        }
    }
}

proof fn lemma_history_keeps(history: Seq<Kept>, n: int)
    requires
        is_history(history),
        0 <= n < history.len(),
    ensures
        history[n].in_step(),
        history[0].alike(history[n]),
    decreases n,
{
    if n > 0 {
        lemma_history_keeps(history, n - 1);
        lemma_step_keeps(history[n - 1], history[n]);
    }
}

/// After any inserts, deletes and compactions, opening the files with the same quantizer gives
/// the index back: it has as many live vectors, and every search finds the same.
pub proof fn law_reopened_index_is_the_same<
    T: Fn(&[Scalar], &[Scalar]) -> Scalar,
    F: Fn(Scalar, bool, Scalar) -> Scalar,
    G: Fn(Scalar, Scalar) -> Scalar,
    H: Fn(Scalar, Scalar, Scalar) -> Scalar,
>(
    history: Seq<Kept>,
    m: MetaFields,
    opened: TurboIndex,
    q: PreparedQuery,
    top_k: int,
    dot: T,
    step: F,
    scale: G,
    finish: H,
    results: Seq<SearchResult>,
)
    requires
        is_history(history),
        history.last().meta.len() <= u64::MAX,
        encoded_meta(m).is_prefix_of(history.last().meta),
        opened.loaded_from(m),
        opened.store().described_by(history.last().storage),
        opened.compression().quantizer() == history.last().index.compression().quantizer(),
    ensures
        opened.compression() == history.last().index.compression(),
        opened.identifiers() == history.last().index.identifiers(),
        opened.removed() == history.last().index.removed(),
        opened.next() == history.last().index.next(),
        opened.seeds() == history.last().index.seeds(),
        opened.store() == history.last().index.store(),
        opened.live_positions() == history.last().index.live_positions(),
        opened.wf(),
        opened.can_read(history.last().storage),
        opened.finds(q, history.last().storage, top_k, dot, step, scale, finish, results)
            == history.last().index.finds(q, history.last().storage, top_k, dot, step, scale, finish, results),
{
    let last = history.last();
    let index = last.index;
    lemma_history_keeps(history, history.len() - 1);
    crate::turboquant::lemma_same_compressor(opened.compression(), index.compression());
    law_open_gives_index_back(index, last.meta, last.storage, m, opened);
    lemma_live(opened.identifiers(), opened.removed());
    assert forall|k: int| 0 <= k < opened.live_positions().len() implies opened.store().readable(
        last.storage,
        #[trigger] opened.live_positions()[k],
    ) by {
        crate::storage::law_in_step_readable(opened.store(), last.storage, opened.live_positions()[k]);
    }
    crate::index::lemma_matched_reads(opened, last.storage);
    assert forall|i: int, score: Scalar| #[trigger]
        opened.scored(q, last.storage, i, dot, step, scale, finish, score) == index.scored(
            q,
            last.storage,
            i,
            dot,
            step,
            scale,
            finish,
            score,
        ) by {}
    assert forall|scores: Seq<Scalar>| #[trigger] opened.are_best(scores, top_k, results) == index.are_best(
        scores,
        top_k,
        results,
    ) by {}
    lemma_finds_carries(opened, last.storage, index, last.storage, q, top_k, dot, step, scale, finish, results);
    lemma_finds_carries(index, last.storage, opened, last.storage, q, top_k, dot, step, scale, finish, results);
}

/// A result is the vector at a position: it has its identifier, which is not deleted, and its
/// similarity to the query.
pub open spec fn is_result_at<
    T: Fn(&[Scalar], &[Scalar]) -> Scalar,
    F: Fn(Scalar, bool, Scalar) -> Scalar,
    G: Fn(Scalar, Scalar) -> Scalar,
    H: Fn(Scalar, Scalar, Scalar) -> Scalar,
>(
    index: TurboIndex,
    prepared: PreparedQuery,
    file: Seq<u8>,
    dot: T,
    step: F,
    scale: G,
    finish: H,
    r: SearchResult,
    i: int,
) -> bool {
    &&& 0 <= i < index.identifiers().len()
    &&& r.id == index.identifiers()[i]
    &&& !index.removed().contains(r.id)
    &&& index.scored(prepared, file, i, dot, step, scale, finish, r.score)
}

/// A result is the vector at some position.
pub open spec fn is_result<
    T: Fn(&[Scalar], &[Scalar]) -> Scalar,
    F: Fn(Scalar, bool, Scalar) -> Scalar,
    G: Fn(Scalar, Scalar) -> Scalar,
    H: Fn(Scalar, Scalar, Scalar) -> Scalar,
>(
    index: TurboIndex,
    prepared: PreparedQuery,
    file: Seq<u8>,
    dot: T,
    step: F,
    scale: G,
    finish: H,
    r: SearchResult,
) -> bool {
    exists|i: int| #[trigger] is_result_at(index, prepared, file, dot, step, scale, finish, r, i)
}

/// The vector at a position has a similarity to the query that is found, or that is no higher than
/// any found.
pub open spec fn is_considered<
    T: Fn(&[Scalar], &[Scalar]) -> Scalar,
    F: Fn(Scalar, bool, Scalar) -> Scalar,
    G: Fn(Scalar, Scalar) -> Scalar,
    H: Fn(Scalar, Scalar, Scalar) -> Scalar,
>(
    index: TurboIndex,
    prepared: PreparedQuery,
    file: Seq<u8>,
    dot: T,
    step: F,
    scale: G,
    finish: H,
    results: Seq<SearchResult>,
    i: int,
) -> bool {
    exists|score: Scalar|
        {
            &&& #[trigger] index.scored(prepared, file, i, dot, step, scale, finish, score)
            &&& results.contains(SearchResult { id: index.identifiers()[i], score }) || forall|j: int|
                0 <= j < results.len() ==> (#[trigger] results[j]).score.at_least(score) || score.nan()
        }
}

/// A search finds the best of all vectors that are not deleted: as many as asked for, or all where
/// there are fewer. Each result is such a vector with its similarity, they come from the highest
/// on, and none that is left out is more similar than one found. What is no number comes last.
#[verifier::rlimit(40)]
pub proof fn law_search_finds_the_best<
    T: Fn(&[Scalar], &[Scalar]) -> Scalar,
    F: Fn(Scalar, bool, Scalar) -> Scalar,
    G: Fn(Scalar, Scalar) -> Scalar,
    H: Fn(Scalar, Scalar, Scalar) -> Scalar,
>(
    index: TurboIndex,
    prepared: PreparedQuery,
    file: Seq<u8>,
    top_k: int,
    dot: T,
    step: F,
    scale: G,
    finish: H,
    results: Seq<SearchResult>,
)
    requires
        0 <= top_k,
        index.identifiers().len() <= usize::MAX,
        index.finds(prepared, file, top_k, dot, step, scale, finish, results),
    ensures
        results.len() <= top_k,
        results.len() == top_k || results.len() == index.identifiers().filter(
            |id: u64| !index.removed().contains(id),
        ).len(),
        forall|j: int|
            0 <= j < results.len() ==> is_result(
                index,
                prepared,
                file,
                dot,
                step,
                scale,
                finish,
                #[trigger] results[j],
            ),
        forall|i: int, j: int|
            0 <= i < j < results.len() ==> (#[trigger] results[i]).score.at_least((#[trigger] results[j]).score)
                || results[j].score.nan(),
        forall|i: int|
            0 <= i < index.identifiers().len() && !index.removed().contains(#[trigger] index.identifiers()[i])
                ==> is_considered(index, prepared, file, dot, step, scale, finish, results, i),
        index.identifiers().no_duplicates() ==> forall|i: int, j: int|
            0 <= i < j < results.len() ==> (#[trigger] results[i]).id != (#[trigger] results[j]).id,
{
    let ids = index.identifiers();
    let positions = index.live_positions();
    let scores = choose|scores: Seq<Scalar>|
        {
            &&& #[trigger] index.are_best(scores, top_k, results)
            &&& scores.len() == positions.len()
            &&& forall|k: int|
                0 <= k < scores.len() ==> index.scored(
                    prepared,
                    file,
                    positions[k],
                    dot,
                    step,
                    scale,
                    finish,
                    #[trigger] scores[k],
                )
        };
    let keys = TurboIndex::score_keys(scores);
    let picks = choose|picks: Seq<usize>| #[trigger]
        is_leading(keys, picks, top_k) && results == picks.map_values(
            |k: usize| SearchResult { id: ids[positions[k as int]], score: scores[k as int] },
        );
    lemma_live(ids, index.removed());
    lemma_live_count(ids, index.removed());
    law_leading_are_least(keys, picks, top_k);
    assert forall|j: int| 0 <= j < results.len() implies is_result(
        index,
        prepared,
        file,
        dot,
        step,
        scale,
        finish,
        #[trigger] results[j],
    ) by {
        let k = picks[j] as int;
        let i = positions[k];
        assert(scores[k] == results[j].score);
        assert(is_result_at(index, prepared, file, dot, step, scale, finish, results[j], i));
    }
    assert forall|i: int, j: int| 0 <= i < j < results.len() implies (#[trigger] results[i]).score.at_least(
        (#[trigger] results[j]).score,
    ) || results[j].score.nan() by {
        assert(keys[picks[i] as int] <= keys[picks[j] as int]);
        lemma_descending_key(results[i].score, results[j].score);
        lemma_descending_key(results[j].score, results[i].score);
    }
    assert forall|i: int| 0 <= i < ids.len() && !index.removed().contains(#[trigger] ids[i]) implies is_considered(
        index,
        prepared,
        file,
        dot,
        step,
        scale,
        finish,
        results,
        i,
    ) by {
        assert(positions.contains(i));
        let k = choose|k: int| 0 <= k < positions.len() && positions[k] == i;
        let score = scores[k];
        assert(index.scored(prepared, file, i, dot, step, scale, finish, score));
        if picks.contains(k as usize) {
            let j = choose|j: int| 0 <= j < picks.len() && picks[j] == k as usize;
            assert(results[j] == (SearchResult { id: ids[i], score }));
        } else {
            assert forall|j: int| 0 <= j < results.len() implies (#[trigger] results[j]).score.at_least(score)
                || score.nan() by {
                assert(keys[picks[j] as int] <= keys[k]);
                lemma_descending_key(results[j].score, score);
                lemma_descending_key(score, results[j].score);
            }
        }
    }
    if ids.no_duplicates() {
        assert forall|i: int, j: int| 0 <= i < j < results.len() implies (#[trigger] results[i]).id != (
        #[trigger] results[j]).id by {
            let (a, b) = (picks[i] as int, picks[j] as int);
            assert(picks[i] != picks[j]);
            if a < b {
                assert(positions[a] < positions[b]);
            } else {
                assert(positions[b] < positions[a]);
            }
            assert(ids[positions[a]] != ids[positions[b]]);
        }
    }
}

proof fn lemma_live_count(ids: Seq<u64>, deleted: Set<u64>)
    ensures
        live(ids, deleted).len() == ids.filter(|id: u64| !deleted.contains(id)).len(),
    decreases ids.len(),
{
    reveal(Seq::filter);
    if ids.len() > 0 {
        lemma_live_count(ids.drop_last(), deleted);
    }
}

/// The number of vectors of an index is that of its identifiers that are not deleted. What a
/// compaction keeps are these identifiers, in order.
pub proof fn law_live_identifiers(index: TurboIndex)
    ensures
        index.live_positions().len() == index.identifiers().filter(|id: u64| !index.removed().contains(id)).len(),
        index.live_identifiers() == index.identifiers().filter(|id: u64| !index.removed().contains(id)),
{
    lemma_live_count(index.identifiers(), index.removed());
    lemma_live_ids(index.identifiers(), index.removed(), index.identifiers());
    assert(index.live_identifiers() =~= index.identifiers().filter(|id: u64| !index.removed().contains(id)));
}

proof fn lemma_live_ids(ids: Seq<u64>, deleted: Set<u64>, all: Seq<u64>)
    requires
        ids.is_prefix_of(all),
    ensures
        live(ids, deleted).map_values(|i: int| all[i]) == ids.filter(|id: u64| !deleted.contains(id)),
    decreases ids.len(),
{
    reveal(Seq::filter);
    let at = |i: int| all[i];
    if ids.len() > 0 {
        let rest = ids.drop_last();
        lemma_live_ids(rest, deleted, all);
        let before = live(rest, deleted);
        assert(all[ids.len() - 1] == ids.last());
        assert(before.push(ids.len() - 1).map_values(at) =~= before.map_values(at).push(all[ids.len() - 1]));
    } else {
        assert(live(ids, deleted).map_values(at) =~= ids.filter(|id: u64| !deleted.contains(id)));
    }
}

/// What is saved of an index are its dimension, its seeds, its width, all its identifiers in order,
/// those that count as deleted, and the next one.
pub proof fn law_what_is_saved(index: TurboIndex, m: MetaFields)
    requires
        index.described_by(m),
    ensures
        m.dim == index.dimension() && m.bits == index.width(),
        (m.rotation_seed, m.qjl_seed) == index.seeds(),
        m.ids == index.identifiers(),
        m.next_id == index.next(),
        m.version == 2,
        forall|id: u64| #[trigger] m.deleted.contains(id) <==> index.removed().contains(id),
        forall|i: int, j: int| 0 <= i < j < m.deleted.len() ==> (#[trigger] m.deleted[i]) != (#[trigger] m.deleted[j]),
{
    assert forall|id: u64| #[trigger] m.deleted.contains(id) <==> index.removed().contains(id) by {
        assert(m.deleted.to_set().contains(id) == m.deleted.contains(id));
    }
}

} // verus!
