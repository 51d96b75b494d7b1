//! Stable ordering of positions by an integer key.
use vstd::prelude::*;

verus! {

/// Position `a` comes before position `b`: a smaller key first, and among
/// equal keys the smaller position.
pub open spec fn precedes(keys: Seq<i128>, a: int, b: int) -> bool {
    keys[a] < keys[b] || (keys[a] == keys[b] && a < b)
}

/// `order` lists every position of `keys` once, each one before those that
/// it precedes. There is exactly one such sequence.
pub open spec fn is_stable_order(keys: Seq<i128>, order: Seq<usize>) -> bool {
    &&& order.len() == keys.len()
    &&& forall|i: int| 0 <= i < order.len() ==> #[trigger] order[i] < keys.len()
    &&& forall|i: int, j: int|
        0 <= i < j < order.len() ==> precedes(keys, #[trigger] order[i] as int, #[trigger] order[j] as int)
}

/// A stable order names each position exactly once.
pub proof fn lemma_order_is_permutation(keys: Seq<i128>, order: Seq<usize>)
    requires
        is_stable_order(keys, order),
    ensures
        order.no_duplicates(),
        forall|k: int| 0 <= k < keys.len() ==> #[trigger] order.contains(k as usize),
{
    assert(order.no_duplicates()) by {
        assert forall|i: int, j: int| 0 <= i < order.len() && 0 <= j < order.len() && i != j implies order[i]
            != order[j] by {
            if i < j {
                assert(precedes(keys, order[i] as int, order[j] as int));
            } else {
                assert(precedes(keys, order[j] as int, order[i] as int));
            }
        }
    }
    let positions: Seq<int> = Seq::new(order.len(), |i: int| order[i] as int);
    assert(positions.no_duplicates()) by {
        assert forall|i: int, j: int| 0 <= i < positions.len() && 0 <= j < positions.len() && i != j implies positions[i]
            != positions[j] by {
            assert(order[i] != order[j]);
        }
    }
    positions.unique_seq_to_set();
    let all = vstd::set_lib::set_int_range(0, keys.len() as int);
    vstd::set_lib::lemma_int_range(0, keys.len() as int);
    assert(positions.to_set().subset_of(all));
    vstd::set_lib::lemma_subset_equality(positions.to_set(), all);
    assert forall|k: int| 0 <= k < keys.len() implies #[trigger] order.contains(k as usize) by {
        assert(all.contains(k));
        assert(positions.to_set().contains(k));
        let i = choose|i: int| 0 <= i < positions.len() && positions[i] == k;
        assert(order[i] == k as usize);
    }
}

proof fn lemma_split(keys: Seq<i128>, order: Seq<usize>, v: i128, n: int) -> (p: int)
    requires
        0 <= n <= order.len(),
        forall|i: int, j: int| 0 <= i < j < order.len() ==> keys[#[trigger] order[i] as int] <= keys[#[trigger] order[j] as int],
        forall|i: int| n <= i < order.len() ==> keys[#[trigger] order[i] as int] > v,
    ensures
        0 <= p <= n,
        forall|i: int| 0 <= i < p ==> keys[#[trigger] order[i] as int] <= v,
        forall|i: int| p <= i < order.len() ==> keys[#[trigger] order[i] as int] > v,
    decreases n,
{
    if n == 0 {
        0
    } else if keys[order[n - 1] as int] <= v {
        n
    } else {
        lemma_split(keys, order, v, n - 1)
    }
}

/// Every sequence of keys has a stable order.
pub proof fn lemma_order_exists(keys: Seq<i128>)
    requires
        keys.len() <= usize::MAX,
    ensures
        exists|order: Seq<usize>| is_stable_order(keys, order),
    decreases keys.len(),
{
    if keys.len() == 0 {
        assert(is_stable_order(keys, Seq::<usize>::empty()));
    } else {
        let rest = keys.drop_last();
        lemma_order_exists(rest);
        let order = choose|order: Seq<usize>| is_stable_order(rest, order);
        assert forall|i: int, j: int| 0 <= i < j < order.len() implies keys[#[trigger] order[i] as int] <= keys[
        #[trigger] order[j] as int] by {
            assert(precedes(rest, order[i] as int, order[j] as int));
        }
        let p = lemma_split(keys, order, keys.last(), order.len() as int);
        let n = rest.len();
        let all = order.insert(p, n as usize);
        assert forall|i: int| 0 <= i < all.len() implies #[trigger] all[i] < keys.len() by {
            if i < p {
                assert(all[i] == order[i]);
            } else if i > p {
                assert(all[i] == order[i - 1]);
            }
        }
        assert forall|i: int, j: int| 0 <= i < j < all.len() implies precedes(
            keys,
            #[trigger] all[i] as int,
            #[trigger] all[j] as int,
        ) by {
            let a = if i < p { i } else { i - 1 };
            let b = if j < p { j } else { j - 1 };
            if i != p {
                assert(all[i] == order[a]);
            }
            if j != p {
                assert(all[j] == order[b]);
            }
            if i != p && j != p {
                assert(precedes(rest, order[a] as int, order[b] as int));
            }
        }
        assert(is_stable_order(keys, all));
    }
}

/// Two stable orders of the same keys are the same sequence.
pub proof fn lemma_order_unique(keys: Seq<i128>, a: Seq<usize>, b: Seq<usize>)
    requires
        is_stable_order(keys, a),
        is_stable_order(keys, b),
    ensures
        a == b,
{
    lemma_order_is_permutation(keys, a);
    lemma_order_is_permutation(keys, b);
    assert forall|i: int| 0 <= i < a.len() implies a[i] == b[i] by {
        lemma_order_unique_at(keys, a, b, i);
    }
    assert(a =~= b);
}

proof fn lemma_order_unique_at(keys: Seq<i128>, a: Seq<usize>, b: Seq<usize>, i: int)
    requires
        is_stable_order(keys, a),
        is_stable_order(keys, b),
        a.no_duplicates(),
        b.no_duplicates(),
        forall|k: int| 0 <= k < keys.len() ==> #[trigger] a.contains(k as usize),
        forall|k: int| 0 <= k < keys.len() ==> #[trigger] b.contains(k as usize),
        0 <= i < a.len(),
    ensures
        a[i] == b[i],
    decreases i,
{
    assert forall|j: int| 0 <= j < i implies a[j] == b[j] by {
        lemma_order_unique_at(keys, a, b, j);
    }
    if a[i] != b[i] {
        assert(b.contains(a[i] as int as usize));
        let p = choose|p: int| 0 <= p < b.len() && b[p] == a[i];
        assert(p > i) by {
            if p < i {
                assert(a[p] == b[p]);
            }
        }
        assert(a.contains(b[i] as int as usize));
        let q = choose|q: int| 0 <= q < a.len() && a[q] == b[i];
        assert(q > i) by {
            if q < i {
                assert(a[q] == b[q]);
            }
        }
        assert(precedes(keys, b[i] as int, b[p] as int));
        assert(precedes(keys, a[i] as int, a[q] as int));
    }
}

/// The run is strictly ordered and its positions lie in `lo..hi`.
spec fn ordered_run(keys: Seq<i128>, run: Seq<usize>, lo: int, hi: int) -> bool {
    &&& forall|i: int| 0 <= i < run.len() ==> lo <= #[trigger] run[i] < hi
    &&& forall|i: int, j: int|
        0 <= i < j < run.len() ==> precedes(keys, #[trigger] run[i] as int, #[trigger] run[j] as int)
}

fn merge_runs(keys: &Vec<i128>, left: &Vec<usize>, right: &Vec<usize>, lo: usize, mid: usize, hi: usize) -> (out: Vec<
    usize,
>)
    requires
        lo <= mid <= hi <= keys@.len(),
        ordered_run(keys@, left@, lo as int, mid as int),
        ordered_run(keys@, right@, mid as int, hi as int),
        left@.len() + right@.len() <= usize::MAX,
    ensures
        out@.len() == left@.len() + right@.len(),
        ordered_run(keys@, out@, lo as int, hi as int),
{
    let mut out: Vec<usize> = Vec::with_capacity(left.len() + right.len());
    let mut i: usize = 0;
    let mut j: usize = 0;
    while i < left.len() || j < right.len()
        invariant
            lo <= mid <= hi <= keys@.len(),
            ordered_run(keys@, left@, lo as int, mid as int),
            ordered_run(keys@, right@, mid as int, hi as int),
            i <= left@.len(),
            j <= right@.len(),
            out@.len() == i + j,
            ordered_run(keys@, out@, lo as int, hi as int),
            forall|x: int, y: int|
                0 <= x < out@.len() && i <= y < left@.len() ==> precedes(
                    keys@,
                    #[trigger] out@[x] as int,
                    #[trigger] left@[y] as int,
                ),
            forall|x: int, y: int|
                0 <= x < out@.len() && j <= y < right@.len() ==> precedes(
                    keys@,
                    #[trigger] out@[x] as int,
                    #[trigger] right@[y] as int,
                ),
        decreases left@.len() - i + right@.len() - j,
    {
        let take_left: bool = if j >= right.len() {
            true
        } else if i >= left.len() {
            false
        } else {
            keys[left[i]] <= keys[right[j]]
        };
        if take_left {
            out.push(left[i]);
            proof {
                assert forall|y: int| j <= y < right@.len() implies precedes(
                    keys@,
                    left@[i as int] as int,
                    #[trigger] right@[y] as int,
                ) by {
                    if j < y {
                        assert(precedes(keys@, right@[j as int] as int, right@[y] as int));
                    }
                }
            }
            i = i + 1;
        } else {
            out.push(right[j]);
            proof {
                assert forall|y: int| i <= y < left@.len() implies precedes(
                    keys@,
                    right@[j as int] as int,
                    #[trigger] left@[y] as int,
                ) by {
                    if i < y {
                        assert(precedes(keys@, left@[i as int] as int, left@[y] as int));
                    }
                }
            }
            j = j + 1;
        }
    }
    out
}

fn order_range(keys: &Vec<i128>, lo: usize, hi: usize) -> (out: Vec<usize>)
    requires
        lo <= hi <= keys@.len(),
    ensures
        out@.len() == hi - lo,
        ordered_run(keys@, out@, lo as int, hi as int),
    decreases hi - lo,
{
    let span: usize = hi - lo;
    if span == 0 {
        Vec::new()
    } else if span == 1 {
        let mut out: Vec<usize> = Vec::new();
        out.push(lo);
        out
    } else {
        let mid: usize = lo + span / 2;
        let left: Vec<usize> = order_range(keys, lo, mid);
        let right: Vec<usize> = order_range(keys, mid, hi);
        merge_runs(keys, &left, &right, lo, mid, hi)
    }
}

/// The positions of `keys`, ordered by key and, among equal keys, by position.
pub fn stable_order(keys: &Vec<i128>) -> (out: Vec<usize>)
    ensures
        is_stable_order(keys@, out@),
{
    order_range(keys, 0, keys.len())
}

/// `picks` names the first `k` positions of the stable order, in that order: all of them
/// where there are no more than `k`.
pub open spec fn is_leading(keys: Seq<i128>, picks: Seq<usize>, k: int) -> bool {
    &&& picks.len() == (if k < keys.len() {
        k
    } else {
        keys.len() as int
    })
    &&& forall|i: int| 0 <= i < picks.len() ==> #[trigger] picks[i] < keys.len()
    &&& forall|i: int, j: int|
        0 <= i < j < picks.len() ==> precedes(keys, #[trigger] picks[i] as int, #[trigger] picks[j] as int)
    &&& forall|m: usize, i: int|
        m < keys.len() && !(#[trigger] picks.contains(m)) && 0 <= i < picks.len() ==> precedes(
            keys,
            #[trigger] picks[i] as int,
            m as int,
        )
}

/// The first `k` positions of the stable order, or all where there are fewer.
pub fn leading(keys: &Vec<i128>, k: usize) -> (picks: Vec<usize>)
    ensures
        is_leading(keys@, picks@, k as int),
{
    let mut picks: Vec<usize> = stable_order(keys);
    let ghost order = picks@;
    if k < picks.len() {
        picks.truncate(k);
    }
    proof {
        lemma_order_is_permutation(keys@, order);
        assert forall|m: usize, i: int|
            m < keys@.len() && !(#[trigger] picks@.contains(m)) && 0 <= i < picks@.len() implies precedes(
            keys@,
            #[trigger] picks@[i] as int,
            m as int,
        ) by {
            assert(order.contains(m as int as usize));
            let j = choose|j: int| 0 <= j < order.len() && order[j] == m;
            if j < picks@.len() {
                assert(picks@[j] == m);
            }
            assert(order[i] == picks@[i]);
            assert(precedes(keys@, order[i] as int, order[j] as int));
        }
    }
    picks
}

/// What leads is least: there are as many positions as asked for, or all where there are fewer,
/// none twice. Their keys ascend, equal ones by position, and no key that is left out is smaller.
pub proof fn law_leading_are_least(keys: Seq<i128>, picks: Seq<usize>, k: int)
    requires
        0 <= k,
        keys.len() <= usize::MAX,
        is_leading(keys, picks, k),
    ensures
        picks.len() <= k,
        picks.len() <= keys.len(),
        picks.len() == k || picks.len() == keys.len(),
        forall|i: int| 0 <= i < picks.len() ==> #[trigger] picks[i] < keys.len(),
        forall|i: int, j: int|
            0 <= i < j < picks.len() ==> (#[trigger] picks[i]) != (#[trigger] picks[j]) && keys[picks[i] as int]
                <= keys[picks[j] as int] && (keys[picks[i] as int] == keys[picks[j] as int] ==> picks[i] < picks[j]),
        forall|m: int, i: int|
            #![trigger keys[m], picks[i]]
            0 <= m < keys.len() && 0 <= i < picks.len() && !picks.contains(m as usize) ==> keys[picks[i] as int]
                <= keys[m] && (keys[picks[i] as int] == keys[m] ==> picks[i] < m),
{
    assert forall|i: int, j: int| 0 <= i < j < picks.len() implies (#[trigger] picks[i]) != (#[trigger] picks[j])
        && keys[picks[i] as int] <= keys[picks[j] as int] && (keys[picks[i] as int] == keys[picks[j] as int] ==> picks[i]
        < picks[j]) by {
        assert(precedes(keys, picks[i] as int, picks[j] as int));
    }
    assert forall|m: int, i: int|
        #![trigger keys[m], picks[i]]
        0 <= m < keys.len() && 0 <= i < picks.len() && !picks.contains(m as usize) implies keys[picks[i] as int]
        <= keys[m] && (keys[picks[i] as int] == keys[m] ==> picks[i] < m) by {
        let at = m as usize;
        assert(precedes(keys, picks[i] as int, at as int));
    }
}

/// A stable order lists every position once, the keys ascending and equal ones by position.
pub proof fn law_order_ascends(keys: Seq<i128>, order: Seq<usize>)
    requires
        keys.len() <= usize::MAX,
        is_stable_order(keys, order),
    ensures
        order.len() == keys.len(),
        forall|k: int| 0 <= k < keys.len() ==> #[trigger] order.contains(k as usize),
        forall|i: int, j: int|
            0 <= i < j < order.len() ==> (#[trigger] order[i]) != (#[trigger] order[j]) && keys[order[i] as int]
                <= keys[order[j] as int] && (keys[order[i] as int] == keys[order[j] as int] ==> order[i] < order[j]),
{
    lemma_order_is_permutation(keys, order);
    assert forall|i: int, j: int| 0 <= i < j < order.len() implies (#[trigger] order[i]) != (#[trigger] order[j])
        && keys[order[i] as int] <= keys[order[j] as int] && (keys[order[i] as int] == keys[order[j] as int]
        ==> order[i] < order[j]) by {
        assert(precedes(keys, order[i] as int, order[j] as int));
    }
}

} // verus!
