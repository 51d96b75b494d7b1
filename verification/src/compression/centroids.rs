//! The Lloyd-Max iteration.
//!
//! From evenly spaced centroids on, each round places the boundaries between
//! neighbouring centroids and moves each centroid to the mean of its cell. The
//! iteration ends when no centroid moves noticeably, or after a fixed number of
//! rounds. The arithmetic on numbers is supplied by the caller.
use crate::folding::{fold, folds_to};
use crate::scalar::Scalar;
use crate::sorting::{is_stable_order, lemma_order_is_permutation, stable_order};
use vstd::prelude::*;

verus! {

/// The number of rounds after which the iteration ends in any case.
pub const MAX_ROUNDS: usize = 100;

/// The bit pattern of the movement, 1e-8, below which a centroid counts as settled.
pub const TOLERANCE_BITS: u32 = 0x322b_cc77;

/// `boundaries` holds what `midpoint` gave for every two neighbouring centroids.
pub open spec fn are_boundaries<M: Fn(Scalar, Scalar) -> Scalar>(
    centroids: Seq<Scalar>,
    midpoint: M,
    boundaries: Seq<Scalar>,
) -> bool {
    &&& boundaries.len() == (if centroids.len() == 0 {
        0
    } else {
        centroids.len() - 1
    })
    &&& forall|i: int|
        0 <= i < boundaries.len() ==> midpoint.ensures((centroids[i], centroids[i + 1]), #[trigger] boundaries[i])
}

/// The boundaries between neighbouring centroids.
pub fn compute_boundaries<M: Fn(Scalar, Scalar) -> Scalar>(centroids: &Vec<Scalar>, midpoint: &M) -> (r: Vec<Scalar>)
    requires
        forall|a: Scalar, b: Scalar| #[trigger] midpoint.requires((a, b)),
    ensures
        are_boundaries(centroids@, *midpoint, r@),
{
    let mut r: Vec<Scalar> = Vec::new();
    let mut i: usize = 1;
    while i < centroids.len()
        invariant
            1 <= i,
            i <= centroids@.len() || i == 1,
            r@.len() == i - 1,
            forall|a: Scalar, b: Scalar| #[trigger] midpoint.requires((a, b)),
            forall|k: int|
                0 <= k < r@.len() ==> midpoint.ensures((centroids@[k], centroids@[k + 1]), #[trigger] r@[k]),
        decreases centroids@.len() - i,
    {
        r.push(midpoint(centroids[i - 1], centroids[i]));
        i = i + 1;
    }
    r
}

/// The lower end of cell `i`.
pub open spec fn cell_start(boundaries: Seq<Scalar>, lowest: Scalar, i: int) -> Scalar {
    if i == 0 {
        lowest
    } else {
        boundaries[i - 1]
    }
}

/// The upper end of cell `i`.
pub open spec fn cell_end(boundaries: Seq<Scalar>, highest: Scalar, i: int) -> Scalar {
    if i == boundaries.len() {
        highest
    } else {
        boundaries[i]
    }
}

/// `next` holds the mean of every cell, and the old centroid where the cell has no mass.
pub open spec fn are_cell_means<C: Fn(Scalar, Scalar) -> Option<Scalar>>(
    centroids: Seq<Scalar>,
    boundaries: Seq<Scalar>,
    lowest: Scalar,
    highest: Scalar,
    mean: C,
    next: Seq<Scalar>,
) -> bool {
    &&& next.len() == centroids.len()
    &&& forall|i: int|
        0 <= i < next.len() ==> {
            ||| mean.ensures(
                (cell_start(boundaries, lowest, i), cell_end(boundaries, highest, i)),
                Some(#[trigger] next[i]),
            )
            ||| next[i] == centroids[i] && mean.ensures(
                (cell_start(boundaries, lowest, i), cell_end(boundaries, highest, i)),
                None,
            )
        }
}

/// One round takes `centroids` to `next`, with the largest movement `largest`.
pub open spec fn is_round<
    M: Fn(Scalar, Scalar) -> Scalar,
    C: Fn(Scalar, Scalar) -> Option<Scalar>,
    D: Fn(Scalar, Scalar, Scalar) -> Scalar,
>(
    centroids: Seq<Scalar>,
    lowest: Scalar,
    highest: Scalar,
    midpoint: M,
    mean: C,
    widen: D,
    next: Seq<Scalar>,
    largest: Scalar,
) -> bool {
    &&& exists|boundaries: Seq<Scalar>| #[trigger]
        are_boundaries(centroids, midpoint, boundaries) && are_cell_means(
            centroids,
            boundaries,
            lowest,
            highest,
            mean,
            next,
        )
    &&& folds_to(next, centroids, widen, largest)
}

/// One round of the iteration: the moved centroids and the largest movement.
pub fn refine_centroids<
    M: Fn(Scalar, Scalar) -> Scalar,
    C: Fn(Scalar, Scalar) -> Option<Scalar>,
    D: Fn(Scalar, Scalar, Scalar) -> Scalar,
>(centroids: &Vec<Scalar>, lowest: Scalar, highest: Scalar, midpoint: &M, mean: &C, widen: &D) -> (r: (
    Vec<Scalar>,
    Scalar,
))
    requires
        centroids@.len() > 0,
        forall|a: Scalar, b: Scalar| #[trigger] midpoint.requires((a, b)),
        forall|a: Scalar, b: Scalar| #[trigger] mean.requires((a, b)),
        forall|a: Scalar, b: Scalar, c: Scalar| #[trigger] widen.requires((a, b, c)),
    ensures
        is_round(centroids@, lowest, highest, *midpoint, *mean, *widen, r.0@, r.1),
{
    let boundaries: Vec<Scalar> = compute_boundaries(centroids, midpoint);
    let n_levels: usize = centroids.len();
    let mut next: Vec<Scalar> = Vec::with_capacity(n_levels);
    let mut i: usize = 0;
    while i < n_levels
        invariant
            i <= n_levels,
            n_levels == centroids@.len(),
            boundaries@.len() + 1 == n_levels,
            forall|a: Scalar, b: Scalar| #[trigger] mean.requires((a, b)),
            next@.len() == i,
            forall|k: int|
                0 <= k < i ==> {
                    ||| mean.ensures(
                        (cell_start(boundaries@, lowest, k), cell_end(boundaries@, highest, k)),
                        Some(#[trigger] next@[k]),
                    )
                    ||| next@[k] == centroids@[k] && mean.ensures(
                        (cell_start(boundaries@, lowest, k), cell_end(boundaries@, highest, k)),
                        None,
                    )
                },
        decreases n_levels - i,
    {
        let lo: Scalar = if i == 0 {
            lowest
        } else {
            boundaries[i - 1]
        };
        let hi: Scalar = if i == n_levels - 1 {
            highest
        } else {
            boundaries[i]
        };
        let moved: Scalar = match mean(lo, hi) {
            Some(m) => m,
            None => centroids[i],
        };
        next.push(moved);
        i = i + 1;
    }
    let largest: Scalar = fold(next.as_slice(), centroids.as_slice(), widen);
    assert(are_boundaries(centroids@, *midpoint, boundaries@));
    (next, largest)
}

/// `rounds` is the course of the iteration: it starts with what `initial` gave, each
/// further element follows from the one before by a round, and it ends with the first round
/// that moved no centroid by the tolerance, or with the last round allowed.
pub open spec fn is_course<
    I: Fn(usize, usize) -> Scalar,
    M: Fn(Scalar, Scalar) -> Scalar,
    C: Fn(Scalar, Scalar) -> Option<Scalar>,
    D: Fn(Scalar, Scalar, Scalar) -> Scalar,
>(
    n_levels: usize,
    lowest: Scalar,
    highest: Scalar,
    initial: I,
    midpoint: M,
    mean: C,
    widen: D,
    rounds: Seq<Seq<Scalar>>,
    movements: Seq<Scalar>,
) -> bool {
    let tolerance = Scalar { bits: TOLERANCE_BITS };
    &&& rounds.len() == movements.len() + 1
    &&& rounds[0].len() == n_levels
    &&& forall|i: int| 0 <= i < n_levels ==> initial.ensures((i as usize, n_levels), #[trigger] rounds[0][i])
    &&& forall|k: int|
        0 <= k < movements.len() ==> is_round(
            rounds[k],
            lowest,
            highest,
            midpoint,
            mean,
            widen,
            rounds[k + 1],
            #[trigger] movements[k],
        )
    &&& forall|k: int| 0 <= k < movements.len() - 1 ==> !tolerance.greater(#[trigger] movements[k])
    &&& 0 < movements.len() <= MAX_ROUNDS
    &&& movements.len() == MAX_ROUNDS || tolerance.greater(movements.last())
}

/// The keys that order the centroids by value.
pub open spec fn order_keys(centroids: Seq<Scalar>) -> Seq<i128> {
    centroids.map_values(|c: Scalar| c.order() as i128)
}

/// `sorted` holds the centroids in ascending order.
pub open spec fn is_ascending(centroids: Seq<Scalar>, sorted: Seq<Scalar>) -> bool {
    exists|order: Seq<usize>| #[trigger]
        is_stable_order(order_keys(centroids), order) && sorted == order.map_values(
            |i: usize| centroids[i as int],
        )
}

fn sort_ascending(centroids: &Vec<Scalar>) -> (r: Vec<Scalar>)
    ensures
        is_ascending(centroids@, r@),
{
    let mut keys: Vec<i128> = Vec::with_capacity(centroids.len());
    let mut i: usize = 0;
    while i < centroids.len()
        invariant
            i <= centroids@.len(),
            keys@ =~= order_keys(centroids@.take(i as int)),
        decreases centroids@.len() - i,
    {
        keys.push(centroids[i].order_key());
        i = i + 1;
    }
    assert(keys@ =~= order_keys(centroids@));
    let order: Vec<usize> = stable_order(&keys);
    let mut r: Vec<Scalar> = Vec::with_capacity(order.len());
    let mut j: usize = 0;
    while j < order.len()
        invariant
            j <= order@.len(),
            keys@.len() == centroids@.len(),
            is_stable_order(keys@, order@),
            r@ =~= order@.take(j as int).map_values(|i: usize| centroids@[i as int]),
        decreases order@.len() - j,
    {
        r.push(centroids[order[j]]);
        j = j + 1;
    }
    assert(r@ =~= order@.map_values(|i: usize| centroids@[i as int]));
    r
}

/// The centroids of `2^bits` cells that the iteration ends with, in ascending order.
///
/// `initial` gives the centroid to start a cell from, `midpoint` the boundary between two
/// centroids, `mean` the mean of a cell between its two ends, or nothing where the cell has
/// no mass, and `widen` the larger of a movement so far and that of one more centroid.
pub fn compute_lloyd_max_centroids<
    I: Fn(usize, usize) -> Scalar,
    M: Fn(Scalar, Scalar) -> Scalar,
    C: Fn(Scalar, Scalar) -> Option<Scalar>,
    D: Fn(Scalar, Scalar, Scalar) -> Scalar,
>(bits: u8, lowest: Scalar, highest: Scalar, initial: &I, midpoint: &M, mean: &C, widen: &D) -> (r: Vec<Scalar>)
    requires
        bits < usize::BITS,
        forall|i: usize, n: usize| #[trigger] initial.requires((i, n)),
        forall|a: Scalar, b: Scalar| #[trigger] midpoint.requires((a, b)),
        forall|a: Scalar, b: Scalar| #[trigger] mean.requires((a, b)),
        forall|a: Scalar, b: Scalar, c: Scalar| #[trigger] widen.requires((a, b, c)),
        forall|i: usize, n: usize, c: Scalar| #[trigger] initial.ensures((i, n), c) ==> !c.nan(),
        forall|a: Scalar, b: Scalar, c: Scalar| #[trigger] mean.ensures((a, b), Some(c)) ==> !c.nan(),
    ensures
        r@.len() == 1usize << bits,
        exists|rounds: Seq<Seq<Scalar>>, movements: Seq<Scalar>| #[trigger]
            is_course(1usize << bits, lowest, highest, *initial, *midpoint, *mean, *widen, rounds, movements)
                && is_ascending(rounds.last(), r@),
{
    let n_levels: usize = 1usize << bits;
    assert(1usize << bits > 0) by (bit_vector)
        requires
            bits < usize::BITS,
    ;
    let tolerance = Scalar { bits: TOLERANCE_BITS };
    let mut centroids: Vec<Scalar> = Vec::with_capacity(n_levels);
    let mut i: usize = 0;
    while i < n_levels
        invariant
            i <= n_levels,
            centroids@.len() == i,
            forall|i: usize, n: usize| #[trigger] initial.requires((i, n)),
            forall|k: int| 0 <= k < i ==> initial.ensures((k as usize, n_levels), #[trigger] centroids@[k]),
        decreases n_levels - i,
    {
        centroids.push(initial(i, n_levels));
        i = i + 1;
    }
    let ghost mut rounds: Seq<Seq<Scalar>> = seq![centroids@];
    let ghost mut movements: Seq<Scalar> = Seq::empty();
    let mut iter: usize = 0;
    let mut settled: bool = false;
    while iter < MAX_ROUNDS && !settled
        invariant
            iter <= MAX_ROUNDS,
            n_levels > 0,
            tolerance == (Scalar { bits: TOLERANCE_BITS }),
            forall|a: Scalar, b: Scalar| #[trigger] midpoint.requires((a, b)),
            forall|a: Scalar, b: Scalar| #[trigger] mean.requires((a, b)),
            forall|a: Scalar, b: Scalar, c: Scalar| #[trigger] widen.requires((a, b, c)),
            centroids@.len() == n_levels,
            movements.len() == iter,
            rounds.len() == iter + 1,
            rounds.last() == centroids@,
            rounds[0].len() == n_levels,
            forall|i: int| 0 <= i < n_levels ==> initial.ensures((i as usize, n_levels), #[trigger] rounds[0][i]),
            forall|k: int|
                0 <= k < movements.len() ==> is_round(
                    rounds[k],
                    lowest,
                    highest,
                    *midpoint,
                    *mean,
                    *widen,
                    rounds[k + 1],
                    #[trigger] movements[k],
                ),
            forall|k: int| 0 <= k < movements.len() - 1 ==> !tolerance.greater(#[trigger] movements[k]),
            settled ==> movements.len() > 0 && tolerance.greater(movements.last()),
            !settled && movements.len() > 0 ==> !tolerance.greater(movements.last()),
        decreases MAX_ROUNDS - iter,
    {
        let (next, largest) = refine_centroids(&centroids, lowest, highest, midpoint, mean, widen);
        proof {
            let rounds_before = rounds;
            let movements_before = movements;
            rounds = rounds.push(next@);
            movements = movements.push(largest);
            assert forall|k: int| 0 <= k < movements.len() implies is_round(
                rounds[k],
                lowest,
                highest,
                *midpoint,
                *mean,
                *widen,
                rounds[k + 1],
                #[trigger] movements[k],
            ) by {
                assert(rounds[k] == rounds_before[k]);
                if k < iter {
                    assert(movements[k] == movements_before[k]);
                    assert(rounds[k + 1] == rounds_before[k + 1]);
                }
            }
            assert forall|k: int| 0 <= k < movements.len() - 1 implies !tolerance.greater(#[trigger] movements[k]) by {
                assert(movements[k] == movements_before[k]);
            }
        }
        centroids = next;
        settled = tolerance.is_greater(largest);
        iter = iter + 1;
    }
    let r: Vec<Scalar> = sort_ascending(&centroids);
    proof {
        assert(is_course(n_levels, lowest, highest, *initial, *midpoint, *mean, *widen, rounds, movements));
    }
    r
}

/// The centroids come in ascending order.
pub proof fn law_centroids_sorted(centroids: Seq<Scalar>, sorted: Seq<Scalar>)
    requires
        is_ascending(centroids, sorted),
    ensures
        forall|i: int, j: int|
            0 <= i < j < sorted.len() ==> (#[trigger] sorted[i]).order() <= (#[trigger] sorted[j]).order(),
{
    let order = choose|order: Seq<usize>| #[trigger]
        is_stable_order(order_keys(centroids), order) && sorted == order.map_values(|i: usize| centroids[i as int]);
    assert forall|i: int, j: int| 0 <= i < j < sorted.len() implies (#[trigger] sorted[i]).order() <= (
    #[trigger] sorted[j]).order() by {
        assert(crate::sorting::precedes(order_keys(centroids), order[i] as int, order[j] as int));
    }
}

/// Sorting keeps the centroids: there are as many, and each is among them.
pub proof fn law_sorting_keeps_centroids(centroids: Seq<Scalar>, sorted: Seq<Scalar>)
    requires
        centroids.len() <= usize::MAX,
        is_ascending(centroids, sorted),
    ensures
        sorted.len() == centroids.len(),
        forall|i: int| 0 <= i < centroids.len() ==> sorted.contains(#[trigger] centroids[i]),
        forall|i: int| 0 <= i < sorted.len() ==> centroids.contains(#[trigger] sorted[i]),
{
    let order = choose|order: Seq<usize>| #[trigger]
        is_stable_order(order_keys(centroids), order) && sorted == order.map_values(|i: usize| centroids[i as int]);
    lemma_order_is_permutation(order_keys(centroids), order);
    assert forall|i: int| 0 <= i < centroids.len() implies sorted.contains(#[trigger] centroids[i]) by {
        assert(order.contains(i as usize));
        let n = choose|n: int| 0 <= n < order.len() && order[n] == i as usize;
        assert(sorted[n] == centroids[i]);
    }
    assert forall|i: int| 0 <= i < sorted.len() implies centroids.contains(#[trigger] sorted[i]) by {
        assert(sorted[i] == centroids[order[i] as int]);
    }
}

/// A centroid after a round is the mean of its cell, which reaches from the midpoint with its left
/// neighbour, or the lowest number, to the one with its right neighbour, or the highest. Where the
/// cell has no mass it stays.
pub open spec fn is_recentred<M: Fn(Scalar, Scalar) -> Scalar, C: Fn(Scalar, Scalar) -> Option<Scalar>>(
    before: Seq<Scalar>,
    lowest: Scalar,
    highest: Scalar,
    midpoint: M,
    mean: C,
    i: int,
    after: Scalar,
) -> bool {
    exists|low: Scalar, high: Scalar, found: Option<Scalar>|
        {
            &&& i == 0 ==> low == lowest
            &&& i > 0 ==> midpoint.ensures((before[i - 1], before[i]), low)
            &&& i == before.len() - 1 ==> high == highest
            &&& i < before.len() - 1 ==> midpoint.ensures((before[i], before[i + 1]), high)
            &&& #[trigger] mean.ensures((low, high), found)
            &&& after == match found {
                Some(centre) => centre,
                None => before[i],
            }
        }
}

/// The iteration takes every centroid to the mean of its cell, round after round. It ends after a
/// hundred rounds, or with the first that moves none by 1e-8.
pub proof fn law_course<
    I: Fn(usize, usize) -> Scalar,
    M: Fn(Scalar, Scalar) -> Scalar,
    C: Fn(Scalar, Scalar) -> Option<Scalar>,
    D: Fn(Scalar, Scalar, Scalar) -> Scalar,
>(
    n_levels: usize,
    lowest: Scalar,
    highest: Scalar,
    initial: I,
    midpoint: M,
    mean: C,
    widen: D,
    rounds: Seq<Seq<Scalar>>,
    movements: Seq<Scalar>,
)
    requires
        is_course(n_levels, lowest, highest, initial, midpoint, mean, widen, rounds, movements),
    ensures
        0 < movements.len() <= 100,
        rounds.len() == movements.len() + 1,
        forall|k: int| 0 <= k < rounds.len() ==> (#[trigger] rounds[k]).len() == n_levels,
        forall|i: int| 0 <= i < n_levels ==> initial.ensures((i as usize, n_levels), #[trigger] rounds[0][i]),
        forall|k: int, i: int|
            #![trigger rounds[k + 1][i]]
            0 <= k < movements.len() && 0 <= i < n_levels ==> is_recentred(
                rounds[k],
                lowest,
                highest,
                midpoint,
                mean,
                i,
                rounds[k + 1][i],
            ),
        forall|k: int| 0 <= k < movements.len() ==> folds_to(rounds[k + 1], rounds[k], widen, #[trigger] movements[k]),
        forall|k: int|
            0 <= k < movements.len() - 1 ==> !(Scalar { bits: 0x322b_cc77 }).greater(#[trigger] movements[k]),
        movements.len() < 100 ==> (Scalar { bits: 0x322b_cc77 }).greater(movements[movements.len() - 1]),
{
    assert forall|k: int| 0 <= k < rounds.len() implies (#[trigger] rounds[k]).len() == n_levels by {
        lemma_round_len(n_levels, lowest, highest, initial, midpoint, mean, widen, rounds, movements, k);
    }
    assert forall|k: int, i: int|
        #![trigger rounds[k + 1][i]]
        0 <= k < movements.len() && 0 <= i < n_levels implies is_recentred(
        rounds[k],
        lowest,
        highest,
        midpoint,
        mean,
        i,
        rounds[k + 1][i],
    ) by {
        let (before, next) = (rounds[k], rounds[k + 1]);
        assert(is_round(before, lowest, highest, midpoint, mean, widen, next, movements[k]));
        assert(before.len() == n_levels && next.len() == n_levels);
        let boundaries = choose|boundaries: Seq<Scalar>| #[trigger]
            are_boundaries(before, midpoint, boundaries) && are_cell_means(
                before,
                boundaries,
                lowest,
                highest,
                mean,
                next,
            );
        let low = cell_start(boundaries, lowest, i);
        let high = cell_end(boundaries, highest, i);
        if i > 0 {
            assert(midpoint.ensures((before[i - 1], before[i]), boundaries[i - 1]));
        }
        if i < before.len() - 1 {
            assert(midpoint.ensures((before[i], before[i + 1]), boundaries[i]));
        }
        let found = if mean.ensures((low, high), Some(next[i])) {
            Some(next[i])
        } else {
            None
        };
        assert(mean.ensures((low, high), found));
    }
}

proof fn lemma_round_len<
    I: Fn(usize, usize) -> Scalar,
    M: Fn(Scalar, Scalar) -> Scalar,
    C: Fn(Scalar, Scalar) -> Option<Scalar>,
    D: Fn(Scalar, Scalar, Scalar) -> Scalar,
>(
    n_levels: usize,
    lowest: Scalar,
    highest: Scalar,
    initial: I,
    midpoint: M,
    mean: C,
    widen: D,
    rounds: Seq<Seq<Scalar>>,
    movements: Seq<Scalar>,
    k: int,
)
    requires
        is_course(n_levels, lowest, highest, initial, midpoint, mean, widen, rounds, movements),
        0 <= k < rounds.len(),
    ensures
        rounds[k].len() == n_levels,
    decreases k,
{
    if k > 0 {
        lemma_round_len(n_levels, lowest, highest, initial, midpoint, mean, widen, rounds, movements, k - 1);
        assert(is_round(rounds[k - 1], lowest, highest, midpoint, mean, widen, rounds[k], movements[k - 1]));
    }
}

} // verus!
