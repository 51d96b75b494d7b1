//! Left folds over two sequences of numbers, with the arithmetic supplied by the caller.
use crate::scalar::Scalar;
use vstd::prelude::*;

verus! {

/// `sums` starts at zero, and each further element is what `step` gave for the one before
/// and the next element of either sequence.
pub open spec fn is_fold<F: Fn(Scalar, Scalar, Scalar) -> Scalar>(
    xs: Seq<Scalar>,
    ys: Seq<Scalar>,
    step: F,
    sums: Seq<Scalar>,
) -> bool {
    &&& sums.len() == xs.len() + 1
    &&& sums[0] == (Scalar { bits: 0 })
    &&& forall|i: int| 0 <= i < xs.len() ==> step.ensures((#[trigger] sums[i], xs[i], ys[i]), sums[i + 1])
}

/// `r` is what folding the two sequences with `step` ends with.
pub open spec fn folds_to<F: Fn(Scalar, Scalar, Scalar) -> Scalar>(
    xs: Seq<Scalar>,
    ys: Seq<Scalar>,
    step: F,
    r: Scalar,
) -> bool {
    exists|sums: Seq<Scalar>| #[trigger] is_fold(xs, ys, step, sums) && sums.last() == r
}

/// Folds two sequences of one length from zero on.
pub fn fold<F: Fn(Scalar, Scalar, Scalar) -> Scalar>(xs: &[Scalar], ys: &[Scalar], step: &F) -> (r: Scalar)
    requires
        xs@.len() <= ys@.len(),
        forall|s: Scalar, x: Scalar, y: Scalar| #[trigger] step.requires((s, x, y)),
    ensures
        folds_to(xs@, ys@, *step, r),
{
    let mut sum = Scalar { bits: 0 };
    let ghost mut sums: Seq<Scalar> = seq![sum];
    let mut i: usize = 0;
    while i < xs.len()
        invariant
            i <= xs@.len() <= ys@.len(),
            forall|s: Scalar, x: Scalar, y: Scalar| #[trigger] step.requires((s, x, y)),
            sums.len() == i + 1,
            sums[0] == (Scalar { bits: 0 }),
            sums.last() == sum,
            forall|k: int| 0 <= k < i ==> step.ensures((#[trigger] sums[k], xs@[k], ys@[k]), sums[k + 1]),
        decreases xs@.len() - i,
    {
        let next: Scalar = step(sum, xs[i], ys[i]);
        proof {
            let before = sums;
            sums = sums.push(next);
            assert forall|k: int| 0 <= k < i + 1 implies step.ensures(
                (#[trigger] sums[k], xs@[k], ys@[k]),
                sums[k + 1],
            ) by {
                assert(sums[k] == before[k]);
                if k < i {
                    assert(sums[k + 1] == before[k + 1]);
                }
            }
        }
        sum = next;
        i = i + 1;
    }
    assert(is_fold(xs@, ys@, *step, sums));
    sum
}

/// A fold over nothing is zero, and a fold over one element more is one step further.
pub proof fn law_fold_steps<F: Fn(Scalar, Scalar, Scalar) -> Scalar>(
    xs: Seq<Scalar>,
    ys: Seq<Scalar>,
    x: Scalar,
    y: Scalar,
    step: F,
    r: Scalar,
)
    requires
        xs.len() == ys.len(),
    ensures
        xs.len() == 0 ==> (folds_to(xs, ys, step, r) <==> r == (Scalar { bits: 0 })),
        folds_to(xs.push(x), ys.push(y), step, r) <==> exists|s: Scalar|
            folds_to(xs, ys, step, s) && #[trigger] step.ensures((s, x, y), r),
{
    if xs.len() == 0 {
        let sums = seq![Scalar { bits: 0 }];
        assert(is_fold(xs, ys, step, sums));
        assert(sums.last() == (Scalar { bits: 0 }));
    }
    let n = xs.len() as int;
    let (more_xs, more_ys) = (xs.push(x), ys.push(y));
    if folds_to(more_xs, more_ys, step, r) {
        let sums = choose|sums: Seq<Scalar>| #[trigger] is_fold(more_xs, more_ys, step, sums) && sums.last() == r;
        let before = sums.drop_last();
        assert forall|i: int| 0 <= i < xs.len() implies step.ensures((#[trigger] before[i], xs[i], ys[i]), before[i + 1]) by {
            assert(before[i] == sums[i] && before[i + 1] == sums[i + 1]);
            assert(more_xs[i] == xs[i] && more_ys[i] == ys[i]);
        }
        assert(is_fold(xs, ys, step, before));
        assert(before.last() == sums[n]);
        assert(step.ensures((sums[n], more_xs[n], more_ys[n]), sums[n + 1]));
        assert(folds_to(xs, ys, step, sums[n]) && step.ensures((sums[n], x, y), r));
    }
    if exists|s: Scalar| folds_to(xs, ys, step, s) && #[trigger] step.ensures((s, x, y), r) {
        let s = choose|s: Scalar| folds_to(xs, ys, step, s) && #[trigger] step.ensures((s, x, y), r);
        let before = choose|sums: Seq<Scalar>| #[trigger] is_fold(xs, ys, step, sums) && sums.last() == s;
        let sums = before.push(r);
        assert forall|i: int| 0 <= i < more_xs.len() implies step.ensures(
            (#[trigger] sums[i], more_xs[i], more_ys[i]),
            sums[i + 1],
        ) by {
            if i < n {
                assert(sums[i] == before[i] && sums[i + 1] == before[i + 1]);
                assert(more_xs[i] == xs[i] && more_ys[i] == ys[i]);
            } else {
                assert(sums[i] == s);
            }
        }
        assert(is_fold(more_xs, more_ys, step, sums));
        assert(sums.last() == r);
    }
}

} // verus!
