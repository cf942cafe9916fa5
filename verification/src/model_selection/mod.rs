//! Model selection: cross-validation splits and resampling.

use vstd::prelude::*;
use crate::indices::{seq_range, index_range, push_range};

pub mod bootstrap;

verus! {

/// K-Fold cross-validation.
pub struct KFold {
    n_splits: usize,
}

/// Start of test fold `i` when `n` samples are cut into `k` folds.
pub open spec fn fold_start(n: int, k: int, i: int) -> int {
    i * (n / k)
}

/// End (exclusive) of test fold `i`: the last fold runs to `n`.
pub open spec fn fold_end(n: int, k: int, i: int) -> int {
    if i == k - 1 { n } else { (i + 1) * (n / k) }
}

/// The test indices of fold `i`.
pub open spec fn fold_test(n: int, k: int, i: int) -> Seq<usize> {
    seq_range(fold_start(n, k, i), fold_end(n, k, i))
}

/// The training indices of fold `i`: all indices before and after its test fold.
pub open spec fn fold_train(n: int, k: int, i: int) -> Seq<usize> {
    seq_range(0, fold_start(n, k, i)) + seq_range(fold_end(n, k, i), n)
}

proof fn lemma_fold_bounds(n: int, k: int, i: int)
    requires
        n >= 0,
        k > 0,
        0 <= i < k,
    ensures
        0 <= fold_start(n, k, i) <= fold_end(n, k, i) <= n,
        i < k - 1 ==> fold_end(n, k, i) == fold_start(n, k, i + 1),
{
    let f = n / k;
    assert(k * f <= n) by (nonlinear_arith)
        requires f == n / k, k > 0, n >= 0;
    assert(f >= 0) by (nonlinear_arith)
        requires f == n / k, k > 0, n >= 0;
    assert(0 <= i * f <= (i + 1) * f) by (nonlinear_arith)
        requires f >= 0, i >= 0;
    assert((i + 1) * f <= k * f) by (nonlinear_arith)
        requires f >= 0, i + 1 <= k;
}

impl KFold {
    /// Creates a K-Fold splitter with `n_splits` folds.
    pub fn new(n_splits: usize) -> (r: Self)
        ensures
            r.n_splits() == n_splits,
    {
        Self { n_splits }
    }

    /// The number of folds.
    pub closed spec fn n_splits(&self) -> nat {
        self.n_splits as nat
    }

    /// Splits `0..n_samples` into `n_splits` folds. Fold `i` tests the
    /// contiguous block `[i * f, (i + 1) * f)` with `f = n_samples / n_splits`,
    /// the last fold running to `n_samples`; it trains on every other index,
    /// in increasing order.
    pub fn split(&self, n_samples: usize) -> (splits: Vec<(Vec<usize>, Vec<usize>)>)
        requires
            self.n_splits() > 0,
        ensures
            splits.len() == self.n_splits(),
            forall|i: int| 0 <= i < splits.len() ==> {
                &&& (#[trigger] splits@[i]).0@ == fold_train(n_samples as int, self.n_splits() as int, i)
                &&& splits@[i].1@ == fold_test(n_samples as int, self.n_splits() as int, i)
            },
    {
        let k = self.n_splits;
        let fold_size = n_samples / k;
        let mut splits: Vec<(Vec<usize>, Vec<usize>)> = Vec::new();
        let mut i: usize = 0;
        while i < k
            invariant
                k == self.n_splits(),
                k > 0,
                fold_size == n_samples / k,
                i <= k,
                splits.len() == i,
                forall|j: int| 0 <= j < i ==> {
                    &&& (#[trigger] splits@[j]).0@ == fold_train(n_samples as int, k as int, j)
                    &&& splits@[j].1@ == fold_test(n_samples as int, k as int, j)
                },
            decreases k - i,
        {
            proof {
                lemma_fold_bounds(n_samples as int, k as int, i as int);
            }
            let test_start = i * fold_size;
            let test_end = if i == k - 1 { n_samples } else { (i + 1) * fold_size };
            let mut train = index_range(0, test_start);
            push_range(&mut train, test_end, n_samples);
            let test = index_range(test_start, test_end);
            splits.push((train, test));
            i = i + 1;
        }
        splits
    }
}

/// Every index below `n_samples` lies in the test fold of exactly one split,
/// and a split's training indices are exactly the indices outside its test
/// fold.
pub proof fn lemma_kfold_partition(n_samples: usize, n_splits: usize, j: usize)
    requires
        n_splits > 0,
        j < n_samples,
    ensures
        exists|i: int| 0 <= i < n_splits && #[trigger] fold_test(n_samples as int, n_splits as int, i).contains(j),
        forall|i1: int, i2: int|
            0 <= i1 < n_splits && 0 <= i2 < n_splits
            && #[trigger] fold_test(n_samples as int, n_splits as int, i1).contains(j)
            && #[trigger] fold_test(n_samples as int, n_splits as int, i2).contains(j)
            ==> i1 == i2,
        forall|i: int| 0 <= i < n_splits ==>
            (#[trigger] fold_train(n_samples as int, n_splits as int, i).contains(j)
                <==> !fold_test(n_samples as int, n_splits as int, i).contains(j)),
{
    let n = n_samples as int;
    let k = n_splits as int;
    let f = n / k;
    let jj = j as int;
    assert forall|i: int| 0 <= i < k implies
        (#[trigger] fold_test(n, k, i).contains(j) <==> fold_start(n, k, i) <= jj < fold_end(n, k, i))
    by {
        lemma_fold_bounds(n, k, i);
        let t = fold_test(n, k, i);
        if fold_start(n, k, i) <= jj < fold_end(n, k, i) {
            assert(t[jj - fold_start(n, k, i)] == j);
        }
        if t.contains(j) {
            let p = choose|p: int| 0 <= p < t.len() && t[p] == j;
            assert(t[p] == (fold_start(n, k, i) + p) as usize);
        }
    }
    assert forall|i: int| 0 <= i < k implies
        (#[trigger] fold_train(n, k, i).contains(j) <==> !(fold_start(n, k, i) <= jj < fold_end(n, k, i)))
    by {
        lemma_fold_bounds(n, k, i);
        let a = seq_range(0, fold_start(n, k, i));
        let b = seq_range(fold_end(n, k, i), n);
        let t = fold_train(n, k, i);
        assert(t == a + b);
        if jj < fold_start(n, k, i) {
            assert(t[jj] == j);
        } else if jj >= fold_end(n, k, i) {
            assert(t[a.len() + (jj - fold_end(n, k, i))] == j);
        }
        if t.contains(j) {
            let p = choose|p: int| 0 <= p < t.len() && t[p] == j;
            if p < a.len() {
                assert(t[p] == a[p]);
            } else {
                assert(t[p] == b[p - a.len()]);
            }
        }
    }
    let i0: int = if f == 0 { k - 1 } else if jj / f < k - 1 { jj / f } else { k - 1 };
    lemma_fold_bounds(n, k, i0);
    if f > 0 {
        assert(f * (jj / f) <= jj < f * (jj / f) + f) by (nonlinear_arith)
            requires f > 0, jj >= 0;
        if jj / f < k - 1 {
            assert(i0 * f <= jj < (i0 + 1) * f) by (nonlinear_arith)
                requires f * (jj / f) <= jj < f * (jj / f) + f, i0 == jj / f;
        } else {
            assert((k - 1) * f <= jj) by (nonlinear_arith)
                requires f * (jj / f) <= jj, jj / f >= k - 1, f > 0;
        }
    }
    assert(fold_start(n, k, i0) <= jj < fold_end(n, k, i0));
    assert(fold_test(n, k, i0).contains(j));
    assert forall|i1: int, i2: int|
        0 <= i1 < k && 0 <= i2 < k
        && #[trigger] fold_test(n, k, i1).contains(j)
        && #[trigger] fold_test(n, k, i2).contains(j)
        implies i1 == i2
    by {
        if i1 < i2 {
            lemma_fold_end_le_start(n, k, i1, i2);
        } else if i2 < i1 {
            lemma_fold_end_le_start(n, k, i2, i1);
        }
    }
}

proof fn lemma_fold_end_le_start(n: int, k: int, i1: int, i2: int)
    requires
        n >= 0,
        k > 0,
        0 <= i1 < i2 < k,
    ensures
        fold_end(n, k, i1) <= fold_start(n, k, i2),
{
    let f = n / k;
    assert(f >= 0);
    assert((i1 + 1) * f <= i2 * f) by (nonlinear_arith)
        requires f >= 0, i1 + 1 <= i2;
}

/// Grid search for hyperparameter tuning (no search is offered yet).
pub struct GridSearchCV {}

} // verus!
