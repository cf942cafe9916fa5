//! Evaluation metrics over class labels.

use vstd::prelude::*;

verus! {

/// The number of the first `k` samples whose true class is `a` and whose
/// predicted class is `b`.
pub open spec fn pair_count(y_true: Seq<usize>, y_pred: Seq<usize>, a: usize, b: usize, k: int) -> nat
    decreases k,
{
    if k <= 0 {
        0
    } else {
        pair_count(y_true, y_pred, a, b, k - 1) + if y_true[k - 1] == a && y_pred[k - 1] == b { 1nat } else { 0nat }
    }
}

/// The largest label among the first `k` items of `s` (0 when `k <= 0`).
pub open spec fn max_label(s: Seq<usize>, k: int) -> usize
    decreases k,
{
    if k <= 0 {
        0
    } else if k == 1 {
        s[0]
    } else {
        let m = max_label(s, k - 1);
        if s[k - 1] > m { s[k - 1] } else { m }
    }
}

proof fn lemma_max_label_bounds(s: Seq<usize>, k: int)
    requires
        0 < k <= s.len(),
    ensures
        forall|j: int| 0 <= j < k ==> #[trigger] s[j] <= max_label(s, k),
        exists|j: int| 0 <= j < k && #[trigger] s[j] == max_label(s, k),
    decreases k,
{
    if k > 1 {
        lemma_max_label_bounds(s, k - 1);
        let j0 = choose|j: int| 0 <= j < k - 1 && #[trigger] s[j] == max_label(s, k - 1);
        if s[k - 1] > max_label(s, k - 1) {
            assert(s[k - 1] == max_label(s, k));
        } else {
            assert(s[j0] == max_label(s, k));
        }
    } else {
        assert(s[0] == max_label(s, k));
    }
}

/// Confusion matrix: entry `[a][b]` counts the samples of true class `a`
/// predicted as class `b`, for classes `0..=m` where `m` is the largest label
/// in either sequence. Sequences of different lengths give the empty matrix.
pub fn confusion_matrix(y_true: &Vec<usize>, y_pred: &Vec<usize>) -> (m: Vec<Vec<usize>>)
    requires
        y_true@.len() != y_pred@.len() || y_true@.len() > 0,
        max_label(y_true@ + y_pred@, (y_true@ + y_pred@).len() as int) < usize::MAX,
    ensures
        y_true@.len() != y_pred@.len() ==> m@.len() == 0,
        y_true@.len() == y_pred@.len() ==> {
            let nc = max_label(y_true@ + y_pred@, (y_true@ + y_pred@).len() as int) + 1;
            &&& m@.len() == nc
            &&& forall|a: int| 0 <= a < nc ==> (#[trigger] m@[a])@.len() == nc
            &&& forall|a: int, b: int| 0 <= a < nc && 0 <= b < nc ==>
                    #[trigger] m@[a]@[b] == pair_count(y_true@, y_pred@, a as usize, b as usize, y_true@.len() as int)
        },
{
    if y_true.len() != y_pred.len() {
        return Vec::new();
    }
    let n = y_true.len();
    let ghost all = y_true@ + y_pred@;
    let mut mx: usize = y_true[0];
    let mut k: usize = 1;
    proof {
        assert(all[0] == y_true@[0]);
    }
    while k < n
        invariant
            n == y_true@.len(),
            n == y_pred@.len(),
            n > 0,
            all == y_true@ + y_pred@,
            1 <= k <= n,
            mx == max_label(all, k as int),
        decreases n - k,
    {
        let x = y_true[k];
        proof {
            assert(x == all[k as int]);
        }
        if x > mx {
            mx = x;
        }
        k = k + 1;
    }
    let mut j: usize = 0;
    while j < n
        invariant
            n == y_true@.len(),
            n == y_pred@.len(),
            n > 0,
            all == y_true@ + y_pred@,
            j <= n,
            mx == max_label(all, n + j),
        decreases n - j,
    {
        let x = y_pred[j];
        proof {
            assert(x == all[n + j]);
        }
        if x > mx {
            mx = x;
        }
        j = j + 1;
    }
    proof {
        lemma_max_label_bounds(all, n + n);
        assert forall|j: int| 0 <= j < n implies #[trigger] y_true@[j] <= mx && y_pred@[j] <= mx by {
            assert(all[j] == y_true@[j]);
            assert(all[n + j] == y_pred@[j]);
        }
    }
    let nc = mx + 1;
    let mut m: Vec<Vec<usize>> = Vec::new();
    let mut a: usize = 0;
    while a < nc
        invariant
            a <= nc,
            m@.len() == a,
            forall|r: int| 0 <= r < a ==> (#[trigger] m@[r])@.len() == nc,
            forall|r: int, b: int| 0 <= r < a && 0 <= b < nc ==> #[trigger] m@[r]@[b] == 0,
        decreases nc - a,
    {
        let mut row: Vec<usize> = Vec::new();
        let mut b: usize = 0;
        while b < nc
            invariant
                b <= nc,
                row@.len() == b,
                forall|c: int| 0 <= c < b ==> #[trigger] row@[c] == 0,
            decreases nc - b,
        {
            row.push(0);
            b = b + 1;
        }
        m.push(row);
        a = a + 1;
    }
    let mut k: usize = 0;
    while k < n
        invariant
            n == y_true@.len(),
            n == y_pred@.len(),
            nc == mx + 1,
            forall|j: int| 0 <= j < n ==> #[trigger] y_true@[j] <= mx && y_pred@[j] <= mx,
            k <= n,
            m@.len() == nc,
            forall|r: int| 0 <= r < nc ==> (#[trigger] m@[r])@.len() == nc,
            forall|r: int, b: int| 0 <= r < nc && 0 <= b < nc ==>
                #[trigger] m@[r]@[b] == pair_count(y_true@, y_pred@, r as usize, b as usize, k as int),
        decreases n - k,
    {
        let yt = y_true[k];
        let yp = y_pred[k];
        proof {
            assert(yt <= mx && yp <= mx);
            assert(m@[yt as int]@[yp as int] == pair_count(y_true@, y_pred@, yt, yp, k as int));
            lemma_pair_count_le(y_true@, y_pred@, yt, yp, k as int);
        }
        let ghost m0 = m@;
        let mut row: Vec<usize> = Vec::new();
        std::mem::swap(&mut row, &mut m[yt]);
        let v = row[yp];
        row.set(yp, v + 1);
        m.set(yt, row);
        proof {
            assert forall|r: int, b: int| 0 <= r < nc && 0 <= b < nc implies
                #[trigger] m@[r]@[b] == pair_count(y_true@, y_pred@, r as usize, b as usize, k + 1) by {
                if r != yt as int {
                    assert(m@[r] == m0[r]);
                } else if b != yp as int {
                    assert(m@[r]@[b] == m0[r]@[b]);
                }
            }
            assert forall|r: int| 0 <= r < nc implies (#[trigger] m@[r])@.len() == nc by {
                if r != yt as int {
                    assert(m@[r] == m0[r]);
                }
            }
        }
        k = k + 1;
    }
    m
}

proof fn lemma_pair_count_le(y_true: Seq<usize>, y_pred: Seq<usize>, a: usize, b: usize, k: int)
    requires
        k >= 0,
    ensures
        pair_count(y_true, y_pred, a, b, k) <= k,
    decreases k,
{
    if k > 0 {
        lemma_pair_count_le(y_true, y_pred, a, b, k - 1);
    }
}


/// The number of the first `k` samples whose true class is `a`.
pub open spec fn class_total(y_true: Seq<usize>, a: usize, k: int) -> nat
    decreases k,
{
    if k <= 0 {
        0
    } else {
        class_total(y_true, a, k - 1) + if y_true[k - 1] == a { 1nat } else { 0nat }
    }
}

/// Row `a` of the counts, summed over the predicted classes `0..m`.
pub open spec fn row_sum(y_true: Seq<usize>, y_pred: Seq<usize>, a: usize, m: int, k: int) -> nat
    decreases m,
{
    if m <= 0 {
        0
    } else {
        row_sum(y_true, y_pred, a, m - 1, k) + pair_count(y_true, y_pred, a, (m - 1) as usize, k)
    }
}

/// The rows `0..rows` of the counts over the predicted classes `0..m`, summed.
pub open spec fn table_sum(y_true: Seq<usize>, y_pred: Seq<usize>, rows: int, m: int, k: int) -> nat
    decreases rows,
{
    if rows <= 0 {
        0
    } else {
        table_sum(y_true, y_pred, rows - 1, m, k) + row_sum(y_true, y_pred, (rows - 1) as usize, m, k)
    }
}

/// The class totals of the classes `0..rows`, summed.
spec fn totals_sum(y_true: Seq<usize>, rows: int, k: int) -> nat
    decreases rows,
{
    if rows <= 0 {
        0
    } else {
        totals_sum(y_true, rows - 1, k) + class_total(y_true, (rows - 1) as usize, k)
    }
}

/// Adding sample `k - 1` adds one to a row sum when its true class is the
/// row's and its predicted class is among the columns.
proof fn lemma_row_sum_step(y_true: Seq<usize>, y_pred: Seq<usize>, a: usize, m: int, k: int)
    requires
        k >= 1,
        0 <= m <= usize::MAX + 1,
    ensures
        row_sum(y_true, y_pred, a, m, k) == row_sum(y_true, y_pred, a, m, k - 1)
            + if y_true[k - 1] == a && y_pred[k - 1] < m { 1nat } else { 0nat },
    decreases m,
{
    if m > 0 {
        lemma_row_sum_step(y_true, y_pred, a, m - 1, k);
    }
}

/// With every predicted class among the columns, a row sums to the class total.
proof fn lemma_row_sum_total(y_true: Seq<usize>, y_pred: Seq<usize>, a: usize, m: int, k: int)
    requires
        0 <= k <= y_pred.len(),
        0 <= m <= usize::MAX + 1,
        forall|j: int| 0 <= j < k ==> #[trigger] y_pred[j] < m,
    ensures
        row_sum(y_true, y_pred, a, m, k) == class_total(y_true, a, k),
    decreases k,
{
    if k > 0 {
        lemma_row_sum_total(y_true, y_pred, a, m, k - 1);
        lemma_row_sum_step(y_true, y_pred, a, m, k);
        assert(y_pred[k - 1] < m);
    } else {
        lemma_row_sum_zero(y_true, y_pred, a, m);
    }
}

proof fn lemma_row_sum_zero(y_true: Seq<usize>, y_pred: Seq<usize>, a: usize, m: int)
    ensures
        row_sum(y_true, y_pred, a, m, 0) == 0,
    decreases m,
{
    if m > 0 {
        lemma_row_sum_zero(y_true, y_pred, a, m - 1);
    }
}

proof fn lemma_totals_sum_step(y_true: Seq<usize>, rows: int, k: int)
    requires
        k >= 1,
        0 <= rows <= usize::MAX + 1,
    ensures
        totals_sum(y_true, rows, k) == totals_sum(y_true, rows, k - 1) + if y_true[k - 1] < rows { 1nat } else { 0nat },
    decreases rows,
{
    if rows > 0 {
        lemma_totals_sum_step(y_true, rows - 1, k);
    }
}

proof fn lemma_totals_sum_zero(y_true: Seq<usize>, rows: int)
    ensures
        totals_sum(y_true, rows, 0) == 0,
    decreases rows,
{
    if rows > 0 {
        lemma_totals_sum_zero(y_true, rows - 1);
    }
}

/// With every true class among the rows, the class totals add up to the
/// number of samples.
proof fn lemma_totals_sum_count(y_true: Seq<usize>, rows: int, k: int)
    requires
        0 <= k <= y_true.len(),
        0 <= rows <= usize::MAX + 1,
        forall|j: int| 0 <= j < k ==> #[trigger] y_true[j] < rows,
    ensures
        totals_sum(y_true, rows, k) == k,
    decreases k,
{
    if k > 0 {
        lemma_totals_sum_count(y_true, rows, k - 1);
        lemma_totals_sum_step(y_true, rows, k);
        assert(y_true[k - 1] < rows);
    } else {
        lemma_totals_sum_zero(y_true, rows);
    }
}

proof fn lemma_table_sum_totals(y_true: Seq<usize>, y_pred: Seq<usize>, rows: int, m: int, k: int)
    requires
        0 <= k <= y_pred.len(),
        0 <= m <= usize::MAX + 1,
        0 <= rows <= usize::MAX + 1,
        forall|j: int| 0 <= j < k ==> #[trigger] y_pred[j] < m,
    ensures
        table_sum(y_true, y_pred, rows, m, k) == totals_sum(y_true, rows, k),
    decreases rows,
{
    if rows > 0 {
        lemma_table_sum_totals(y_true, y_pred, rows - 1, m, k);
        lemma_row_sum_total(y_true, y_pred, (rows - 1) as usize, m, k);
    }
}

/// For classes `0..nc` that hold every label, row `a` of the counts sums to
/// the number of samples of true class `a`, and all counts sum to the number
/// of samples.
proof fn lemma_counts_every_sample(y_true: Seq<usize>, y_pred: Seq<usize>, nc: int)
    requires
        y_true.len() == y_pred.len(),
        0 <= nc <= usize::MAX + 1,
        forall|j: int| 0 <= j < y_true.len() ==> #[trigger] y_true[j] < nc && y_pred[j] < nc,
    ensures
        forall|a: usize| (a as int) < nc ==>
            #[trigger] row_sum(y_true, y_pred, a, nc, y_true.len() as int) == class_total(y_true, a, y_true.len() as int),
        table_sum(y_true, y_pred, nc, nc, y_true.len() as int) == y_true.len(),
{
    let n = y_true.len() as int;
    assert forall|j: int| 0 <= j < n implies #[trigger] y_pred[j] < nc by {
        assert(y_true[j] < nc && y_pred[j] < nc);
    }
    assert forall|j: int| 0 <= j < n implies #[trigger] y_true[j] < nc by {
        assert(y_true[j] < nc && y_pred[j] < nc);
    }
    assert forall|a: usize| (a as int) < nc implies
        #[trigger] row_sum(y_true, y_pred, a, nc, n) == class_total(y_true, a, n) by {
        lemma_row_sum_total(y_true, y_pred, a, nc, n);
    }
    lemma_table_sum_totals(y_true, y_pred, nc, nc, n);
    lemma_totals_sum_count(y_true, nc, n);
}

/// The confusion matrix accounts for every sample once: over its classes
/// `0..=m` (`m` the largest label), row `a` sums to the number of samples of
/// true class `a`, and all entries sum to the number of samples.
pub proof fn lemma_confusion_matrix_counts_every_sample(y_true: Seq<usize>, y_pred: Seq<usize>)
    requires
        y_true.len() == y_pred.len(),
        max_label(y_true + y_pred, (y_true + y_pred).len() as int) < usize::MAX,
    ensures
        ({
            let nc = max_label(y_true + y_pred, (y_true + y_pred).len() as int) + 1;
            &&& forall|a: usize| (a as int) < nc ==>
                    #[trigger] row_sum(y_true, y_pred, a, nc, y_true.len() as int) == class_total(y_true, a, y_true.len() as int)
            &&& table_sum(y_true, y_pred, nc, nc, y_true.len() as int) == y_true.len()
        }),
{
    let all = y_true + y_pred;
    let n = y_true.len() as int;
    let nc = max_label(all, all.len() as int) + 1;
    if n > 0 {
        lemma_max_label_bounds(all, all.len() as int);
        assert forall|j: int| 0 <= j < n implies #[trigger] y_true[j] < nc && y_pred[j] < nc by {
            assert(all[j] == y_true[j]);
            assert(all[n + j] == y_pred[j]);
        }
    }
    lemma_counts_every_sample(y_true, y_pred, nc);
}

} // verus!
