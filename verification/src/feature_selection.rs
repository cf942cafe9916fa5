//! Feature selection: keeping the best-scoring features.

use vstd::prelude::*;
use crate::error::RustyAIError;
use crate::indices::seq_range;

verus! {

/// Scoring function for SelectKBest
#[derive(Debug, Clone, Copy)]
pub enum ScoreFunc {
    /// F-statistic for classification (ANOVA F-test)
    FClassif,
    /// F-statistic for regression
    FRegression,
    /// Mutual information for classification
    MutualInfoClassif,
}

/// Feature `i` ranks before feature `j`: its key is higher, or the keys are
/// equal and `i` comes first.
pub open spec fn ranks_before(keys: Seq<u64>, i: int, j: int) -> bool {
    keys[i] > keys[j] || (keys[i] == keys[j] && i < j)
}

/// `sel` lists the `m` best features by key, best first: distinct indices
/// in ranking order, each ranked before every feature left out.
pub open spec fn is_top(keys: Seq<u64>, m: nat, sel: Seq<usize>) -> bool {
    &&& sel.len() == m
    &&& forall|a: int| 0 <= a < sel.len() ==> #[trigger] sel[a] < keys.len()
    &&& forall|a: int, b: int| 0 <= a < b < sel.len() ==>
        ranks_before(keys, #[trigger] sel[a] as int, #[trigger] sel[b] as int)
    &&& forall|i: usize, a: int| #![trigger sel.contains(i), sel[a]]
        i < keys.len() && !sel.contains(i) && 0 <= a < sel.len() ==> ranks_before(keys, sel[a] as int, i as int)
}

/// The smaller of two counts.
pub open spec fn min_nat(a: nat, b: nat) -> nat {
    if a <= b { a } else { b }
}

/// The indices of the `k` features with the highest keys (all of them when
/// there are fewer), best first; equal keys keep their order.
pub fn top_k_indices(keys: &Vec<u64>, k: usize) -> (sel: Vec<usize>)
    ensures
        is_top(keys@, min_nat(k as nat, keys@.len()), sel@),
{
    let n = keys.len();
    let m = if k < n { k } else { n };
    let mut chosen: Vec<bool> = Vec::new();
    let mut z: usize = 0;
    while z < n
        invariant
            z <= n,
            chosen@.len() == z,
            forall|i: int| 0 <= i < z ==> !(#[trigger] chosen@[i]),
        decreases n - z,
    {
        chosen.push(false);
        z = z + 1;
    }
    let mut sel: Vec<usize> = Vec::new();
    let mut step: usize = 0;
    while step < m
        invariant
            n == keys@.len(),
            m <= n,
            step <= m,
            sel@.len() == step,
            chosen@.len() == n,
            forall|i: int| 0 <= i < n ==> (#[trigger] chosen@[i] <==> sel@.contains(i as usize)),
            forall|a: int| 0 <= a < sel@.len() ==> #[trigger] sel@[a] < n,
            forall|a: int, b: int| 0 <= a < b < sel@.len() ==>
                ranks_before(keys@, #[trigger] sel@[a] as int, #[trigger] sel@[b] as int),
            forall|i: usize, a: int| #![trigger sel@.contains(i), sel@[a]]
                i < n && !sel@.contains(i) && 0 <= a < sel@.len() ==> ranks_before(keys@, sel@[a] as int, i as int),
        decreases m - step,
    {
        // distinct indices below n: fewer than n are chosen
        proof {
            lemma_some_unchosen(sel@, n as int);
        }
        let mut best: usize = n;
        let mut i: usize = 0;
        while i < n
            invariant
                n == keys@.len(),
                chosen@.len() == n,
                i <= n,
                best == n || (best < i && !chosen@[best as int]),
                best == n ==> forall|j: int| 0 <= j < i ==> #[trigger] chosen@[j],
                best < n ==> forall|j: int| 0 <= j < i && !chosen@[j] && j != best ==>
                    ranks_before(keys@, best as int, j),
            decreases n - i,
        {
            if !chosen[i] && (best == n || keys[i] > keys[best]) {
                best = i;
            }
            i = i + 1;
        }
        proof {
            if best == n {
                let w = choose|w: usize| w < n && !sel@.contains(w);
                assert(chosen@[w as int] <==> sel@.contains(w));
            }
        }
        let ghost old_sel = sel@;
        chosen.set(best, true);
        sel.push(best);
        proof {
            assert(sel@ == old_sel.push(best));
            assert forall|j: int| 0 <= j < n implies (#[trigger] chosen@[j] <==> sel@.contains(j as usize)) by {
                if j == best as int {
                    assert(sel@[old_sel.len() as int] == best);
                } else {
                    if sel@.contains(j as usize) {
                        let a = choose|a: int| 0 <= a < sel@.len() && sel@[a] == j as usize;
                        assert(a < old_sel.len());
                        assert(old_sel[a] == j as usize);
                    }
                    if old_sel.contains(j as usize) {
                        let a = choose|a: int| 0 <= a < old_sel.len() && old_sel[a] == j as usize;
                        assert(sel@[a] == j as usize);
                    }
                }
            }
            assert forall|a: int, b: int| 0 <= a < b < sel@.len() implies
                ranks_before(keys@, #[trigger] sel@[a] as int, #[trigger] sel@[b] as int) by {
                if b == old_sel.len() {
                    assert(!old_sel.contains(best));
                    assert(sel@[a] == old_sel[a]);
                } else {
                    assert(sel@[a] == old_sel[a] && sel@[b] == old_sel[b]);
                }
            }
            assert forall|j: usize, a: int| #![trigger sel@.contains(j), sel@[a]]
                j < n && !sel@.contains(j) && 0 <= a < sel@.len() implies
                ranks_before(keys@, sel@[a] as int, j as int) by {
                assert(!old_sel.contains(j)) by {
                    if old_sel.contains(j) {
                        let c = choose|c: int| 0 <= c < old_sel.len() && old_sel[c] == j;
                        assert(sel@[c] == j);
                    }
                }
                if a == old_sel.len() {
                    assert(sel@[a] == best);
                    assert(j != best);
                    assert(chosen@[j as int] <==> sel@.contains(j));
                } else {
                    assert(sel@[a] == old_sel[a]);
                }
            }
        }
        step = step + 1;
    }
    sel
}

/// Fewer than `n` entries cannot hold every index below `n`.
proof fn lemma_some_unchosen(sel: Seq<usize>, n: int)
    requires
        sel.len() < n,
        n <= usize::MAX,
    ensures
        exists|w: usize| w < n && !#[trigger] sel.contains(w),
{
    if forall|w: usize| w < n ==> #[trigger] sel.contains(w) {
        let all = seq_range(0, n);
        assert(all.no_duplicates()) by {
            assert forall|a: int, b: int| 0 <= a < all.len() && 0 <= b < all.len() && a != b implies all[a] != all[b] by {
                assert(all[a] as int == a && all[b] as int == b);
            }
        }
        all.unique_seq_to_set();
        sel.lemma_cardinality_of_set();
        vstd::seq_lib::seq_to_set_is_finite(sel);
        assert(all.to_set().subset_of(sel.to_set())) by {
            assert forall|x: usize| all.to_set().contains(x) implies sel.to_set().contains(x) by {
                let k = choose|k: int| 0 <= k < all.len() && all[k] == x;
                assert(sel.contains(all[k]));
            }
        }
        vstd::set_lib::lemma_len_subset(all.to_set(), sel.to_set());
        assert(false);
    }
}

/// Every selected column exists in every row.
pub open spec fn columns_fit<T>(sel: Seq<usize>, x: Seq<Vec<T>>) -> bool {
    forall|row: int, a: int| 0 <= row < x.len() && 0 <= a < sel.len() ==>
        #[trigger] sel[a] < (#[trigger] x[row])@.len()
}

/// Select K best features based on statistical tests: keeps the `k`
/// features with the highest scores.
pub struct SelectKBest<A> {
    k: usize,
    score_func: ScoreFunc,
    scores_: Option<Vec<A>>,
    selected_features_: Option<Vec<usize>>,
}

impl<A> SelectKBest<A> {
    /// The number of features to keep.
    pub closed spec fn spec_k(&self) -> nat {
        self.k as nat
    }

    /// The scoring function.
    pub closed spec fn spec_score_func(&self) -> ScoreFunc {
        self.score_func
    }

    /// The scores of the last fit, if any.
    pub closed spec fn spec_scores(&self) -> Option<Seq<A>> {
        match self.scores_ {
            Some(s) => Some(s@),
            None => None,
        }
    }

    /// The kept features of the last fit, if any.
    pub closed spec fn spec_selected(&self) -> Option<Seq<usize>> {
        match self.selected_features_ {
            Some(s) => Some(s@),
            None => None,
        }
    }

    /// A selector that will keep `k` features, scored by `score_func`.
    pub fn new(k: usize, score_func: ScoreFunc) -> (r: Self)
        ensures
            r.spec_k() == k,
            r.spec_score_func() == score_func,
            r.spec_scores() is None,
            r.spec_selected() is None,
    {
        SelectKBest { k, score_func, scores_: None, selected_features_: None }
    }

    /// The scoring function.
    pub fn score_func(&self) -> (r: ScoreFunc)
        ensures
            r == self.spec_score_func(),
    {
        self.score_func
    }

    /// Records the scores of a fit and keeps the `k` features that rank
    /// highest by `keys`, where `keys[i]` orders feature `i` as its score
    /// does. `n_samples` and `n_targets` are the rows of the data and the
    /// length of the target: they must agree, else `DimensionMismatch` and
    /// nothing changes.
    pub fn fit_scores(&mut self, n_samples: usize, n_targets: usize, scores: Vec<A>, keys: &Vec<u64>)
        -> (r: Result<(), RustyAIError>)
        requires
            scores@.len() == keys@.len(),
        ensures
            r is Ok <==> n_samples == n_targets,
            r matches Err(e) ==> e is DimensionMismatch && *final(self) == *old(self),
            r is Ok ==> {
                &&& final(self).spec_k() == old(self).spec_k()
                &&& final(self).spec_score_func() == old(self).spec_score_func()
                &&& final(self).spec_scores() == Some(scores@)
                &&& final(self).spec_selected() matches Some(sel)
                &&& is_top(keys@, min_nat(old(self).spec_k(), keys@.len()), sel)
            },
    {
        if n_samples != n_targets {
            return Err(RustyAIError::DimensionMismatch(
                String::from_str("X and y have different numbers of samples"),
            ));
        }
        let selected = top_k_indices(keys, self.k);
        self.scores_ = Some(scores);
        self.selected_features_ = Some(selected);
        Ok(())
    }

    /// The scores of the last fit.
    pub fn scores(&self) -> (r: Option<&Vec<A>>)
        ensures
            match r {
                Some(v) => self.spec_scores() == Some(v@),
                None => self.spec_scores() is None,
            },
    {
        match &self.scores_ {
            Some(v) => Some(v),
            None => None,
        }
    }

    /// The indices of the kept features, best first.
    pub fn selected_features(&self) -> (r: Option<&Vec<usize>>)
        ensures
            match r {
                Some(v) => self.spec_selected() == Some(v@),
                None => self.spec_selected() is None,
            },
    {
        match &self.selected_features_ {
            Some(v) => Some(v),
            None => None,
        }
    }

    /// Keeps the selected columns of each row, in the order of selection;
    /// `NotFitted` before a fit.
    pub fn transform_rows<T: Copy>(&self, x: &Vec<Vec<T>>) -> (r: Result<Vec<Vec<T>>, RustyAIError>)
        requires
            self.spec_selected() matches Some(sel) ==> columns_fit(sel, x@),
        ensures
            r is Err <==> self.spec_selected() is None,
            r matches Err(e) ==> e is NotFitted,
            r matches Ok(out) ==> self.spec_selected() matches Some(sel) && out@.len() == x@.len()
                && forall|row: int| 0 <= row < x@.len() ==> {
                    &&& (#[trigger] out@[row])@.len() == sel.len()
                    &&& forall|a: int| 0 <= a < sel.len() ==> out@[row]@[a] == x@[row]@[sel[a] as int]
                },
    {
        let selected = match &self.selected_features_ {
            Some(s) => s,
            None => { return Err(RustyAIError::NotFitted); },
        };
        assert(self.spec_selected() == Some(selected@));
        let mut out: Vec<Vec<T>> = Vec::new();
        let mut row: usize = 0;
        while row < x.len()
            invariant
                self.spec_selected() == Some(selected@),
                columns_fit(selected@, x@),
                row <= x@.len(),
                out@.len() == row,
                forall|rr: int| 0 <= rr < row ==> {
                    &&& (#[trigger] out@[rr])@.len() == selected@.len()
                    &&& forall|a: int| 0 <= a < selected@.len() ==> out@[rr]@[a] == x@[rr]@[selected@[a] as int]
                },
            decreases x@.len() - row,
        {
            let src = &x[row];
            let mut new_row: Vec<T> = Vec::new();
            let mut a: usize = 0;
            while a < selected.len()
                invariant
                    src@ == x@[row as int]@,
                    row < x@.len(),
                    forall|b: int| 0 <= b < selected@.len() ==> #[trigger] selected@[b] < src@.len(),
                    a <= selected@.len(),
                    new_row@.len() == a,
                    forall|b: int| 0 <= b < a ==> #[trigger] new_row@[b] == src@[selected@[b] as int],
                decreases selected@.len() - a,
            {
                assert(selected@[a as int] < src@.len());
                new_row.push(src[selected[a]]);
                a = a + 1;
            }
            out.push(new_row);
            row = row + 1;
        }
        Ok(out)
    }
}

/// Recursive Feature Elimination: removes `step` features at a time until
/// `n_features_to_select` are left.
pub struct RFE<A> {
    n_features_to_select: usize,
    step: usize,
    selected_features_: Option<Vec<usize>>,
    ranking_: Option<Vec<usize>>,
    _phantom: std::marker::PhantomData<A>,
}

impl<A> RFE<A> {
    /// The number of features to keep.
    pub closed spec fn spec_n_features_to_select(&self) -> nat {
        self.n_features_to_select as nat
    }

    /// The number of features removed at each iteration.
    pub closed spec fn spec_step(&self) -> nat {
        self.step as nat
    }

    /// The kept features, once a selection has been made.
    pub closed spec fn spec_selected(&self) -> Option<Seq<usize>> {
        match self.selected_features_ {
            Some(s) => Some(s@),
            None => None,
        }
    }

    /// The rank of each feature, once a selection has been made.
    pub closed spec fn spec_ranking(&self) -> Option<Seq<usize>> {
        match self.ranking_ {
            Some(s) => Some(s@),
            None => None,
        }
    }

    /// A selector that keeps `n_features_to_select` features, removing
    /// `step` at a time; a step of 0 counts as 1.
    pub fn new(n_features_to_select: usize, step: usize) -> (r: Self)
        ensures
            r.spec_n_features_to_select() == n_features_to_select,
            r.spec_step() == if step == 0 { 1 } else { step as nat },
            r.spec_selected() is None,
            r.spec_ranking() is None,
    {
        RFE {
            n_features_to_select,
            step: if step > 1 { step } else { 1 },
            selected_features_: None,
            ranking_: None,
            _phantom: std::marker::PhantomData,
        }
    }

    /// The indices of the kept features.
    pub fn selected_features(&self) -> (r: Option<&Vec<usize>>)
        ensures
            match r {
                Some(v) => self.spec_selected() == Some(v@),
                None => self.spec_selected() is None,
            },
    {
        match &self.selected_features_ {
            Some(v) => Some(v),
            None => None,
        }
    }

    /// The rank of each feature (1 = best).
    pub fn ranking(&self) -> (r: Option<&Vec<usize>>)
        ensures
            match r {
                Some(v) => self.spec_ranking() == Some(v@),
                None => self.spec_ranking() is None,
            },
    {
        match &self.ranking_ {
            Some(v) => Some(v),
            None => None,
        }
    }
}

} // verus!
