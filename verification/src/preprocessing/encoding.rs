//! One-hot encoding of categorical features.

use vstd::prelude::*;
use crate::error::RustyAIError;
use crate::indices::strictly_increasing;
use crate::matrix::Matrix;

verus! {

/// The indicator of `v` over the categories `cats`: 1 where the category is
/// `v`, 0 elsewhere.
pub open spec fn indicator(v: usize, cats: Seq<usize>) -> Seq<u8> {
    Seq::new(cats.len(), |c: int| if cats[c] == v { 1u8 } else { 0u8 })
}

/// The one-hot encoding of the first `k` features of a sample with values
/// `vals`: the indicators of the features, one after the other.
pub open spec fn one_hot_prefix(vals: Seq<usize>, cats: Seq<Seq<usize>>, k: int) -> Seq<u8>
    decreases k,
{
    if k <= 0 {
        Seq::empty()
    } else {
        one_hot_prefix(vals, cats, k - 1) + indicator(vals[k - 1], cats[k - 1])
    }
}

/// The one-hot encoding of a sample with values `vals`.
pub open spec fn one_hot(vals: Seq<usize>, cats: Seq<Seq<usize>>) -> Seq<u8> {
    one_hot_prefix(vals, cats, cats.len() as int)
}

/// The number of encoded columns for the first `k` features.
pub open spec fn total_categories(cats: Seq<Seq<usize>>, k: int) -> int
    decreases k,
{
    if k <= 0 { 0 } else { total_categories(cats, k - 1) + cats[k - 1].len() }
}

/// Row `r` of matrix `x`.
pub open spec fn row_of(x: &Matrix<usize>, r: int) -> Seq<usize> {
    Seq::new(x.spec_cols(), |j: int| x.at(r, j))
}

/// `cats` are the fitted categories of `x`: for each column, its distinct
/// values in increasing order.
pub open spec fn categories_of(cats: Seq<Seq<usize>>, x: &Matrix<usize>) -> bool {
    &&& cats.len() == x.spec_cols()
    &&& forall|j: int| 0 <= j < cats.len() ==> strictly_increasing(#[trigger] cats[j])
    &&& forall|j: int, v: usize| 0 <= j < cats.len() ==>
            (#[trigger] cats[j].contains(v) <==> exists|r: int| 0 <= r < x.spec_rows() && #[trigger] x.at(r, j) == v)
}

proof fn lemma_one_hot_prefix_len(vals: Seq<usize>, cats: Seq<Seq<usize>>, k: int)
    requires
        k >= 0,
    ensures
        one_hot_prefix(vals, cats, k).len() == total_categories(cats, k),
    decreases k,
{
    if k > 0 {
        lemma_one_hot_prefix_len(vals, cats, k - 1);
    }
}

/// The number of entries equal to 1.
pub open spec fn count_ones(s: Seq<u8>) -> nat
    decreases s.len(),
{
    if s.len() == 0 {
        0
    } else {
        count_ones(s.drop_last()) + if s.last() == 1u8 { 1nat } else { 0nat }
    }
}

proof fn lemma_count_ones_concat(a: Seq<u8>, b: Seq<u8>)
    ensures
        count_ones(a + b) == count_ones(a) + count_ones(b),
    decreases b.len(),
{
    if b.len() == 0 {
        assert(a + b =~= a);
    } else {
        assert((a + b).drop_last() =~= a + b.drop_last());
        assert((a + b).last() == b.last());
        lemma_count_ones_concat(a, b.drop_last());
    }
}

proof fn lemma_indicator_ones(v: usize, cats: Seq<usize>)
    requires
        strictly_increasing(cats),
    ensures
        count_ones(indicator(v, cats)) == if cats.contains(v) { 1nat } else { 0nat },
    decreases cats.len(),
{
    if cats.len() > 0 {
        let init = cats.drop_last();
        assert(strictly_increasing(init));
        assert(indicator(v, cats).drop_last() =~= indicator(v, init));
        lemma_indicator_ones(v, init);
        if cats.last() == v {
            assert(!init.contains(v)) by {
                if init.contains(v) {
                    let k = choose|k: int| 0 <= k < init.len() && init[k] == v;
                    assert(cats[k] < cats[cats.len() - 1]);
                }
            }
            assert(cats[cats.len() - 1] == v);
        } else {
            assert(cats.contains(v) <==> init.contains(v)) by {
                if cats.contains(v) {
                    let k = choose|k: int| 0 <= k < cats.len() && cats[k] == v;
                    assert(init[k] == v);
                }
                if init.contains(v) {
                    let k = choose|k: int| 0 <= k < init.len() && init[k] == v;
                    assert(cats[k] == v);
                }
            }
        }
    }
}

proof fn lemma_one_hot_prefix_ones(vals: Seq<usize>, cats: Seq<Seq<usize>>, k: int)
    requires
        0 <= k <= cats.len(),
        forall|f: int| 0 <= f < cats.len() ==> strictly_increasing(#[trigger] cats[f]) && cats[f].contains(vals[f]),
    ensures
        count_ones(one_hot_prefix(vals, cats, k)) == k,
    decreases k,
{
    if k > 0 {
        lemma_one_hot_prefix_ones(vals, cats, k - 1);
        lemma_count_ones_concat(one_hot_prefix(vals, cats, k - 1), indicator(vals[k - 1], cats[k - 1]));
        assert(strictly_increasing(cats[k - 1]) && cats[k - 1].contains(vals[k - 1]));
        lemma_indicator_ones(vals[k - 1], cats[k - 1]);
    }
}

/// One-hot encoding puts exactly one 1 per feature: a sample whose every
/// value is among its feature's (increasing) categories, as every row of the
/// data the encoder was fitted on is, is encoded with as many 1s as there
/// are features.
pub proof fn lemma_one_hot_one_per_feature(vals: Seq<usize>, cats: Seq<Seq<usize>>)
    requires
        forall|f: int| 0 <= f < cats.len() ==> strictly_increasing(#[trigger] cats[f]) && cats[f].contains(vals[f]),
    ensures
        count_ones(one_hot(vals, cats)) == cats.len(),
{
    lemma_one_hot_prefix_ones(vals, cats, cats.len() as int);
}

/// Encoding the data the encoder was fitted on puts exactly one 1 per
/// feature in every row.
pub proof fn lemma_fitted_rows_one_per_feature(cats: Seq<Seq<usize>>, x: &Matrix<usize>, r: int)
    requires
        categories_of(cats, x),
        0 <= r < x.spec_rows(),
    ensures
        count_ones(one_hot(row_of(x, r), cats)) == cats.len(),
{
    let vals = row_of(x, r);
    assert forall|f: int| 0 <= f < cats.len() implies strictly_increasing(#[trigger] cats[f]) && cats[f].contains(vals[f]) by {
        assert(vals[f] == x.at(r, f));
        assert(cats[f].contains(x.at(r, f)));
    }
    lemma_one_hot_one_per_feature(vals, cats);
}

/// One-hot encoder for categorical variables.
pub struct OneHotEncoder {
    categories: Option<Vec<Vec<usize>>>,
}

impl OneHotEncoder {
    /// The fitted categories of each feature, `None` before fitting.
    pub closed spec fn spec_categories(&self) -> Option<Seq<Seq<usize>>> {
        match self.categories {
            Some(c) => Some(c@.map_values(|v: Vec<usize>| v@)),
            None => None,
        }
    }

    /// An unfitted encoder.
    pub fn new() -> (r: Self)
        ensures
            r.spec_categories() is None,
    {
        Self { categories: None }
    }

    /// The fitted categories of each feature, `None` before fitting.
    pub fn categories(&self) -> (r: Option<&Vec<Vec<usize>>>)
        ensures
            r is Some == self.spec_categories() is Some,
            r matches Some(c) ==> c@.map_values(|v: Vec<usize>| v@) == self.spec_categories().unwrap(),
    {
        match &self.categories {
            Some(c) => Some(c),
            None => None,
        }
    }

    /// Learns the categories of each column of `x`: its distinct values in
    /// increasing order.
    pub fn fit(self, x: &Matrix<usize>) -> (r: Result<Self, RustyAIError>)
        requires
            x.wf(),
        ensures
            r matches Ok(e) && e.spec_categories() matches Some(cats) && categories_of(cats, x),
    {
        let rows = x.nrows();
        let cols = x.ncols();
        let mut categories: Vec<Vec<usize>> = Vec::new();
        let mut j: usize = 0;
        while j < cols
            invariant
                x.wf(),
                rows == x.spec_rows(),
                cols == x.spec_cols(),
                j <= cols,
                categories@.len() == j,
                forall|q: int| 0 <= q < j ==> strictly_increasing(#[trigger] categories@[q]@),
                forall|q: int, v: usize| 0 <= q < j ==>
                    (#[trigger] categories@[q]@.contains(v) <==> exists|r: int| 0 <= r < rows && #[trigger] x.at(r, q) == v),
            decreases cols - j,
        {
            let mut unique: Vec<usize> = Vec::new();
            let mut r: usize = 0;
            while r < rows
                invariant
                    x.wf(),
                    rows == x.spec_rows(),
                    cols == x.spec_cols(),
                    j < cols,
                    r <= rows,
                    strictly_increasing(unique@),
                    forall|v: usize| unique@.contains(v) <==> exists|q: int| 0 <= q < r && #[trigger] x.at(q, j as int) == v,
                decreases rows - r,
            {
                let v = *x.get(r, j);
                insert_sorted(&mut unique, v);
                proof {
                    assert forall|w: usize| unique@.contains(w) <==> exists|q: int| 0 <= q < r + 1 && #[trigger] x.at(q, j as int) == w by {
                        if w == v {
                            assert(x.at(r as int, j as int) == w);
                        }
                        if exists|q: int| 0 <= q < r + 1 && #[trigger] x.at(q, j as int) == w {
                            let q = choose|q: int| 0 <= q < r + 1 && #[trigger] x.at(q, j as int) == w;
                            if q < r {
                                assert(exists|q2: int| 0 <= q2 < r && #[trigger] x.at(q2, j as int) == w);
                            }
                        }
                    }
                }
                r = r + 1;
            }
            categories.push(unique);
            j = j + 1;
        }
        let fitted = Self { categories: Some(categories) };
        proof {
            let cats = fitted.spec_categories().unwrap();
            assert forall|q: int| 0 <= q < cats.len() implies strictly_increasing(#[trigger] cats[q]) by {
                assert(cats[q] == categories@[q]@);
            }
            assert forall|q: int, v: usize| 0 <= q < cats.len() implies
                (#[trigger] cats[q].contains(v) <==> exists|r: int| 0 <= r < x.spec_rows() && #[trigger] x.at(r, q) == v) by {
                assert(cats[q] == categories@[q]@);
            }
        }
        Ok(fitted)
    }

    /// Encodes each row of `x`: for each fitted feature in turn, one column
    /// per category, 1 where the row's value is that category and 0
    /// elsewhere. An unfitted encoder gives `NotFitted`.
    pub fn transform(&self, x: &Matrix<usize>) -> (r: Result<Vec<Vec<u8>>, RustyAIError>)
        requires
            x.wf(),
            self.spec_categories() matches Some(cats) ==> cats.len() <= x.spec_cols(),
        ensures
            self.spec_categories() is None <==> r is Err,
            r matches Err(e) ==> e is NotFitted,
            r matches Ok(out) ==> {
                &&& out@.len() == x.spec_rows()
                &&& forall|i: int| 0 <= i < out@.len() ==>
                        (#[trigger] out@[i])@ == one_hot(row_of(x, i), self.spec_categories().unwrap())
            },
    {
        let categories = match &self.categories {
            Some(c) => c,
            None => { return Err(RustyAIError::NotFitted); },
        };
        let ghost cats = self.spec_categories().unwrap();
        let rows = x.nrows();
        let mut out: Vec<Vec<u8>> = Vec::new();
        let mut i: usize = 0;
        while i < rows
            invariant
                x.wf(),
                rows == x.spec_rows(),
                cats == categories@.map_values(|v: Vec<usize>| v@),
                cats.len() <= x.spec_cols(),
                i <= rows,
                out@.len() == i,
                forall|q: int| 0 <= q < i ==> (#[trigger] out@[q])@ == one_hot(row_of(x, q), cats),
            decreases rows - i,
        {
            let mut row: Vec<u8> = Vec::new();
            let mut j: usize = 0;
            while j < categories.len()
                invariant
                    x.wf(),
                    rows == x.spec_rows(),
                    i < rows,
                    cats == categories@.map_values(|v: Vec<usize>| v@),
                    cats.len() <= x.spec_cols(),
                    j <= cats.len(),
                    row@ == one_hot_prefix(row_of(x, i as int), cats, j as int),
                decreases cats.len() - j,
            {
                let v = *x.get(i, j);
                let cj = &categories[j];
                proof {
                    assert(cj@ == cats[j as int]);
                }
                let mut c: usize = 0;
                let ghost base = row@;
                while c < cj.len()
                    invariant
                        c <= cj@.len(),
                        row@ == base + indicator(v, cj@).subrange(0, c as int),
                    decreases cj@.len() - c,
                {
                    if cj[c] == v {
                        row.push(1);
                    } else {
                        row.push(0);
                    }
                    c = c + 1;
                    assert(row@ =~= base + indicator(v, cj@).subrange(0, c as int));
                }
                proof {
                    assert(indicator(v, cj@).subrange(0, cj@.len() as int) =~= indicator(v, cj@));
                    assert(row_of(x, i as int)[j as int] == v);
                }
                j = j + 1;
            }
            out.push(row);
            i = i + 1;
        }
        Ok(out)
    }

    /// Fits the encoder on `x`, then encodes `x`.
    pub fn fit_transform(self, x: &Matrix<usize>) -> (r: Result<(Self, Vec<Vec<u8>>), RustyAIError>)
        requires
            x.wf(),
        ensures
            r matches Ok((e, out)) && e.spec_categories() matches Some(cats) && categories_of(cats, x)
                && out@.len() == x.spec_rows()
                && forall|i: int| 0 <= i < out@.len() ==> (#[trigger] out@[i])@ == one_hot(row_of(x, i), cats),
    {
        let fitted = match self.fit(x) {
            Ok(f) => f,
            Err(e) => { return Err(e); },
        };
        let transformed = match fitted.transform(x) {
            Ok(t) => t,
            Err(e) => { return Err(e); },
        };
        Ok((fitted, transformed))
    }
}

impl Default for OneHotEncoder {
    fn default() -> Self {
        Self::new()
    }
}

/// Inserts `x` into the strictly increasing `v`, unless it is there already.
fn insert_sorted(v: &mut Vec<usize>, x: usize)
    requires
        strictly_increasing(old(v)@),
    ensures
        strictly_increasing(final(v)@),
        forall|y: usize| #[trigger] final(v)@.contains(y) <==> (old(v)@.contains(y) || y == x),
{
    let mut p: usize = 0;
    while p < v.len() && v[p] < x
        invariant
            v@ == old(v)@,
            p <= v@.len(),
            forall|k: int| 0 <= k < p ==> #[trigger] v@[k] < x,
        decreases v@.len() - p,
    {
        p = p + 1;
    }
    if p < v.len() && v[p] == x {
        proof {
            assert(v@[p as int] == x);
            assert(v@.contains(x));
        }
        return;
    }
    let ghost v0 = v@;
    v.insert(p, x);
    proof {
        assert(v@ =~= v0.insert(p as int, x));
        assert forall|a: int, b: int| 0 <= a < b < v@.len() implies #[trigger] v@[a] < #[trigger] v@[b] by {
            if b < p {
                assert(v@[a] == v0[a] && v@[b] == v0[b]);
            } else if b == p as int {
                assert(v@[a] == v0[a]);
            } else if a < p {
                assert(v@[a] == v0[a] && v@[b] == v0[b - 1]);
                assert(v0[p as int] > x);
                if b - 1 > p {
                    assert(v0[p as int] < v0[b - 1]);
                }
            } else if a == p as int {
                assert(v@[b] == v0[b - 1]);
                assert(v0[p as int] > x);
                if b - 1 > p {
                    assert(v0[p as int] < v0[b - 1]);
                }
            } else {
                assert(v@[a] == v0[a - 1] && v@[b] == v0[b - 1]);
            }
        }
        assert forall|y: usize| #[trigger] v@.contains(y) <==> (v0.contains(y) || y == x) by {
            if v@.contains(y) {
                let k = choose|k: int| 0 <= k < v@.len() && v@[k] == y;
                if k < p {
                    assert(v0[k] == y);
                } else if k > p {
                    assert(v0[k - 1] == y);
                }
            }
            if v0.contains(y) {
                let k = choose|k: int| 0 <= k < v0.len() && v0[k] == y;
                if k < p {
                    assert(v@[k] == y);
                } else {
                    assert(v@[k + 1] == y);
                }
            }
            if y == x {
                assert(v@[p as int] == x);
            }
        }
    }
}

} // verus!
