//! Random forest: configuration, trees and the bootstrap rows of each tree.

use vstd::prelude::*;
use crate::error::RustyAIError;
use crate::indices::all_below;
use crate::random::random_usize;
use super::DecisionTree;

verus! {

/// Random forest for regression.
#[verifier::reject_recursive_types(A)]
pub struct RandomForest<A> {
    trees: Vec<DecisionTree<A>>,
    n_estimators: usize,
    max_depth: Option<usize>,
    min_samples_split: usize,
    max_features: Option<usize>,
}

impl<A> RandomForest<A> {
    /// An unfitted forest of 100 trees without depth limit, splitting nodes
    /// of at least 2 samples.
    pub fn new() -> (r: Self)
        ensures
            r.spec_trees().len() == 0,
            r.spec_n_estimators() == 100,
            r.spec_max_depth() is None,
            r.spec_min_samples_split() == 2,
            r.spec_max_features() is None,
    {
        Self { trees: Vec::new(), n_estimators: 100, max_depth: None, min_samples_split: 2, max_features: None }
    }

    /// A builder with the default settings.
    pub fn builder() -> (b: RandomForestBuilder<A>)
        ensures
            b.spec_n_estimators() == 100,
            b.spec_max_depth() is None,
            b.spec_min_samples_split() == 2,
            b.spec_max_features() is None,
    {
        RandomForestBuilder::new()
    }

    /// The fitted trees.
    pub closed spec fn spec_trees(&self) -> Seq<DecisionTree<A>> {
        self.trees@
    }

    /// The number of trees fitted.
    pub closed spec fn spec_n_estimators(&self) -> usize {
        self.n_estimators
    }

    /// The depth limit of each tree.
    pub closed spec fn spec_max_depth(&self) -> Option<usize> {
        self.max_depth
    }

    /// The smallest node size that may be split.
    pub closed spec fn spec_min_samples_split(&self) -> usize {
        self.min_samples_split
    }

    /// The number of features considered at a split.
    pub closed spec fn spec_max_features(&self) -> Option<usize> {
        self.max_features
    }

    /// The number of trees fitted.
    pub fn n_estimators(&self) -> (r: usize)
        ensures
            r == self.spec_n_estimators(),
    {
        self.n_estimators
    }

    /// The depth limit of each tree.
    pub fn max_depth(&self) -> (r: Option<usize>)
        ensures
            r == self.spec_max_depth(),
    {
        self.max_depth
    }

    /// The smallest node size that may be split.
    pub fn min_samples_split(&self) -> (r: usize)
        ensures
            r == self.spec_min_samples_split(),
    {
        self.min_samples_split
    }

    /// The number of features considered at a split.
    pub fn max_features(&self) -> (r: Option<usize>)
        ensures
            r == self.spec_max_features(),
    {
        self.max_features
    }

    /// The fitted trees.
    pub fn trees(&self) -> (r: &Vec<DecisionTree<A>>)
        ensures
            r@ == self.spec_trees(),
    {
        &self.trees
    }

    /// An unfitted tree with the forest's settings.
    pub fn new_tree(&self) -> (t: DecisionTree<A>)
        ensures
            t.spec_root() is None,
            t.spec_max_depth() == self.spec_max_depth(),
            t.spec_min_samples_split() == self.spec_min_samples_split(),
    {
        DecisionTree::new(self.max_depth, self.min_samples_split)
    }

    /// Checks the shapes before fitting: `X` with `n_rows` rows and `y` with
    /// `n_targets` values must agree, else `DimensionMismatch`.
    pub fn check_fit_shapes(n_rows: usize, n_targets: usize) -> (r: Result<(), RustyAIError>)
        ensures
            n_rows == n_targets <==> r is Ok,
            r matches Err(e) ==> e is DimensionMismatch,
    {
        if n_rows != n_targets {
            return Err(RustyAIError::DimensionMismatch(String::from_str("X and y have different numbers of samples")));
        }
        Ok(())
    }

    /// The rows of one tree's bootstrap sample: `n_rows` rows drawn with
    /// replacement, each a random `usize` reduced modulo `n_rows`.
    pub fn bootstrap_rows(&self, n_rows: usize) -> (rows: Vec<usize>)
        ensures
            rows@.len() == n_rows,
            all_below(rows@, n_rows as int),
            exists|raw: Seq<usize>| #[trigger] raw.len() == n_rows
                && forall|i: int| 0 <= i < n_rows ==> rows@[i] == (#[trigger] raw[i]) % n_rows,
    {
        let mut raw: Vec<usize> = Vec::new();
        let mut i: usize = 0;
        while i < n_rows
            invariant
                i <= n_rows,
                raw@.len() == i,
            decreases n_rows - i,
        {
            raw.push(random_usize());
            i = i + 1;
        }
        let rows = rows_from_draws(&raw, n_rows);
        proof {
            assert(raw@.len() == n_rows);
        }
        rows
    }
    /// Replaces the trees by `trees` (the result of fitting).
    pub fn set_trees(&mut self, trees: Vec<DecisionTree<A>>)
        ensures
            final(self).spec_trees() == trees@,
            final(self).spec_n_estimators() == old(self).spec_n_estimators(),
            final(self).spec_max_depth() == old(self).spec_max_depth(),
            final(self).spec_min_samples_split() == old(self).spec_min_samples_split(),
            final(self).spec_max_features() == old(self).spec_max_features(),
    {
        self.trees = trees;
    }

    /// A forest without trees is not fitted: `NotFitted`.
    pub fn check_fitted(&self) -> (r: Result<(), RustyAIError>)
        ensures
            self.spec_trees().len() > 0 <==> r is Ok,
            r matches Err(e) ==> e is NotFitted,
    {
        if self.trees.len() == 0 {
            return Err(RustyAIError::NotFitted);
        }
        Ok(())
    }
}

impl<A> Default for RandomForest<A> {
    fn default() -> Self {
        Self::new()
    }
}

/// Builder for `RandomForest`.
#[verifier::reject_recursive_types(A)]
pub struct RandomForestBuilder<A> {
    n_estimators: usize,
    max_depth: Option<usize>,
    min_samples_split: usize,
    max_features: Option<usize>,
    _phantom: std::marker::PhantomData<A>,
}

impl<A> RandomForestBuilder<A> {
    /// A builder with the default settings: 100 trees, no depth limit,
    /// nodes of at least 2 samples split.
    pub fn new() -> (r: Self)
        ensures
            r.spec_n_estimators() == 100,
            r.spec_max_depth() is None,
            r.spec_min_samples_split() == 2,
            r.spec_max_features() is None,
    {
        Self {
            n_estimators: 100,
            max_depth: None,
            min_samples_split: 2,
            max_features: None,
            _phantom: std::marker::PhantomData,
        }
    }

    /// The number of trees set.
    pub closed spec fn spec_n_estimators(&self) -> usize {
        self.n_estimators
    }

    /// The depth limit set.
    pub closed spec fn spec_max_depth(&self) -> Option<usize> {
        self.max_depth
    }

    /// The minimum split size set.
    pub closed spec fn spec_min_samples_split(&self) -> usize {
        self.min_samples_split
    }

    /// The number of features per split set.
    pub closed spec fn spec_max_features(&self) -> Option<usize> {
        self.max_features
    }

    /// Sets the number of trees.
    pub fn n_estimators(self, n: usize) -> (r: Self)
        ensures
            r.spec_n_estimators() == n,
            r.spec_max_depth() == self.spec_max_depth(),
            r.spec_min_samples_split() == self.spec_min_samples_split(),
            r.spec_max_features() == self.spec_max_features(),
    {
        let mut b = self;
        b.n_estimators = n;
        b
    }

    /// Sets the depth limit.
    pub fn max_depth(self, depth: Option<usize>) -> (r: Self)
        ensures
            r.spec_n_estimators() == self.spec_n_estimators(),
            r.spec_max_depth() == depth,
            r.spec_min_samples_split() == self.spec_min_samples_split(),
            r.spec_max_features() == self.spec_max_features(),
    {
        let mut b = self;
        b.max_depth = depth;
        b
    }

    /// Sets the smallest node size that may be split.
    pub fn min_samples_split(self, min: usize) -> (r: Self)
        ensures
            r.spec_n_estimators() == self.spec_n_estimators(),
            r.spec_max_depth() == self.spec_max_depth(),
            r.spec_min_samples_split() == min,
            r.spec_max_features() == self.spec_max_features(),
    {
        let mut b = self;
        b.min_samples_split = min;
        b
    }

    /// Builds the (unfitted) forest with the settings made; this never fails.
    pub fn build(self) -> (r: Result<RandomForest<A>, RustyAIError>)
        ensures
            r matches Ok(f) && f.spec_trees().len() == 0
                && f.spec_n_estimators() == self.spec_n_estimators()
                && f.spec_max_depth() == self.spec_max_depth()
                && f.spec_min_samples_split() == self.spec_min_samples_split()
                && f.spec_max_features() == self.spec_max_features(),
    {
        Ok(RandomForest {
            trees: Vec::new(),
            n_estimators: self.n_estimators,
            max_depth: self.max_depth,
            min_samples_split: self.min_samples_split,
            max_features: self.max_features,
        })
    }
}

/// The bootstrap rows for the raw draws `raw`: each reduced modulo `n_rows`.
pub fn rows_from_draws(raw: &Vec<usize>, n_rows: usize) -> (rows: Vec<usize>)
    requires
        raw@.len() > 0 ==> n_rows > 0,
    ensures
        rows@.len() == raw@.len(),
        forall|i: int| 0 <= i < raw@.len() ==> (#[trigger] rows@[i]) == raw@[i] % n_rows,
        all_below(rows@, n_rows as int),
{
    let mut rows: Vec<usize> = Vec::new();
    let mut i: usize = 0;
    while i < raw.len()
        invariant
            raw@.len() > 0 ==> n_rows > 0,
            i <= raw@.len(),
            rows@.len() == i,
            forall|k: int| 0 <= k < i ==> (#[trigger] rows@[k]) == raw@[k] % n_rows,
            all_below(rows@, n_rows as int),
        decreases raw@.len() - i,
    {
        rows.push(raw[i] % n_rows);
        i = i + 1;
    }
    rows
}

} // verus!
