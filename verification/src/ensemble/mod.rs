//! Ensemble methods: decision trees and random forests (their structure,
//! configuration and resampling), and majority voting.

use vstd::prelude::*;

pub mod random_forest;
pub mod voting;

pub use random_forest::{RandomForest, RandomForestBuilder};
pub use voting::{VotingType, majority_vote};

verus! {

/// Decision tree node: a leaf holding a value, or a split on a feature at a
/// threshold with a left (at or below the threshold) and a right subtree.
#[verifier::reject_recursive_types(A)]
#[derive(Debug)]
pub struct TreeNode<A> {
    /// Feature tested at a split
    pub feature_idx: Option<usize>,
    /// Threshold of a split
    pub threshold: Option<A>,
    /// Subtree for values at or below the threshold
    pub left: Option<Box<TreeNode<A>>>,
    /// Subtree for values above the threshold
    pub right: Option<Box<TreeNode<A>>>,
    /// Value of a leaf
    pub value: Option<A>,
}

impl<A> TreeNode<A> {
    /// A leaf predicting `value`.
    pub fn leaf(value: A) -> (r: Self)
        ensures
            r.feature_idx is None,
            r.threshold is None,
            r.left is None,
            r.right is None,
            r.value == Some(value),
    {
        Self { feature_idx: None, threshold: None, left: None, right: None, value: Some(value) }
    }

    /// A split on `feature_idx` at `threshold`.
    pub fn split(feature_idx: usize, threshold: A, left: TreeNode<A>, right: TreeNode<A>) -> (r: Self)
        ensures
            r.feature_idx == Some(feature_idx),
            r.threshold == Some(threshold),
            r.left == Some(Box::new(left)),
            r.right == Some(Box::new(right)),
            r.value is None,
    {
        Self {
            feature_idx: Some(feature_idx),
            threshold: Some(threshold),
            left: Some(Box::new(left)),
            right: Some(Box::new(right)),
            value: None,
        }
    }
}

/// Decision tree for regression.
#[verifier::reject_recursive_types(A)]
#[derive(Debug)]
pub struct DecisionTree<A> {
    root: Option<TreeNode<A>>,
    max_depth: Option<usize>,
    min_samples_split: usize,
}

impl<A> DecisionTree<A> {
    /// An unfitted tree with the given depth limit and minimum split size.
    pub fn new(max_depth: Option<usize>, min_samples_split: usize) -> (r: Self)
        ensures
            r.spec_root() is None,
            r.spec_max_depth() == max_depth,
            r.spec_min_samples_split() == min_samples_split,
    {
        Self { root: None, max_depth, min_samples_split }
    }

    /// The root node, `None` before fitting.
    pub closed spec fn spec_root(&self) -> Option<TreeNode<A>> {
        self.root
    }

    /// The depth limit.
    pub closed spec fn spec_max_depth(&self) -> Option<usize> {
        self.max_depth
    }

    /// The smallest node size that may be split.
    pub closed spec fn spec_min_samples_split(&self) -> usize {
        self.min_samples_split
    }

    /// The root node, `None` before fitting.
    pub fn root(&self) -> (r: Option<&TreeNode<A>>)
        ensures
            r is Some == self.spec_root() is Some,
            r matches Some(x) ==> *x == self.spec_root().unwrap(),
    {
        match &self.root {
            Some(r) => Some(r),
            None => None,
        }
    }

    /// The depth limit.
    pub fn max_depth(&self) -> (r: Option<usize>)
        ensures
            r == self.spec_max_depth(),
    {
        self.max_depth
    }

    /// The smallest node size that may be split.
    pub fn min_samples_split(&self) -> (r: usize)
        ensures
            r == self.spec_min_samples_split(),
    {
        self.min_samples_split
    }

    /// The tree with its root set to `root` (the result of fitting).
    pub fn with_root(self, root: TreeNode<A>) -> (r: Self)
        ensures
            r.spec_root() == Some(root),
            r.spec_max_depth() == self.spec_max_depth(),
            r.spec_min_samples_split() == self.spec_min_samples_split(),
    {
        let mut t = self;
        t.root = Some(root);
        t
    }

    /// Whether a node of `n_samples` samples at `depth` becomes a leaf
    /// without a split: it is too small to split, or the depth limit is
    /// reached.
    pub fn should_stop(&self, n_samples: usize, depth: usize) -> (r: bool)
        ensures
            r == (n_samples < self.spec_min_samples_split()
                || (self.spec_max_depth() matches Some(d) && depth >= d)),
    {
        n_samples < self.min_samples_split || match self.max_depth {
            Some(d) => depth >= d,
            None => false,
        }
    }
}

} // verus!
