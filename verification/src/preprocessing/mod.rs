//! Preprocessing: categorical encoding, resampling of imbalanced data,
//! imputation strategies and normalizer settings.

use vstd::prelude::*;

pub mod encoding;
pub mod sampling;

pub use encoding::OneHotEncoder;

verus! {

/// Strategy for imputing missing values.
#[derive(Debug, Clone, Copy)]
pub enum ImputationStrategy {
    /// Column mean
    Mean,
    /// Column median
    Median,
    /// Most frequent value (the mean is used for numeric data)
    Mode,
    /// A fixed fill value
    Constant,
}

/// Norm used by `Normalizer`.
#[derive(Debug, Clone, Copy)]
pub enum NormType {
    /// Sum of absolute values
    L1,
    /// Euclidean norm
    L2,
    /// Largest absolute value
    Max,
}

/// Normalizer: scales each sample to unit norm.
pub struct Normalizer<A> {
    norm: NormType,
    _phantom: std::marker::PhantomData<A>,
}

impl<A> Normalizer<A> {
    /// The norm used.
    pub closed spec fn spec_norm(&self) -> NormType {
        self.norm
    }

    /// A normalizer using the L2 norm.
    pub fn new() -> (r: Self)
        ensures
            r.spec_norm() == NormType::L2,
    {
        Self { norm: NormType::L2, _phantom: std::marker::PhantomData }
    }

    /// Sets the norm.
    pub fn with_norm(self, norm: NormType) -> (r: Self)
        ensures
            r.spec_norm() == norm,
    {
        let mut s = self;
        s.norm = norm;
        s
    }

    /// The norm used.
    pub fn norm(&self) -> (r: NormType)
        ensures
            r == self.spec_norm(),
    {
        self.norm
    }
}

impl<A> Default for Normalizer<A> {
    fn default() -> Self {
        Self::new()
    }
}

} // verus!
