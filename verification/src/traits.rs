//! Core traits that define the ML API, for models to implement.

use vstd::prelude::*;
use crate::error::RustyAIError;

verus! {

/// Base estimator trait - all models implement this
pub trait Estimator<X, Y>: Sized {
    /// The type of the fitted estimator
    type Fitted;

    /// Fit the estimator to the training data
    fn fit(self, x: &X, y: &Y) -> Result<Self::Fitted, RustyAIError>;
}

/// Predictor trait for making predictions
pub trait Predictor<X> {
    /// Output type of predictions
    type Output;

    /// Make predictions on new data
    fn predict(&self, x: &X) -> Self::Output;
}

/// Transformer trait for data transformations
pub trait Transformer<X>: Sized {
    /// Output type of transformed data
    type Output;

    /// Transform the data
    fn transform(&self, x: &X) -> Self::Output;

    /// Fit and transform in one step
    fn fit_transform(self, x: &X) -> (Self, Self::Output);
}

/// Classifier trait for classification tasks
pub trait Classifier<X>: Predictor<X> {
    /// Predict class probabilities
    fn predict_proba(&self, x: &X) -> Self::Output;

    /// Get the classes
    fn classes(&self) -> Vec<usize>;
}

} // verus!
