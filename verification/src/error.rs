//! Error types of the library.

use vstd::prelude::*;

verus! {

/// Main error type of the library.
#[derive(Debug)]
pub enum RustyAIError {
    /// Invalid shape for an operation
    InvalidShape { expected: String, got: String },
    /// Dimension mismatch
    DimensionMismatch(String),
    /// Invalid parameter
    InvalidParameter { name: String, reason: String },
    /// Model not fitted
    NotFitted,
    /// Convergence error
    ConvergenceError { iterations: usize },
    /// Numerical error
    NumericalError(String),
    /// Singular matrix error
    SingularMatrix,
    /// I/O error
    IoError(std::io::Error),
    /// Serialization error
    SerializationError(String),
    /// Invalid data error
    InvalidData(String),
    /// Empty data error
    EmptyData,
    /// Index out of bounds
    IndexOutOfBounds { index: usize, size: usize },
    /// Feature mismatch
    FeatureMismatch { expected: usize, got: usize },
    /// Generic error
    Other(String),
}

/// The standard I/O error, carried by `RustyAIError::IoError`.
#[verifier::external_type_specification]
#[verifier::external_body]
pub struct ExIoError(std::io::Error);

/// Result type alias for the library's operations
pub type Result<T> = std::result::Result<T, RustyAIError>;

impl From<String> for RustyAIError {
    fn from(s: String) -> (r: Self) {
        RustyAIError::Other(s)
    }
}

impl vstd::std_specs::convert::FromSpecImpl<String> for RustyAIError {
    open spec fn obeys_from_spec() -> bool {
        true
    }

    open spec fn from_spec(s: String) -> Self {
        RustyAIError::Other(s)
    }
}

impl From<&str> for RustyAIError {
    fn from(s: &str) -> (r: Self)
        ensures
            r matches RustyAIError::Other(t) && t@ == s@,
    {
        RustyAIError::Other(String::from_str(s))
    }
}

/// A message given as `&str` becomes `Other` with the same text. No spec
/// `String` can be built from a `&str`, so `from_spec` is not offered here;
/// the `ensures` of `from` above states the result.
impl vstd::std_specs::convert::FromSpecImpl<&str> for RustyAIError {
    open spec fn obeys_from_spec() -> bool {
        false
    }

    open spec fn from_spec(s: &str) -> Self {
        RustyAIError::NotFitted
    }
}

} // verus!
