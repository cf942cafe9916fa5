//! RustyAI: machine-learning building blocks whose index, sampling, clustering
//! and encoding logic is verified with Verus.

pub mod error;
pub mod random;
pub mod indices;
pub mod model_selection;
pub mod cluster;
pub mod ensemble;
pub mod metrics;
pub mod matrix;
pub mod preprocessing;
pub mod nn;
pub mod autograd;
pub mod econometrics;
pub mod stochastic;
pub mod spatial;
pub mod neighbors;
pub mod rl;
pub mod feature_selection;
pub mod traits;
pub mod naive_bayes;
