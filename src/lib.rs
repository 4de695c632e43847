//! Dense row-major matrices and a small multilayer perceptron built on them.
//!
//! The element type is generic: the matrix operations take the scalar
//! arithmetic they need as closures, and the network takes it through the
//! [`network::Scalar`] trait.

pub mod matrix;
pub mod network;
