//! A dense matrix and a layered feed-forward network built on it.
//!
//! Both are generic over the element type: the shapes, the indexing, the
//! order of traversal and of accumulation are fixed here, while the scalar
//! arithmetic (multiply-add, adding the bias, the activation) is handed in by
//! the caller as closures.
pub mod matrix;
pub mod neural_net;

pub use matrix::{Matrix, MatrixError};
pub use neural_net::NeuralNet;
