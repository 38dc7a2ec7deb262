//! A fully-connected feed-forward network: construction, forward propagation,
//! output access and the sum-of-squared-errors metric.
//!
//! The network is generic over its scalar type and never looks inside a
//! scalar. Every arithmetic step is requested from an evaluator that the
//! caller supplies, a function from an [`Op`] to a scalar, and every drawn
//! scalar from a source that the caller supplies. The contracts say which
//! expression, over which operands, each stored value is a result of.
pub mod activation;
pub mod arithmetic;
pub mod laws;
pub mod network;
pub mod neurone;
pub mod node;

pub use crate::activation::Activation;
pub use crate::arithmetic::{Binary, Constant, Op, Unary};
pub use crate::network::{LengthMismatch, ANN};
pub use crate::neurone::Neurone;
pub use crate::node::Node;
