//! Operations over tensors, as free functions.
pub mod rows;
pub mod softmax;
pub mod attention;
pub mod activation;
pub mod norm;
pub mod stored;
pub mod traits;
