//! A small feed-forward neural-network training engine over fixed-point
//! arithmetic: dense linear algebra, elementwise activations, loss
//! functions, fully-connected layers, and a network type that runs the
//! forward pass, manual backpropagation and a plain gradient-descent
//! training loop, with a flat text format for weight persistence.

pub mod fixed;
pub mod linalg;
pub mod activation;
pub mod loss;
pub mod dataloader;
pub mod codec;
pub mod nn;
