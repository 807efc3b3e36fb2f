//! # flip
//!
//! The decisions of a layer-streaming inference engine, with their proofs: the tokenizer, batched
//! and speculative generation, the wire protocol and the workers of the distributed pipeline,
//! model configuration, and the loading and sizing of checkpoints.
//!
//! Weights and activations pass through as the bits of 32-bit floats; the arithmetic on them is
//! the business of a [`forward::ComputeKernel`].

pub mod batching;
pub mod cache;
pub mod cuda;
pub mod distributed;
pub mod error;
pub mod forward;
pub mod generate;
pub mod loader;
pub mod memory;
pub mod model;
pub mod speculative;
pub mod speculative_laws;
pub mod storage;
pub mod text;
pub mod tokenizer;

pub use error::FlipError;
