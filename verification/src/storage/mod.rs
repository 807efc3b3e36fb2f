//! What a checkpoint holds on disk.

pub mod catalog;

pub use catalog::{LayerCatalog, TensorInfo, TensorRole};
