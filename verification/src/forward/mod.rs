//! The forward pass, as far as its shapes and its results are known here.

pub mod block;
pub mod kernel;

pub use block::{BlockConfig, KvLayerCache, LayerTensors};
pub use kernel::ComputeKernel;
