//! The shape of the paged key/value cache.

use vstd::prelude::*;

verus! {

/// The shape of the key/value cache.
#[derive(Debug, Clone, Copy, PartialEq, Eq, Structural)]
pub struct KvCacheConfig {
    pub num_layers: u32,
    pub num_kv_heads: u32,
    pub head_dim: u32,
    /// The tokens per block.
    pub block_size: u32,
}

} // verus!
