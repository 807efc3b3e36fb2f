//! What a model is: its shape and its precision.

pub mod config;
pub mod config_laws;

pub use config::{ModelConfig, PackedQuant, QuantScheme};
