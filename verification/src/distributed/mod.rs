//! The distributed pipeline: its wire protocol and its workers.

pub mod bytes;
pub mod protocol;
pub mod wire_laws;
pub mod worker;
pub mod worker_laws;

pub use protocol::{read_message, write_message, Message};
pub use worker::Worker;
