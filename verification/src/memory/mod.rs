//! Host memory.

pub mod page;

pub use page::{page_size, round_up_to_page};
