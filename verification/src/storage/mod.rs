//! The key-value side: an ordered byte store, and transactions over it.
pub mod engine;
pub mod isolation;
pub mod keycode;
pub mod memory;
pub mod mvcc;
pub mod order;
pub mod versions;
