//! A small relational database: SQL text is parsed, planned and executed
//! against a transactional key-value store with snapshot isolation.
pub mod error;
pub mod sql;
pub mod storage;
