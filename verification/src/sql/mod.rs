//! The SQL front: parser, planner, executor and the engine contract.
pub mod codec;
pub mod engine;
pub mod executor;
pub mod guarantees;
pub mod parser;
pub mod plan;
pub mod schema;
pub mod types;
