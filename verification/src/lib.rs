//! Verified core of an LLM benchmark runner: bench identifiers, model
//! selection, answer normalisation, evaluators, request batching and the
//! table layout of the score report.

pub mod bench_id;
pub mod text;
pub mod glob_pattern;
pub mod model;
pub mod cli;
pub mod evaluate;
pub mod composable;
pub mod filter;
pub mod batch;
pub mod order;
pub mod score;
pub mod aggregate;
pub mod table;
pub mod formatter;
pub mod details;
pub mod errors;
pub mod args;
