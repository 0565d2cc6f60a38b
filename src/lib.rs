//! Streaming log-analysis engine: record model, format projection, filter
//! priority rules, search matching and span annotation, and the in-memory
//! stores that hold raw, filtered and searched lines.
use vstd::prelude::*;

pub mod analysis_store;
pub mod color;
pub mod filter;
pub mod format;
pub mod log_line;
pub mod log_store;
pub mod pattern;
pub mod pipeline;
pub mod processing_store;
pub mod regex_cache;
pub mod search;
pub mod service;
pub mod styled;
pub mod text;

verus! {

} // verus!
