//! Structural divergence indexing: the verified compute core.
//!
//! The crate measures how the structure of a codebase changes between
//! snapshots.  It holds the pure logic: input validation, pattern
//! fingerprints, the dependency graph and its metrics, the integer parts of
//! community detection, and warm-start handling.
pub mod fingerprint;
pub mod text;
pub mod error;
pub mod input;
pub mod mapseq;
pub mod partition;
pub mod warm_start;
pub mod leiden;
pub mod graph;
pub mod connectivity;
pub mod sort;
pub mod cycles;
pub mod path;
pub mod metrics;
pub mod coupling;
pub mod boundaries;
pub mod patterns;
pub mod history;
pub mod expiry;
pub mod adapter;
pub mod catalog;
pub mod syntax;
pub mod feature_record;
pub mod lang_rust;
pub mod rust_parse;
pub mod repository;
pub mod resolve;
