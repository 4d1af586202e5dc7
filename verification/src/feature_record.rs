//! What the parsing stage extracts from one source file.
use vstd::prelude::*;

verus! {

/// A syntax node that the patterns stage looks at.
#[derive(Debug, Clone)]
pub struct PatternHint {
    /// Grammar node kind (e.g. `"try_expression"`).
    pub node_kind: String,
    /// Byte offset where the node starts.
    pub start_byte: usize,
    /// Byte offset just past the node's end.
    pub end_byte: usize,
    /// Zero-indexed row of the node's start.
    pub start_row: usize,
    /// Zero-indexed column of the node's start.
    pub start_col: usize,
    /// The node's source text, at most 256 bytes: cut at the last character
    /// boundary within that limit.
    pub text: String,
}

/// The features extracted from one source file.
#[derive(Debug, Clone)]
pub struct FeatureRecord {
    /// File path relative to the repository root.
    pub path: String,
    /// Language tag (e.g. `"rust"`).
    pub language: String,
    /// Import paths.
    pub imports: Vec<String>,
    /// Names of publicly exported items.
    pub exports: Vec<String>,
    /// Function signatures.
    pub signatures: Vec<String>,
    /// Nodes for the patterns stage.
    pub pattern_hints: Vec<PatternHint>,
}

} // verus!
