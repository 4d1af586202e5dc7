//! Input structs for the pure-compute API and node ID validation.
use vstd::prelude::*;
use crate::error::AnalysisError;
use crate::text::{chars_of, owned};

verus! {

/// A single node of a `DependencyGraphInput`; `id` must pass `validate_node_id`.
#[derive(Debug, Clone, PartialEq)]
pub struct NodeInput {
    /// Canonical node ID: repo-relative path, forward slashes.
    pub id: String,
    /// Human-readable path.
    pub path: String,
    /// Language tag (e.g. `"rust"`).
    pub language: String,
}

/// A directed edge between two nodes, by node ID.
#[derive(Debug, Clone, PartialEq)]
pub struct EdgeInput {
    /// Source node ID.
    pub source: String,
    /// Target node ID.
    pub target: String,
}

/// Input graph for the pure-compute functions.
#[derive(Debug, Clone, PartialEq)]
pub struct DependencyGraphInput {
    /// All nodes; their order gives the 0-based node indices.
    pub nodes: Vec<NodeInput>,
    /// All directed edges, by node ID.
    pub edges: Vec<EdgeInput>,
}

/// Location of a pattern instance within a source file.
#[derive(Debug, Clone, PartialEq)]
pub struct PatternLocationInput {
    /// Repo-relative file path.
    pub file: String,
    /// Zero-indexed source row.
    pub start_row: u32,
    /// Zero-indexed source column.
    pub start_col: u32,
}

/// A single pattern instance supplied by a foreign extractor.
#[derive(Debug, Clone, PartialEq)]
pub struct PatternInstanceInput {
    /// 64-char lowercase hex fingerprint string.
    pub fingerprint: String,
    /// Pattern category (e.g. `"error_handling"`).
    pub category: String,
    /// Node ID of the source file containing this instance.
    pub node_id: String,
    /// Source position, when known.
    pub location: Option<PatternLocationInput>,
}

/// Quality function selection for community detection.
#[derive(Debug, Clone, Copy, PartialEq, Eq)]
pub enum QualityFunctionInput {
    /// Newman–Girvan modularity.
    Modularity,
    /// Constant Potts Model.
    Cpm,
}

/// A prior partition snapshot for consecutive-snapshot stability scoring.
#[derive(Debug, Clone, PartialEq)]
pub struct PriorPartition {
    /// `(node ID, community ID)` for each node, ordered by node ID, each node
    /// ID once.
    pub cluster_assignments: Vec<(String, u32)>,
}

/// Each node ID occurs once among the `(node ID, community ID)` pairs `e`.
pub open spec fn ids_unique(e: Seq<(String, u32)>) -> bool {
    forall|i: int, j: int| 0 <= i < j < e.len() ==> (#[trigger] e[i]).0@ != (#[trigger] e[j]).0@
}

/// A node in a pattern syntax subtree.
#[derive(Debug)]
pub struct NormalizeNode {
    /// Syntax node kind.
    pub kind: String,
    /// Ordered children.
    pub children: Vec<NormalizeNode>,
}

/// A single boundary definition.
#[derive(Debug, Clone, PartialEq)]
pub struct BoundaryDefInput {
    /// Boundary name.
    pub name: String,
    /// Glob patterns for files in this boundary.
    pub modules: Vec<String>,
    /// Boundaries this one is allowed to import from.
    pub allow_imports_from: Vec<String>,
}

/// A boundary specification.
#[derive(Debug, Clone, PartialEq)]
pub struct BoundarySpecInput {
    /// Declared boundaries.
    pub boundaries: Vec<BoundaryDefInput>,
}

/// A single commit event for change-coupling analysis.
#[derive(Debug, Clone, PartialEq)]
pub struct CoChangeEventInput {
    /// Git commit SHA (hex string).
    pub commit_sha: String,
    /// ISO-8601 UTC commit date.
    pub commit_date: String,
    /// Canonical node IDs of files touched by this commit.
    pub files: Vec<String>,
}

/// Whether `s` has a `..` component (a `..` between separators or the ends).
pub open spec fn has_parent_component(s: Seq<char>) -> bool {
    exists|i: int|
        0 <= i && i + 2 <= s.len() && #[trigger] s[i] == '.' && s[i + 1] == '.' && (i == 0 || s[i
            - 1] == '/') && (i + 2 == s.len() || s[i + 2] == '/')
}

/// The first canonicalization rule that `s` breaks, as the reason reported,
/// or `None` when `s` is a valid node ID.
pub open spec fn node_id_violation(s: Seq<char>) -> Option<Seq<char>> {
    if s.len() == 0 {
        Some("must not be empty"@)
    } else if s.contains('\\') {
        Some("must use forward slashes only"@)
    } else if s.len() >= 2 && s[0] == '.' && s[1] == '/' {
        Some("must not start with './'"@)
    } else if s[s.len() - 1] == '/' {
        Some("must not end with '/'"@)
    } else if s[0] == '/' {
        Some("must not be an absolute path"@)
    } else if has_parent_component(s) {
        Some("must not contain '..' components"@)
    } else {
        None
    }
}

fn contains_char(c: &Vec<char>, x: char) -> (r: bool)
    ensures
        r == c@.contains(x),
{
    let mut i: usize = 0;
    while i < c.len()
        invariant
            0 <= i <= c.len(),
            forall|j: int| 0 <= j < i ==> c@[j] != x,
        decreases c.len() - i,
    {
        if c[i] == x {
            assert(c@[i as int] == x);
            return true;
        }
        i = i + 1;
    }
    false
}

fn find_parent_component(c: &Vec<char>) -> (r: bool)
    ensures
        r == has_parent_component(c@),
{
    let n = c.len();
    let mut i: usize = 0;
    while i < n && n - i >= 2
        invariant
            n == c.len(),
            0 <= i <= n,
            forall|j: int|
                0 <= j < i && j + 2 <= n ==> !(#[trigger] c@[j] == '.' && c@[j + 1] == '.' && (j
                    == 0 || c@[j - 1] == '/') && (j + 2 == n || c@[j + 2] == '/')),
        decreases n - i,
    {
        if c[i] == '.' && c[i + 1] == '.' && (i == 0 || c[i - 1] == '/') && (i + 2 == n || c[i
            + 2] == '/') {
            return true;
        }
        i = i + 1;
    }
    false
}

fn invalid(s: &str, reason: &str) -> (e: AnalysisError)
    ensures
        e == (AnalysisError::InvalidNodeId { id: e->id, reason: e->reason }),
        e->id@ == s@,
        e->reason@ == reason@,
{
    AnalysisError::InvalidNodeId { id: owned(s), reason: owned(reason) }
}

/// Validates a node ID: non-empty, forward slashes only, no leading `./`,
/// no trailing `/`, not absolute, no `..` components.
pub fn validate_node_id(s: &str) -> (r: Result<(), AnalysisError>)
    ensures
        r is Ok <==> node_id_violation(s@) is None,
        r matches Err(e) ==> (e matches AnalysisError::InvalidNodeId { id, reason } && id@ == s@
            && reason@ == node_id_violation(s@)->0),
{
    let c = chars_of(s);
    let n = c.len();
    if n == 0 {
        return Err(invalid(s, "must not be empty"));
    }
    if contains_char(&c, '\\') {
        return Err(invalid(s, "must use forward slashes only"));
    }
    if n >= 2 && c[0] == '.' && c[1] == '/' {
        return Err(invalid(s, "must not start with './'"));
    }
    if c[n - 1] == '/' {
        return Err(invalid(s, "must not end with '/'"));
    }
    if c[0] == '/' {
        return Err(invalid(s, "must not be an absolute path"));
    }
    if find_parent_component(&c) {
        return Err(invalid(s, "must not contain '..' components"));
    }
    Ok(())
}

} // verus!
