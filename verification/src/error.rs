//! Error types and process exit codes.
use vstd::prelude::*;

verus! {

/// Errors produced by the compute API.
#[derive(Debug, Clone, PartialEq)]
#[non_exhaustive]
pub enum AnalysisError {
    /// No grammar was found for any language detected in the repository.
    NoGrammarsAvailable,
    /// A node ID failed the canonicalization rules of `validate_node_id`.
    InvalidNodeId {
        /// The offending node ID string.
        id: String,
        /// Human-readable reason.
        reason: String,
    },
    /// A configuration value is invalid.
    InvalidConfig {
        /// Human-readable description of the problem.
        message: String,
    },
}

/// Errors that can occur during graph construction.
#[derive(Debug, Clone, Copy, PartialEq, Eq)]
pub enum GraphError {
    /// No source files were provided to the builder.
    Empty,
}

/// Exit codes of the `sdi` binary.  Adding a variant is a breaking change.
#[derive(Debug, Clone, Copy, PartialEq, Eq)]
pub enum ExitCode {
    /// Success (0).
    Success,
    /// Generic runtime error: I/O, parse, internal (1).
    RuntimeError,
    /// Configuration error (2).
    ConfigError,
    /// No language grammar available for any detected language (3).
    AnalysisError,
    /// `sdi check` only: at least one threshold was breached (10).
    ThresholdExceeded,
}

/// The numeric process exit code of each variant.
pub open spec fn exit_code_value(code: ExitCode) -> int {
    match code {
        ExitCode::Success => 0,
        ExitCode::RuntimeError => 1,
        ExitCode::ConfigError => 2,
        ExitCode::AnalysisError => 3,
        ExitCode::ThresholdExceeded => 10,
    }
}

impl ExitCode {
    /// Returns the numeric process exit code.
    pub fn as_i32(&self) -> (code: i32)
        ensures
            code == exit_code_value(*self),
    {
        match self {
            ExitCode::Success => 0,
            ExitCode::RuntimeError => 1,
            ExitCode::ConfigError => 2,
            ExitCode::AnalysisError => 3,
            ExitCode::ThresholdExceeded => 10,
        }
    }
}

/// Distinct variants have distinct exit codes; in particular code 10 is
/// reserved for a breached threshold.
pub proof fn lemma_exit_codes_distinct(a: ExitCode, b: ExitCode)
    ensures
        exit_code_value(a) == exit_code_value(b) <==> a == b,
{
}

} // verus!
