//! Shared argument types for the CLI commands.
use vstd::prelude::*;

verus! {

/// Node kind filter for `atlas nodes`.
#[derive(Clone, Copy, Debug, PartialEq, Eq, Structural)]
pub enum NodeKindArg {
    /// Vision nodes from the dream manifest.
    Vision,
    /// PRD nodes from the autobuilder directory.
    Prd,
    /// Repo nodes from REPOS.md.
    Repo,
}

/// Output format.
#[derive(Clone, Copy, Debug, PartialEq, Eq, Structural)]
pub enum FormatArg {
    /// Human-readable text (one node per line).
    Text,
    /// Machine-readable JSON.
    Json,
}

} // verus!
