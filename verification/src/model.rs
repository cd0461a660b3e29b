//! In-memory node and edge model for the atlas graph.
//!
//! The graph is read-only: no node carries a reference back to disk.
use vstd::prelude::*;
use crate::order::{keys_lt, lemma_keys_lt_pair, lemma_keys_lt_single, Keyed};
use crate::text::{chars_eq, chars_of, text_lt_exec};

verus! {

/// A vision node, derived from the dream manifest.
#[derive(Debug, Clone)]
pub struct VisionNode {
    /// Slug identifier (e.g. "atlas").
    pub slug: String,
    /// Path to the vision file.
    pub path: String,
    /// Vision status from the dream manifest (e.g. "active", "complete").
    pub status: String,
    /// PRD slugs this vision has drafted.
    pub prds_drafted: Vec<String>,
    /// Seed description from the dream manifest.
    pub seed: String,
}

/// A PRD node, derived from frontmatter + build manifest.
#[derive(Debug, Clone)]
pub struct PrdNode {
    /// PRD filename (e.g. "PRD-atlas-core.md").
    pub filename: String,
    /// PRD title from the H1 line.
    pub title: String,
    /// Vision slug this PRD belongs to (may be empty if not declared).
    pub vision: String,
    /// Build target declared in frontmatter (e.g. "rust-cli").
    pub build_target: String,
    /// Build-into path declared in frontmatter (may be empty).
    pub build_into: String,
    /// Derived status.
    pub status: PrdStatus,
    /// Repo URL if shipped (from build manifest).
    pub repo_url: String,
    /// Local repo path if shipped (from build manifest).
    pub repo_path: String,
}

/// Derived status for a PRD node.
#[derive(Debug, Clone, Copy, PartialEq, Eq, Structural)]
pub enum PrdStatus {
    /// No manifest entry or no action taken.
    Drafted,
    /// Manifest entry exists but not yet shipped.
    InFlight,
    /// `output_repo_path` in manifest is non-empty and exists on disk.
    Shipped,
}

/// The name a status is written with (`drafted`, `in_flight`, `shipped`).
pub open spec fn status_name(s: PrdStatus) -> Seq<char> {
    match s {
        PrdStatus::Drafted => "drafted"@,
        PrdStatus::InFlight => "in_flight"@,
        PrdStatus::Shipped => "shipped"@,
    }
}

impl PrdStatus {
    /// The name this status is written with.
    pub fn name(&self) -> (r: &'static str)
        ensures
            r@ == status_name(*self),
    {
        match self {
            PrdStatus::Drafted => "drafted",
            PrdStatus::InFlight => "in_flight",
            PrdStatus::Shipped => "shipped",
        }
    }

    /// The name this status is written with, as a `String`.
    pub fn to_string(&self) -> (r: String)
        ensures
            r@ == status_name(*self),
    {
        String::from_str(self.name())
    }

    /// Whether this status is `Shipped`.
    pub fn is_shipped(&self) -> (r: bool)
        ensures
            r == (*self == PrdStatus::Shipped),
    {
        match self {
            PrdStatus::Shipped => true,
            _ => false,
        }
    }
}

/// A repo node, derived from REPOS.md.
#[derive(Debug, Clone)]
pub struct RepoNode {
    /// Repository name (e.g. "atlas").
    pub name: String,
    /// GitHub URL for the repo (may be empty if not parsed).
    pub url: String,
    /// One-line description from REPOS.md.
    pub description: String,
}

/// Where a dependency edge was declared.
#[derive(Debug, Clone, Copy, PartialEq, Eq, Structural)]
pub enum EdgeKind {
    /// A `**Depends on:**` line in the dependent PRD (authoritative).
    Frontmatter,
    /// An `Order:` block in the gossip notes (best-effort).
    Gossip,
}

/// The name a kind is written with (`frontmatter`, `gossip`).
pub open spec fn kind_name(k: EdgeKind) -> Seq<char> {
    match k {
        EdgeKind::Frontmatter => "frontmatter"@,
        EdgeKind::Gossip => "gossip"@,
    }
}

impl EdgeKind {
    /// The name this kind is written with.
    pub fn name(&self) -> (r: &'static str)
        ensures
            r@ == kind_name(*self),
    {
        match self {
            EdgeKind::Frontmatter => "frontmatter",
            EdgeKind::Gossip => "gossip",
        }
    }
}

/// A dependency edge between two PRDs: `from` waits on `to`.
#[derive(Debug, Clone)]
pub struct Edge {
    /// Dependent PRD filename.
    pub from: String,
    /// Prerequisite PRD filename.
    pub to: String,
    /// Which source declared the edge.
    pub kind: EdgeKind,
    /// `file:line` provenance of the edge.
    pub source: String,
}

/// The texts of a sequence of strings.
pub open spec fn strings(v: Seq<String>) -> Seq<Seq<char>> {
    v.map_values(|s: String| s@)
}

/// A vision node as plain values: slug, path, status, drafted PRD slugs, seed.
pub open spec fn vision_view(v: VisionNode) -> (Seq<char>, Seq<char>, Seq<char>, Seq<Seq<char>>, Seq<char>) {
    (v.slug@, v.path@, v.status@, strings(v.prds_drafted@), v.seed@)
}

/// The sort key of a vision view: its slug.
pub open spec fn vision_key(v: (Seq<char>, Seq<char>, Seq<char>, Seq<Seq<char>>, Seq<char>)) -> Seq<Seq<char>> {
    seq![v.0]
}

/// A PRD node as plain values: filename, title, vision, build target,
/// build-into, status, repo URL, repo path.
pub open spec fn prd_view(p: PrdNode) -> (
    Seq<char>,
    Seq<char>,
    Seq<char>,
    Seq<char>,
    Seq<char>,
    PrdStatus,
    Seq<char>,
    Seq<char>,
) {
    (
        p.filename@,
        p.title@,
        p.vision@,
        p.build_target@,
        p.build_into@,
        p.status,
        p.repo_url@,
        p.repo_path@,
    )
}

/// The sort key of a PRD view: its filename.
pub open spec fn prd_key(
    p: (Seq<char>, Seq<char>, Seq<char>, Seq<char>, Seq<char>, PrdStatus, Seq<char>, Seq<char>),
) -> Seq<Seq<char>> {
    seq![p.0]
}

/// A repo node as plain values: name, URL, description.
pub open spec fn repo_view(r: RepoNode) -> (Seq<char>, Seq<char>, Seq<char>) {
    (r.name@, r.url@, r.description@)
}

/// An edge as plain values: from, to, kind, source.
pub open spec fn edge_view(e: Edge) -> (Seq<char>, Seq<char>, EdgeKind, Seq<char>) {
    (e.from@, e.to@, e.kind, e.source@)
}

impl Keyed for VisionNode {
    open spec fn key(&self) -> Seq<Seq<char>> {
        seq![self.slug@]
    }

    fn key_lt(&self, other: &Self) -> (r: bool) {
        proof {
            lemma_keys_lt_single(self.slug@, other.slug@);
        }
        let a = chars_of(self.slug.as_str());
        let b = chars_of(other.slug.as_str());
        text_lt_exec(&a, &b)
    }
}

impl Keyed for PrdNode {
    open spec fn key(&self) -> Seq<Seq<char>> {
        seq![self.filename@]
    }

    fn key_lt(&self, other: &Self) -> (r: bool) {
        proof {
            lemma_keys_lt_single(self.filename@, other.filename@);
        }
        let a = chars_of(self.filename.as_str());
        let b = chars_of(other.filename.as_str());
        text_lt_exec(&a, &b)
    }
}

impl Keyed for Edge {
    open spec fn key(&self) -> Seq<Seq<char>> {
        seq![self.from@, self.to@]
    }

    fn key_lt(&self, other: &Self) -> (r: bool) {
        proof {
            lemma_keys_lt_pair(self.from@, self.to@, other.from@, other.to@);
        }
        let a = chars_of(self.from.as_str());
        let b = chars_of(other.from.as_str());
        if chars_eq(&a, &b) {
            let c = chars_of(self.to.as_str());
            let d = chars_of(other.to.as_str());
            text_lt_exec(&c, &d)
        } else {
            text_lt_exec(&a, &b)
        }
    }
}

/// A copy of `e`.
pub fn copy_edge(e: &Edge) -> (r: Edge)
    ensures
        r == *e,
{
    Edge { from: e.from.clone(), to: e.to.clone(), kind: e.kind, source: e.source.clone() }
}

} // verus!
