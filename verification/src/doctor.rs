//! `atlas doctor` — read-only corpus divergence lint.
//!
//! Reports five classes of divergence that are invisible to manual inspection
//! across a large corpus. **Never writes to any file.**
//!
//! | class                | severity | definition                                                  |
//! |----------------------|----------|-------------------------------------------------------------|
//! | `prd_no_vision`      | warn     | PRD whose `Vision:` is empty or names a missing vision doc  |
//! | `vision_no_prd`      | info     | vision with empty `prds_drafted` and no PRD pointing at it |
//! | `repo_no_prd`        | warn     | REPOS.md entry with no PRD mapping to it                   |
//! | `shipped_repo_gone`  | warn     | manifest-shipped PRD whose `output_repo_path` does not exist |
//! | `fulfilled_unmarked` | info     | vision marked `active` whose every drafted PRD is shipped  |
//!
//! Exit codes: `0` no findings, `1` only info-level findings, `2` any warn-level finding.
use vstd::prelude::*;
use crate::graph::{find_prd, find_prd_index, vision_known, find_vision_index, Graph};
use crate::model::{PrdNode, PrdStatus, RepoNode, VisionNode};
use crate::order::{lemma_filter_map_forall, lemma_filter_map_keeps, lemma_filter_map_step};
use crate::paths::{file_name, file_name_chars};
use crate::text::{
    chars_eq, chars_of, concat_map, contains, contains_chars, decimal, decimal_chars,
    eq_ignore_ascii_case, eq_ignore_case, lemma_concat_map_all, lemma_concat_map_empty,
    lemma_concat_map_step, push_chars, push_str, spec_to_lowercase, starts_with,
    starts_with_chars, string_of, strip_prefix, strip_prefix_chars, strip_suffix,
    strip_suffix_chars, to_lowercase,
};

verus! {

// ── Finding types ─────────────────────────────────────────────────────────────

/// Severity level for a finding.
#[derive(Debug, Clone, Copy, PartialEq, Eq, PartialOrd, Ord, Structural)]
pub enum Severity {
    /// Advisory: worth fixing but not urgent.
    Info,
    /// Should be investigated: indicates drift.
    Warn,
}

/// The name a severity is written with (`info`, `warn`).
pub open spec fn severity_name(s: Severity) -> Seq<char> {
    match s {
        Severity::Info => "info"@,
        Severity::Warn => "warn"@,
    }
}

impl Severity {
    /// The name this severity is written with (`info`, `warn`).
    pub fn name(&self) -> (r: &'static str)
        ensures
            r@ == severity_name(*self),
    {
        match self {
            Severity::Info => "info",
            Severity::Warn => "warn",
        }
    }
}

/// A divergence class.
#[derive(Debug, Clone, Copy, PartialEq, Eq, Structural)]
pub enum FindingClass {
    /// PRD's `Vision:` field is empty or names a non-existent vision.
    PrdNoVision,
    /// Vision has no PRDs drafted and no PRD points at it.
    VisionNoPrd,
    /// REPOS.md entry has no originating PRD.
    RepoNoPrd,
    /// Build manifest records a repo path for a PRD but that path is gone.
    ShippedRepoGone,
    /// Vision is `active` but all its drafted PRDs are shipped.
    FulfilledUnmarked,
}

/// The name a class is written with (`prd_no_vision`, …).
pub open spec fn class_name(c: FindingClass) -> Seq<char> {
    match c {
        FindingClass::PrdNoVision => "prd_no_vision"@,
        FindingClass::VisionNoPrd => "vision_no_prd"@,
        FindingClass::RepoNoPrd => "repo_no_prd"@,
        FindingClass::ShippedRepoGone => "shipped_repo_gone"@,
        FindingClass::FulfilledUnmarked => "fulfilled_unmarked"@,
    }
}

/// Warn for `prd_no_vision`, `repo_no_prd`, `shipped_repo_gone`; info otherwise.
pub open spec fn class_severity(c: FindingClass) -> Severity {
    match c {
        FindingClass::PrdNoVision | FindingClass::RepoNoPrd | FindingClass::ShippedRepoGone => {
            Severity::Warn
        },
        FindingClass::VisionNoPrd | FindingClass::FulfilledUnmarked => Severity::Info,
    }
}

impl FindingClass {
    /// Severity for this class.
    pub fn severity(&self) -> (r: Severity)
        ensures
            r == class_severity(*self),
    {
        match self {
            FindingClass::PrdNoVision | FindingClass::RepoNoPrd | FindingClass::ShippedRepoGone => {
                Severity::Warn
            },
            FindingClass::VisionNoPrd | FindingClass::FulfilledUnmarked => Severity::Info,
        }
    }

    /// The name this class is written with (e.g. `prd_no_vision`).
    pub fn name(&self) -> (r: &'static str)
        ensures
            r@ == class_name(*self),
    {
        match self {
            FindingClass::PrdNoVision => "prd_no_vision",
            FindingClass::VisionNoPrd => "vision_no_prd",
            FindingClass::RepoNoPrd => "repo_no_prd",
            FindingClass::ShippedRepoGone => "shipped_repo_gone",
            FindingClass::FulfilledUnmarked => "fulfilled_unmarked",
        }
    }
}

/// A single divergence finding.
#[derive(Debug, Clone)]
pub struct Finding {
    /// Divergence class.
    pub class: FindingClass,
    /// Offending node identifier (filename, slug, or repo name).
    pub node: String,
    /// One-line human-readable description.
    pub detail: String,
    /// Source file where the offending entry was found.
    pub source: String,
}

impl Finding {
    /// Severity (derived from class).
    pub fn severity(&self) -> (r: Severity)
        ensures
            r == class_severity(self.class),
    {
        self.class.severity()
    }
}

/// What a finding holds: its class, node, detail and source texts.
pub open spec fn fview(f: Finding) -> (FindingClass, Seq<char>, Seq<char>, Seq<char>) {
    (f.class, f.node@, f.detail@, f.source@)
}

/// Findings as plain values.
pub open spec fn fviews(fs: Seq<Finding>) -> Seq<(FindingClass, Seq<char>, Seq<char>, Seq<char>)> {
    fs.map_values(|f: Finding| fview(f))
}

/// Filter for which class to report.
#[derive(Debug, Clone, Copy, PartialEq, Eq, Structural)]
pub enum ClassFilter {
    /// Report all classes.
    All,
    /// Report only this class.
    Only(FindingClass),
}

/// Whether the filter admits findings of class `c`.
pub open spec fn filter_admits(filter: ClassFilter, c: FindingClass) -> bool {
    match filter {
        ClassFilter::All => true,
        ClassFilter::Only(k) => k == c,
    }
}

fn make_finding(class: FindingClass, node: &Vec<char>, detail: &Vec<char>, source: &Vec<char>) -> (r:
    Finding)
    ensures
        fview(r) == (class, node@, detail@, source@),
{
    Finding { class, node: string_of(node), detail: string_of(detail), source: string_of(source) }
}

// ── prd_no_vision ─────────────────────────────────────────────────────────────

/// The `prd_no_vision` finding for `p`, if its vision is empty or names no
/// vision of the graph.
pub open spec fn prd_no_vision_of(g: &Graph, p: PrdNode) -> Option<
    (FindingClass, Seq<char>, Seq<char>, Seq<char>),
> {
    if p.vision@.len() == 0 {
        Some(
            (FindingClass::PrdNoVision, p.filename@, "PRD has no Vision: field"@, p.filename@),
        )
    } else if !vision_known(g, p.vision@) {
        Some(
            (
                FindingClass::PrdNoVision,
                p.filename@,
                "Vision: '"@ + p.vision@ + "' not found in dream manifest"@,
                p.filename@,
            ),
        )
    } else {
        None
    }
}

/// Class `prd_no_vision`: PRDs whose `vision` field is empty or names a vision
/// that does not exist in the graph, in PRD order.
pub fn check_prd_no_vision(graph: &Graph) -> (r: Vec<Finding>)
    ensures
        fviews(r@) == graph.prds@.filter_map(|p: PrdNode| prd_no_vision_of(graph, p)),
{
    let g = graph;
    let ghost f = |p: PrdNode| prd_no_vision_of(g, p);
    let mut out: Vec<Finding> = Vec::new();
    let mut i: usize = 0;
    while i < g.prds.len()
        invariant
            f == (|p: PrdNode| prd_no_vision_of(g, p)),
            i <= g.prds@.len(),
            fviews(out@) == g.prds@.take(i as int).filter_map(f),
        decreases g.prds@.len() - i,
    {
        proof {
            lemma_filter_map_step(g.prds@, f, i as int);
        }
        let p = &g.prds[i];
        let name = chars_of(p.filename.as_str());
        let vis = chars_of(p.vision.as_str());
        let ghost before = out@;
        if vis.len() == 0 {
            let d = chars_of("PRD has no Vision: field");
            out.push(make_finding(FindingClass::PrdNoVision, &name, &d, &name));
            assert(fviews(out@) =~= fviews(before).push(prd_no_vision_of(g, *p).unwrap()));
        } else if find_vision_index(g, &vis).is_none() {
            let mut d: Vec<char> = Vec::new();
            push_str(&mut d, "Vision: '");
            push_chars(&mut d, &vis);
            push_str(&mut d, "' not found in dream manifest");
            out.push(make_finding(FindingClass::PrdNoVision, &name, &d, &name));
            assert(fviews(out@) =~= fviews(before).push(prd_no_vision_of(g, *p).unwrap()));
        }
        i = i + 1;
    }
    assert(g.prds@.take(g.prds@.len() as int) =~= g.prds@);
    out
}

// ── vision_no_prd ─────────────────────────────────────────────────────────────

/// Whether some PRD with a non-empty vision names the slug `s`.
pub open spec fn slug_referenced(g: &Graph, s: Seq<char>) -> bool {
    exists|i: int| 0 <= i < g.prds@.len() && #[trigger] g.prds@[i].vision@ == s && s.len() > 0
}

/// The `vision_no_prd` finding for `v`, if it has drafted no PRD and no PRD names it.
pub open spec fn vision_no_prd_of(g: &Graph, v: VisionNode) -> Option<
    (FindingClass, Seq<char>, Seq<char>, Seq<char>),
> {
    if v.prds_drafted@.len() == 0 && !slug_referenced(g, v.slug@) {
        Some(
            (
                FindingClass::VisionNoPrd,
                v.slug@,
                "vision has no drafted PRDs and no PRD references it"@,
                v.path@,
            ),
        )
    } else {
        None
    }
}

fn slug_referenced_exec(g: &Graph, s: &Vec<char>) -> (r: bool)
    ensures
        r == slug_referenced(g, s@),
{
    if s.len() == 0 {
        return false;
    }
    let mut i: usize = 0;
    while i < g.prds.len()
        invariant
            s@.len() > 0,
            i <= g.prds@.len(),
            forall|j: int| 0 <= j < i ==> #[trigger] g.prds@[j].vision@ != s@,
        decreases g.prds@.len() - i,
    {
        let v = chars_of(g.prds[i].vision.as_str());
        if chars_eq(&v, s) {
            return true;
        }
        i = i + 1;
    }
    false
}

/// Class `vision_no_prd`: visions that have an empty `prds_drafted` list AND
/// no PRD in the graph has its `vision` field pointing at that slug.
pub fn check_vision_no_prd(graph: &Graph) -> (r: Vec<Finding>)
    ensures
        fviews(r@) == graph.visions@.filter_map(|v: VisionNode| vision_no_prd_of(graph, v)),
{
    let g = graph;
    let ghost f = |v: VisionNode| vision_no_prd_of(g, v);
    let mut out: Vec<Finding> = Vec::new();
    let mut i: usize = 0;
    while i < g.visions.len()
        invariant
            f == (|v: VisionNode| vision_no_prd_of(g, v)),
            i <= g.visions@.len(),
            fviews(out@) == g.visions@.take(i as int).filter_map(f),
        decreases g.visions@.len() - i,
    {
        proof {
            lemma_filter_map_step(g.visions@, f, i as int);
        }
        let v = &g.visions[i];
        let slug = chars_of(v.slug.as_str());
        if v.prds_drafted.len() == 0 && !slug_referenced_exec(g, &slug) {
            let d = chars_of("vision has no drafted PRDs and no PRD references it");
            let src = chars_of(v.path.as_str());
            let ghost before = out@;
            out.push(make_finding(FindingClass::VisionNoPrd, &slug, &d, &src));
            assert(fviews(out@) =~= fviews(before).push(vision_no_prd_of(g, *v).unwrap()));
        }
        i = i + 1;
    }
    assert(g.visions@.take(g.visions@.len() as int) =~= g.visions@);
    out
}

// ── repo_no_prd ───────────────────────────────────────────────────────────────

/// The slug of a PRD filename: the text between `PRD-` and `.md`, or empty.
pub open spec fn prd_slug_of(f: Seq<char>) -> Seq<char> {
    match strip_prefix(f, "PRD-"@) {
        Some(rest) => match strip_suffix(rest, ".md"@) {
            Some(core) => core,
            None => Seq::empty(),
        },
        None => Seq::empty(),
    }
}

/// The final component of a path, or empty when it has none.
pub open spec fn base_or_empty(p: Seq<char>) -> Seq<char> {
    match file_name(p) {
        Some(b) => b,
        None => Seq::empty(),
    }
}

/// Whether a repo entry plausibly originates from a given PRD, given the
/// lower-cased repo name `lower` and lower-cased PRD title `title`: `lower`
/// occurs in `title` or in the PRD's slug, or the repo name equals (ignoring
/// ASCII case) the final component of the PRD's `build_into` or shipped
/// `repo_path`.
pub open spec fn repo_matches_lowered(lower: Seq<char>, title: Seq<char>, repo: RepoNode, prd: PrdNode) -> bool {
    let slug = prd_slug_of(prd.filename@);
    ||| contains(title, lower)
    ||| starts_with(slug, lower)
    ||| contains(slug, lower)
    ||| (prd.build_into@.len() > 0 && eq_ignore_ascii_case(base_or_empty(prd.build_into@), repo.name@))
    ||| (prd.repo_path@.len() > 0 && eq_ignore_ascii_case(base_or_empty(prd.repo_path@), repo.name@))
}

/// Whether a repo entry plausibly originates from a given PRD: the test of
/// `repo_matches_lowered` on the lower-cased repo name and PRD title.
pub open spec fn repo_matches(repo: RepoNode, prd: PrdNode) -> bool {
    repo_matches_lowered(spec_to_lowercase(repo.name@), spec_to_lowercase(prd.title@), repo, prd)
}

fn base_or_empty_exec(p: &Vec<char>) -> (r: Vec<char>)
    ensures
        r@ == base_or_empty(p@),
{
    match file_name_chars(p) {
        Some(b) => b,
        None => Vec::new(),
    }
}

/// Determine whether a repo entry plausibly originates from a given PRD.
pub fn repo_matches_prd(repo: &RepoNode, prd: &PrdNode) -> (r: bool)
    ensures
        r == repo_matches(*repo, *prd),
{
    let lower = to_lowercase(repo.name.as_str());
    let title = to_lowercase(prd.title.as_str());
    repo_matches_names(lower.as_str(), title.as_str(), repo, prd)
}

/// The match test of a repo and a PRD, given the repo's lower-cased name
/// `repo_lower` and the PRD's lower-cased title `title_lower`.
pub fn repo_matches_names(repo_lower: &str, title_lower: &str, repo: &RepoNode, prd: &PrdNode) -> (r: bool)
    ensures
        r == repo_matches_lowered(repo_lower@, title_lower@, *repo, *prd),
{
    let lower = chars_of(repo_lower);
    let title = chars_of(title_lower);
    // 1. Repo name is a substring of the PRD title.
    if contains_chars(&title, &lower) {
        return true;
    }
    // Also check in the PRD filename slug (PRD-atlas-core → "atlas-core" ~ "atlas").
    let fname = chars_of(prd.filename.as_str());
    let pre = chars_of("PRD-");
    let suf = chars_of(".md");
    let slug: Vec<char> = match strip_prefix_chars(&fname, &pre) {
        Some(rest) => match strip_suffix_chars(&rest, &suf) {
            Some(core) => core,
            None => Vec::new(),
        },
        None => Vec::new(),
    };
    assert(slug@ == prd_slug_of(prd.filename@));
    if starts_with_chars(&slug, &lower) || contains_chars(&slug, &lower) {
        return true;
    }
    let name = chars_of(repo.name.as_str());
    // 2. PRD's build_into basename.
    let into = chars_of(prd.build_into.as_str());
    if into.len() > 0 {
        let base = base_or_empty_exec(&into);
        if eq_ignore_case(&base, &name) {
            return true;
        }
    }
    // 3. PRD's shipped repo_path basename.
    let rp = chars_of(prd.repo_path.as_str());
    if rp.len() > 0 {
        let base = base_or_empty_exec(&rp);
        if eq_ignore_case(&base, &name) {
            return true;
        }
    }
    false
}

/// The `repo_no_prd` finding for `repo`, if no PRD of the graph matches it.
pub open spec fn repo_no_prd_of(g: &Graph, repo: RepoNode) -> Option<
    (FindingClass, Seq<char>, Seq<char>, Seq<char>),
> {
    if exists|i: int| 0 <= i < g.prds@.len() && repo_matches(repo, #[trigger] g.prds@[i]) {
        None
    } else {
        Some(
            (
                FindingClass::RepoNoPrd,
                repo.name@,
                "repo '"@ + repo.name@ + "' has no originating PRD (no PRD title/path maps to it)"@,
                "REPOS.md"@,
            ),
        )
    }
}

/// Class `repo_no_prd`: repos in REPOS.md whose name does not match any PRD's
/// title, slug, `build_into` basename, or `output_repo_path` basename.
pub fn check_repo_no_prd(graph: &Graph) -> (r: Vec<Finding>)
    ensures
        fviews(r@) == graph.repos@.filter_map(|x: RepoNode| repo_no_prd_of(graph, x)),
{
    let g = graph;
    let ghost f = |x: RepoNode| repo_no_prd_of(g, x);
    let mut out: Vec<Finding> = Vec::new();
    let mut i: usize = 0;
    while i < g.repos.len()
        invariant
            f == (|x: RepoNode| repo_no_prd_of(g, x)),
            i <= g.repos@.len(),
            fviews(out@) == g.repos@.take(i as int).filter_map(f),
        decreases g.repos@.len() - i,
    {
        proof {
            lemma_filter_map_step(g.repos@, f, i as int);
        }
        let repo = &g.repos[i];
        let mut matched = false;
        let mut j: usize = 0;
        while j < g.prds.len()
            invariant
                j <= g.prds@.len(),
                matched == exists|k: int| 0 <= k < j && repo_matches(*repo, #[trigger] g.prds@[k]),
            decreases g.prds@.len() - j,
        {
            if repo_matches_prd(repo, &g.prds[j]) {
                matched = true;
            }
            assert(matched == exists|k: int| 0 <= k < j + 1 && repo_matches(*repo, #[trigger] g.prds@[k]));
            j = j + 1;
        }
        if !matched {
            let name = chars_of(repo.name.as_str());
            let mut d: Vec<char> = Vec::new();
            push_str(&mut d, "repo '");
            push_chars(&mut d, &name);
            push_str(&mut d, "' has no originating PRD (no PRD title/path maps to it)");
            let src = chars_of("REPOS.md");
            let ghost before = out@;
            out.push(make_finding(FindingClass::RepoNoPrd, &name, &d, &src));
            assert(fviews(out@) =~= fviews(before).push(repo_no_prd_of(g, *repo).unwrap()));
        }
        i = i + 1;
    }
    assert(g.repos@.take(g.repos@.len() as int) =~= g.repos@);
    out
}

// ── shipped_repo_gone ─────────────────────────────────────────────────────────

/// The `shipped_repo_gone` finding for `p`, if it records a repo path but did
/// not derive `Shipped` (its path is not on disk).
pub open spec fn shipped_repo_gone_of(p: PrdNode) -> Option<
    (FindingClass, Seq<char>, Seq<char>, Seq<char>),
> {
    if p.repo_path@.len() == 0 || p.status == PrdStatus::Shipped {
        None
    } else {
        Some(
            (
                FindingClass::ShippedRepoGone,
                p.filename@,
                "output_repo_path '"@ + p.repo_path@ + "' does not exist on disk"@,
                p.filename@,
            ),
        )
    }
}

/// Class `shipped_repo_gone`: PRDs with a non-empty `output_repo_path` whose
/// status is not `Shipped` (the path is absent on disk).
pub fn check_shipped_repo_gone(graph: &Graph) -> (r: Vec<Finding>)
    ensures
        fviews(r@) == graph.prds@.filter_map(|p: PrdNode| shipped_repo_gone_of(p)),
{
    let g = graph;
    let ghost f = |p: PrdNode| shipped_repo_gone_of(p);
    let mut out: Vec<Finding> = Vec::new();
    let mut i: usize = 0;
    while i < g.prds.len()
        invariant
            f == (|p: PrdNode| shipped_repo_gone_of(p)),
            i <= g.prds@.len(),
            fviews(out@) == g.prds@.take(i as int).filter_map(f),
        decreases g.prds@.len() - i,
    {
        proof {
            lemma_filter_map_step(g.prds@, f, i as int);
        }
        let p = &g.prds[i];
        let rp = chars_of(p.repo_path.as_str());
        if rp.len() > 0 && !p.status.is_shipped() {
            let name = chars_of(p.filename.as_str());
            let mut d: Vec<char> = Vec::new();
            push_str(&mut d, "output_repo_path '");
            push_chars(&mut d, &rp);
            push_str(&mut d, "' does not exist on disk");
            let ghost before = out@;
            out.push(make_finding(FindingClass::ShippedRepoGone, &name, &d, &name));
            assert(fviews(out@) =~= fviews(before).push(shipped_repo_gone_of(*p).unwrap()));
        }
        i = i + 1;
    }
    assert(g.prds@.take(g.prds@.len() as int) =~= g.prds@);
    out
}

// ── fulfilled_unmarked ────────────────────────────────────────────────────────

/// Whether the PRD `PRD-<slug>.md` exists and derived `Shipped`.
pub open spec fn drafted_shipped(g: &Graph, slug: Seq<char>) -> bool {
    match find_prd(g, "PRD-"@ + slug + ".md"@) {
        Some(p) => p.status == PrdStatus::Shipped,
        None => false,
    }
}

/// The `fulfilled_unmarked` finding for `v`, if it is `active`, has drafted at
/// least one PRD, and every drafted PRD is shipped.
pub open spec fn fulfilled_unmarked_of(g: &Graph, v: VisionNode) -> Option<
    (FindingClass, Seq<char>, Seq<char>, Seq<char>),
> {
    if v.status@ == "active"@ && v.prds_drafted@.len() > 0 && forall|j: int|
        0 <= j < v.prds_drafted@.len() ==> drafted_shipped(g, #[trigger] v.prds_drafted@[j]@) {
        Some(
            (
                FindingClass::FulfilledUnmarked,
                v.slug@,
                "vision '"@ + v.slug@ + "' is active but all "@ + decimal(
                    v.prds_drafted@.len(),
                ) + " drafted PRDs are shipped"@,
                v.path@,
            ),
        )
    } else {
        None
    }
}

fn drafted_shipped_exec(g: &Graph, slug: &String) -> (r: bool)
    ensures
        r == drafted_shipped(g, slug@),
{
    let mut name: Vec<char> = Vec::new();
    push_str(&mut name, "PRD-");
    let s = chars_of(slug.as_str());
    push_chars(&mut name, &s);
    push_str(&mut name, ".md");
    assert(name@ =~= "PRD-"@ + slug@ + ".md"@);
    match find_prd_index(g, &name) {
        Some(k) => g.prds[k].status.is_shipped(),
        None => false,
    }
}

/// Class `fulfilled_unmarked`: visions marked `active` in the dream manifest
/// whose every PRD listed in `prds_drafted` derives status `Shipped`.
pub fn check_fulfilled_unmarked(graph: &Graph) -> (r: Vec<Finding>)
    ensures
        fviews(r@) == graph.visions@.filter_map(|v: VisionNode| fulfilled_unmarked_of(graph, v)),
{
    let g = graph;
    let ghost f = |v: VisionNode| fulfilled_unmarked_of(g, v);
    let mut out: Vec<Finding> = Vec::new();
    let mut i: usize = 0;
    while i < g.visions.len()
        invariant
            f == (|v: VisionNode| fulfilled_unmarked_of(g, v)),
            i <= g.visions@.len(),
            fviews(out@) == g.visions@.take(i as int).filter_map(f),
        decreases g.visions@.len() - i,
    {
        proof {
            lemma_filter_map_step(g.visions@, f, i as int);
        }
        let v = &g.visions[i];
        let st = chars_of(v.status.as_str());
        let act = chars_of("active");
        let n = v.prds_drafted.len();
        if chars_eq(&st, &act) && n > 0 {
            let mut all = true;
            let mut j: usize = 0;
            while j < n
                invariant
                    n == v.prds_drafted@.len(),
                    j <= n,
                    all == forall|k: int| 0 <= k < j ==> drafted_shipped(g, #[trigger] v.prds_drafted@[k]@),
                decreases n - j,
            {
                if !drafted_shipped_exec(g, &v.prds_drafted[j]) {
                    all = false;
                }
                assert(all == forall|k: int| 0 <= k < j + 1 ==> drafted_shipped(g, #[trigger] v.prds_drafted@[k]@));
                j = j + 1;
            }
            if all {
                let slug = chars_of(v.slug.as_str());
                let mut d: Vec<char> = Vec::new();
                push_str(&mut d, "vision '");
                push_chars(&mut d, &slug);
                push_str(&mut d, "' is active but all ");
                let num = decimal_chars(n);
                push_chars(&mut d, &num);
                push_str(&mut d, " drafted PRDs are shipped");
                let src = chars_of(v.path.as_str());
                let ghost before = out@;
                out.push(make_finding(FindingClass::FulfilledUnmarked, &slug, &d, &src));
                assert(fviews(out@) =~= fviews(before).push(fulfilled_unmarked_of(g, *v).unwrap()));
            }
        }
        i = i + 1;
    }
    assert(g.visions@.take(g.visions@.len() as int) =~= g.visions@);
    out
}

// ── Runner ────────────────────────────────────────────────────────────────────

/// The `prd_no_vision` findings of the graph, in PRD order.
pub open spec fn prd_no_vision_views(g: &Graph) -> Seq<(FindingClass, Seq<char>, Seq<char>, Seq<char>)> {
    g.prds@.filter_map(|p: PrdNode| prd_no_vision_of(g, p))
}

/// The `vision_no_prd` findings of the graph, in vision order.
pub open spec fn vision_no_prd_views(g: &Graph) -> Seq<(FindingClass, Seq<char>, Seq<char>, Seq<char>)> {
    g.visions@.filter_map(|v: VisionNode| vision_no_prd_of(g, v))
}

/// The `repo_no_prd` findings of the graph, in repo order.
pub open spec fn repo_no_prd_views(g: &Graph) -> Seq<(FindingClass, Seq<char>, Seq<char>, Seq<char>)> {
    g.repos@.filter_map(|x: RepoNode| repo_no_prd_of(g, x))
}

/// The `shipped_repo_gone` findings of the graph, in PRD order.
pub open spec fn shipped_repo_gone_views(g: &Graph) -> Seq<(FindingClass, Seq<char>, Seq<char>, Seq<char>)> {
    g.prds@.filter_map(|p: PrdNode| shipped_repo_gone_of(p))
}

/// The `fulfilled_unmarked` findings of the graph, in vision order.
pub open spec fn fulfilled_unmarked_views(g: &Graph) -> Seq<(FindingClass, Seq<char>, Seq<char>, Seq<char>)> {
    g.visions@.filter_map(|v: VisionNode| fulfilled_unmarked_of(g, v))
}

/// `s` when `b` holds, else nothing.
pub open spec fn when(b: bool, s: Seq<(FindingClass, Seq<char>, Seq<char>, Seq<char>)>) -> Seq<
    (FindingClass, Seq<char>, Seq<char>, Seq<char>),
> {
    if b {
        s
    } else {
        Seq::empty()
    }
}

/// The findings of every class the filter admits, class by class in the order
/// `prd_no_vision`, `vision_no_prd`, `repo_no_prd`, `shipped_repo_gone`,
/// `fulfilled_unmarked`.
pub open spec fn doctor_views(g: &Graph, filter: ClassFilter) -> Seq<
    (FindingClass, Seq<char>, Seq<char>, Seq<char>),
> {
    when(filter_admits(filter, FindingClass::PrdNoVision), prd_no_vision_views(g))
        + when(filter_admits(filter, FindingClass::VisionNoPrd), vision_no_prd_views(g))
        + when(filter_admits(filter, FindingClass::RepoNoPrd), repo_no_prd_views(g))
        + when(filter_admits(filter, FindingClass::ShippedRepoGone), shipped_repo_gone_views(g))
        + when(filter_admits(filter, FindingClass::FulfilledUnmarked), fulfilled_unmarked_views(g))
}

fn admits(filter: &ClassFilter, c: FindingClass) -> (r: bool)
    ensures
        r == filter_admits(*filter, c),
{
    match filter {
        ClassFilter::All => true,
        ClassFilter::Only(k) => *k == c,
    }
}

fn extend_findings(out: &mut Vec<Finding>, more: Vec<Finding>)
    ensures
        fviews(final(out)@) == fviews(old(out)@) + fviews(more@),
{
    let mut more = more;
    let ghost m = more@;
    out.append(&mut more);
    assert(fviews(out@) =~= fviews(old(out)@) + fviews(m));
}

/// Run the doctor lint over `graph` and return all findings the filter admits.
///
/// The function is pure: it never writes any file.
pub fn run(graph: &Graph, filter: &ClassFilter) -> (r: Vec<Finding>)
    ensures
        fviews(r@) == doctor_views(graph, *filter),
{
    let mut findings: Vec<Finding> = Vec::new();
    if admits(filter, FindingClass::PrdNoVision) {
        extend_findings(&mut findings, check_prd_no_vision(graph));
    }
    let ghost s1 = fviews(findings@);
    if admits(filter, FindingClass::VisionNoPrd) {
        extend_findings(&mut findings, check_vision_no_prd(graph));
    }
    let ghost s2 = fviews(findings@);
    if admits(filter, FindingClass::RepoNoPrd) {
        extend_findings(&mut findings, check_repo_no_prd(graph));
    }
    let ghost s3 = fviews(findings@);
    if admits(filter, FindingClass::ShippedRepoGone) {
        extend_findings(&mut findings, check_shipped_repo_gone(graph));
    }
    let ghost s4 = fviews(findings@);
    if admits(filter, FindingClass::FulfilledUnmarked) {
        extend_findings(&mut findings, check_fulfilled_unmarked(graph));
    }
    assert(fviews(findings@) =~= doctor_views(graph, *filter));
    findings
}

/// The exit code for a set of findings: `0` when there are none, `2` when any
/// is warn-level, `1` otherwise.
pub open spec fn exit_code_of(fs: Seq<Finding>) -> i32 {
    if fs.len() == 0 {
        0
    } else if exists|i: int| 0 <= i < fs.len() && class_severity(#[trigger] fs[i].class) == Severity::Warn {
        2
    } else {
        1
    }
}

/// Compute the exit code from a set of findings.
pub fn exit_code(findings: &[Finding]) -> (r: i32)
    ensures
        r == exit_code_of(findings@),
{
    if findings.len() == 0 {
        return 0;
    }
    let mut i: usize = 0;
    while i < findings.len()
        invariant
            i <= findings@.len(),
            forall|j: int| 0 <= j < i ==> class_severity(#[trigger] findings@[j].class) != Severity::Warn,
        decreases findings@.len() - i,
    {
        if findings[i].severity() == Severity::Warn {
            return 2;
        }
        i = i + 1;
    }
    1
}

// ── Output helpers ────────────────────────────────────────────────────────────

/// The report line of one finding.
pub open spec fn finding_line(f: Finding) -> Seq<char> {
    severity_name(class_severity(f.class)) + "  "@ + class_name(f.class) + "  "@ + f.node@ + "  "@
        + f.detail@ + "  (source: "@ + f.source@ + ")\n"@
}

/// The text report of a set of findings: a clean-bill line when there are
/// none, else one line per finding.
pub open spec fn report_text(fs: Seq<Finding>) -> Seq<char> {
    if fs.len() == 0 {
        "atlas doctor: no divergences found \u{2014} corpus is clean\n"@
    } else {
        concat_map(fs, |f: Finding| finding_line(f))
    }
}

/// Render findings as human-readable text.
///
/// When there are no findings, gives a clean-bill line.
pub fn render_text(findings: &[Finding]) -> (r: String)
    ensures
        r@ == report_text(findings@),
{
    let mut out: Vec<char> = Vec::new();
    if findings.len() == 0 {
        push_str(&mut out, "atlas doctor: no divergences found \u{2014} corpus is clean\n");
        return string_of(&out);
    }
    let ghost fl = |f: Finding| finding_line(f);
    proof {
        lemma_concat_map_empty(findings@, fl);
    }
    let mut i: usize = 0;
    while i < findings.len()
        invariant
            fl == (|f: Finding| finding_line(f)),
            i <= findings@.len(),
            out@ == concat_map(findings@.take(i as int), fl),
        decreases findings@.len() - i,
    {
        proof {
            lemma_concat_map_step(findings@, fl, i as int);
        }
        let f = &findings[i];
        let ghost before = out@;
        push_str(&mut out, f.severity().name());
        push_str(&mut out, "  ");
        push_str(&mut out, f.class.name());
        push_str(&mut out, "  ");
        push_str(&mut out, f.node.as_str());
        push_str(&mut out, "  ");
        push_str(&mut out, f.detail.as_str());
        push_str(&mut out, "  (source: ");
        push_str(&mut out, f.source.as_str());
        push_str(&mut out, ")\n");
        assert(out@ =~= before + finding_line(*f));
        i = i + 1;
    }
    proof {
        lemma_concat_map_all(findings@, fl);
    }
    string_of(&out)
}

// ── Laws ─────────────────────────────────────────────────────────────────────

/// Whether every finding among `s` has class `x`.
pub open spec fn all_of_class(s: Seq<(FindingClass, Seq<char>, Seq<char>, Seq<char>)>, x: FindingClass) -> bool {
    forall|i: int| 0 <= i < s.len() ==> (#[trigger] s[i]).0 == x
}

proof fn lemma_filter_class(
    s: Seq<(FindingClass, Seq<char>, Seq<char>, Seq<char>)>,
    x: FindingClass,
    c: FindingClass,
)
    requires
        all_of_class(s, x),
    ensures
        s.filter(|f: (FindingClass, Seq<char>, Seq<char>, Seq<char>)| f.0 == c) == when(x == c, s),
    decreases s.len(),
{
    let p = |f: (FindingClass, Seq<char>, Seq<char>, Seq<char>)| f.0 == c;
    if s.len() == 0 {
        assert(s.filter(p) =~= Seq::<(FindingClass, Seq<char>, Seq<char>, Seq<char>)>::empty());
        assert(when(x == c, s) =~= s);
    } else {
        let init = s.drop_last();
        assert(all_of_class(init, x)) by {
            assert forall|i: int| 0 <= i < init.len() implies (#[trigger] init[i]).0 == x by {
                assert(init[i] == s[i]);
            }
        }
        lemma_filter_class(init, x, c);
        assert(s =~= init.push(s.last()));
        init.lemma_filter_push(s.last(), p);
        assert(s.last() == s[s.len() - 1]);
        if x == c {
            assert(when(x == c, s) == s);
        } else {
            assert(when(x == c, s) =~= Seq::<(FindingClass, Seq<char>, Seq<char>, Seq<char>)>::empty());
        }
    }
}

proof fn lemma_views_classes(g: &Graph)
    ensures
        all_of_class(prd_no_vision_views(g), FindingClass::PrdNoVision),
        all_of_class(vision_no_prd_views(g), FindingClass::VisionNoPrd),
        all_of_class(repo_no_prd_views(g), FindingClass::RepoNoPrd),
        all_of_class(shipped_repo_gone_views(g), FindingClass::ShippedRepoGone),
        all_of_class(fulfilled_unmarked_views(g), FindingClass::FulfilledUnmarked),
{
    let f1 = |p: PrdNode| prd_no_vision_of(g, p);
    let f2 = |v: VisionNode| vision_no_prd_of(g, v);
    let f3 = |x: RepoNode| repo_no_prd_of(g, x);
    let f4 = |p: PrdNode| shipped_repo_gone_of(p);
    let f5 = |v: VisionNode| fulfilled_unmarked_of(g, v);
    let c1 = |f: (FindingClass, Seq<char>, Seq<char>, Seq<char>)| f.0 == FindingClass::PrdNoVision;
    let c2 = |f: (FindingClass, Seq<char>, Seq<char>, Seq<char>)| f.0 == FindingClass::VisionNoPrd;
    let c3 = |f: (FindingClass, Seq<char>, Seq<char>, Seq<char>)| f.0 == FindingClass::RepoNoPrd;
    let c4 = |f: (FindingClass, Seq<char>, Seq<char>, Seq<char>)| f.0 == FindingClass::ShippedRepoGone;
    let c5 = |f: (FindingClass, Seq<char>, Seq<char>, Seq<char>)| f.0 == FindingClass::FulfilledUnmarked;
    assert forall|i: int| 0 <= i < g.prds@.len() implies (f1(#[trigger] g.prds@[i]) matches Some(b) ==> c1(b)) by {}
    lemma_filter_map_forall(g.prds@, f1, c1);
    assert forall|i: int| 0 <= i < g.visions@.len() implies (f2(#[trigger] g.visions@[i]) matches Some(b) ==> c2(b)) by {}
    lemma_filter_map_forall(g.visions@, f2, c2);
    assert forall|i: int| 0 <= i < g.repos@.len() implies (f3(#[trigger] g.repos@[i]) matches Some(b) ==> c3(b)) by {}
    lemma_filter_map_forall(g.repos@, f3, c3);
    assert forall|i: int| 0 <= i < g.prds@.len() implies (f4(#[trigger] g.prds@[i]) matches Some(b) ==> c4(b)) by {}
    lemma_filter_map_forall(g.prds@, f4, c4);
    assert forall|i: int| 0 <= i < g.visions@.len() implies (f5(#[trigger] g.visions@[i]) matches Some(b) ==> c5(b)) by {}
    lemma_filter_map_forall(g.visions@, f5, c5);
}

/// A class filter restricts the report to that class: with `Only(c)` the
/// findings are exactly the findings of class `c` of the unfiltered report,
/// in the same order.
pub proof fn law_class_filter(g: &Graph, c: FindingClass)
    ensures
        doctor_views(g, ClassFilter::Only(c)) == doctor_views(g, ClassFilter::All).filter(
            |f: (FindingClass, Seq<char>, Seq<char>, Seq<char>)| f.0 == c,
        ),
        all_of_class(doctor_views(g, ClassFilter::Only(c)), c),
{
    broadcast use vstd::seq_lib::group_filter_ensures;

    let p = |f: (FindingClass, Seq<char>, Seq<char>, Seq<char>)| f.0 == c;
    let a = prd_no_vision_views(g);
    let b = vision_no_prd_views(g);
    let d = repo_no_prd_views(g);
    let e = shipped_repo_gone_views(g);
    let h = fulfilled_unmarked_views(g);
    lemma_views_classes(g);
    lemma_filter_class(a, FindingClass::PrdNoVision, c);
    lemma_filter_class(b, FindingClass::VisionNoPrd, c);
    lemma_filter_class(d, FindingClass::RepoNoPrd, c);
    lemma_filter_class(e, FindingClass::ShippedRepoGone, c);
    lemma_filter_class(h, FindingClass::FulfilledUnmarked, c);
    assert(doctor_views(g, ClassFilter::All) == a + b + d + e + h);
    Seq::filter_distributes_over_add(a, b, p);
    Seq::filter_distributes_over_add(a + b, d, p);
    Seq::filter_distributes_over_add(a + b + d, e, p);
    Seq::filter_distributes_over_add(a + b + d + e, h, p);
    assert(doctor_views(g, ClassFilter::Only(c)) =~= doctor_views(g, ClassFilter::All).filter(p));
    let r = doctor_views(g, ClassFilter::All).filter(p);
    assert forall|i: int| 0 <= i < r.len() implies (#[trigger] r[i]).0 == c by {
        doctor_views(g, ClassFilter::All).lemma_filter_pred(p, i);
    }
}


/// Whether some finding among `fs` names `node`.
pub open spec fn names_node(fs: Seq<(FindingClass, Seq<char>, Seq<char>, Seq<char>)>, node: Seq<char>) -> bool {
    exists|k: int| 0 <= k < fs.len() && (#[trigger] fs[k]).1 == node
}

/// Whether the findings `fs` report exactly the nodes among `xs` in the
/// state `state`: each such node is named by a finding, and each finding
/// names such a node.
pub open spec fn reports_exactly<A>(
    fs: Seq<(FindingClass, Seq<char>, Seq<char>, Seq<char>)>,
    xs: Seq<A>,
    state: spec_fn(A) -> bool,
    name: spec_fn(A) -> Seq<char>,
) -> bool {
    &&& forall|i: int| 0 <= i < xs.len() && state(#[trigger] xs[i]) ==> names_node(fs, name(xs[i]))
    &&& forall|k: int| 0 <= k < fs.len() ==> some_named(xs, state, name, (#[trigger] fs[k]).1)
}

/// Whether some node among `xs` in the state `state` is named `n`.
pub open spec fn some_named<A>(xs: Seq<A>, state: spec_fn(A) -> bool, name: spec_fn(A) -> Seq<char>, n: Seq<char>) -> bool {
    exists|i: int| 0 <= i < xs.len() && state(#[trigger] xs[i]) && name(xs[i]) == n
}

proof fn lemma_reports_exactly<A>(
    xs: Seq<A>,
    f: spec_fn(A) -> Option<(FindingClass, Seq<char>, Seq<char>, Seq<char>)>,
    state: spec_fn(A) -> bool,
    name: spec_fn(A) -> Seq<char>,
)
    requires
        forall|x: A| #[trigger] f(x) is Some <==> state(x),
        forall|x: A| #[trigger] f(x) is Some ==> (f(x)->0).1 == name(x),
    ensures
        reports_exactly(xs.filter_map(f), xs, state, name),
{
    let fs = xs.filter_map(f);
    assert forall|i: int| 0 <= i < xs.len() && state(#[trigger] xs[i]) implies names_node(fs, name(xs[i])) by {
        assert(f(xs[i]) is Some);
        lemma_filter_map_keeps(xs, f, i);
        let k = choose|k: int| 0 <= k < fs.len() && fs[k] == f(xs[i])->0;
        assert(fs[k].1 == name(xs[i]));
    }
    assert forall|k: int| 0 <= k < fs.len() implies some_named(xs, state, name, (#[trigger] fs[k]).1) by {
        assert(fs.contains(fs[k]));
        xs.lemma_filter_map_contains(f, fs[k]);
        let t = choose|t: A| #[trigger] xs.contains(t) && f(t) == Some(fs[k]);
        let i = choose|i: int| 0 <= i < xs.len() && xs[i] == t;
        assert(f(xs[i]) is Some);
    }
}

/// Each class of the lint, run alone, reports exactly the nodes in the state
/// it names: `prd_no_vision` the PRDs whose vision is empty or names no
/// vision; `vision_no_prd` the visions that drafted nothing and that no PRD
/// names; `repo_no_prd` the repos that no PRD matches; `shipped_repo_gone`
/// the PRDs that record a repo path but are not shipped; and
/// `fulfilled_unmarked` the active visions whose drafted PRDs, at least one,
/// are all shipped.
pub proof fn law_doctor_reports_each_state(g: &Graph)
    ensures
        reports_exactly(
            doctor_views(g, ClassFilter::Only(FindingClass::PrdNoVision)),
            g.prds@,
            |p: PrdNode| p.vision@.len() == 0 || !vision_known(g, p.vision@),
            |p: PrdNode| p.filename@,
        ),
        reports_exactly(
            doctor_views(g, ClassFilter::Only(FindingClass::VisionNoPrd)),
            g.visions@,
            |v: VisionNode| v.prds_drafted@.len() == 0 && !slug_referenced(g, v.slug@),
            |v: VisionNode| v.slug@,
        ),
        reports_exactly(
            doctor_views(g, ClassFilter::Only(FindingClass::RepoNoPrd)),
            g.repos@,
            |x: RepoNode| !exists|i: int| 0 <= i < g.prds@.len() && repo_matches(x, #[trigger] g.prds@[i]),
            |x: RepoNode| x.name@,
        ),
        reports_exactly(
            doctor_views(g, ClassFilter::Only(FindingClass::ShippedRepoGone)),
            g.prds@,
            |p: PrdNode| p.repo_path@.len() > 0 && p.status != PrdStatus::Shipped,
            |p: PrdNode| p.filename@,
        ),
        reports_exactly(
            doctor_views(g, ClassFilter::Only(FindingClass::FulfilledUnmarked)),
            g.visions@,
            |v: VisionNode|
                v.status@ == "active"@ && v.prds_drafted@.len() > 0 && forall|j: int|
                    0 <= j < v.prds_drafted@.len() ==> drafted_shipped(g, #[trigger] v.prds_drafted@[j]@),
            |v: VisionNode| v.slug@,
        ),
{
    let e = Seq::<(FindingClass, Seq<char>, Seq<char>, Seq<char>)>::empty();
    assert(doctor_views(g, ClassFilter::Only(FindingClass::PrdNoVision)) =~= prd_no_vision_views(g) + e + e
        + e + e);
    assert(doctor_views(g, ClassFilter::Only(FindingClass::VisionNoPrd)) =~= e + vision_no_prd_views(g) + e
        + e + e);
    assert(doctor_views(g, ClassFilter::Only(FindingClass::RepoNoPrd)) =~= e + e + repo_no_prd_views(g) + e
        + e);
    assert(doctor_views(g, ClassFilter::Only(FindingClass::ShippedRepoGone)) =~= e + e + e
        + shipped_repo_gone_views(g) + e);
    assert(doctor_views(g, ClassFilter::Only(FindingClass::FulfilledUnmarked)) =~= e + e + e + e
        + fulfilled_unmarked_views(g));
    assert(doctor_views(g, ClassFilter::Only(FindingClass::PrdNoVision)) =~= prd_no_vision_views(g));
    assert(doctor_views(g, ClassFilter::Only(FindingClass::VisionNoPrd)) =~= vision_no_prd_views(g));
    assert(doctor_views(g, ClassFilter::Only(FindingClass::RepoNoPrd)) =~= repo_no_prd_views(g));
    assert(doctor_views(g, ClassFilter::Only(FindingClass::ShippedRepoGone)) =~= shipped_repo_gone_views(g));
    assert(doctor_views(g, ClassFilter::Only(FindingClass::FulfilledUnmarked)) =~= fulfilled_unmarked_views(g));
    lemma_reports_exactly(
        g.prds@,
        |p: PrdNode| prd_no_vision_of(g, p),
        |p: PrdNode| p.vision@.len() == 0 || !vision_known(g, p.vision@),
        |p: PrdNode| p.filename@,
    );
    lemma_reports_exactly(
        g.visions@,
        |v: VisionNode| vision_no_prd_of(g, v),
        |v: VisionNode| v.prds_drafted@.len() == 0 && !slug_referenced(g, v.slug@),
        |v: VisionNode| v.slug@,
    );
    lemma_reports_exactly(
        g.repos@,
        |x: RepoNode| repo_no_prd_of(g, x),
        |x: RepoNode| !exists|i: int| 0 <= i < g.prds@.len() && repo_matches(x, #[trigger] g.prds@[i]),
        |x: RepoNode| x.name@,
    );
    lemma_reports_exactly(
        g.prds@,
        |p: PrdNode| shipped_repo_gone_of(p),
        |p: PrdNode| p.repo_path@.len() > 0 && p.status != PrdStatus::Shipped,
        |p: PrdNode| p.filename@,
    );
    lemma_reports_exactly(
        g.visions@,
        |v: VisionNode| fulfilled_unmarked_of(g, v),
        |v: VisionNode|
            v.status@ == "active"@ && v.prds_drafted@.len() > 0 && forall|j: int|
                0 <= j < v.prds_drafted@.len() ==> drafted_shipped(g, #[trigger] v.prds_drafted@[j]@),
        |v: VisionNode| v.slug@,
    );
}


/// Whether no character of `s` is a newline.
pub open spec fn one_line(s: Seq<char>) -> bool {
    forall|k: int| 0 <= k < s.len() ==> s[k] != '\n'
}

proof fn lemma_one_line_add(a: Seq<char>, b: Seq<char>)
    requires
        one_line(a),
        one_line(b),
    ensures
        one_line(a + b),
{
    assert forall|k: int| 0 <= k < (a + b).len() implies (a + b)[k] != '\n' by {
        if k < a.len() {
            assert((a + b)[k] == a[k]);
        } else {
            assert((a + b)[k] == b[k - a.len()]);
        }
    }
}

/// A report is one line per finding when no finding's node, detail or
/// source holds a newline: with findings, the report is their lines in
/// order, and each line ends with its only newline.
pub proof fn law_report_one_line_per_finding(fs: Seq<Finding>)
    requires
        forall|i: int|
            0 <= i < fs.len() ==> one_line((#[trigger] fs[i]).node@) && one_line(fs[i].detail@) && one_line(
                fs[i].source@,
            ),
    ensures
        fs.len() > 0 ==> report_text(fs) == concat_map(fs, |f: Finding| finding_line(f)),
        forall|i: int|
            0 <= i < fs.len() ==> {
                let l = #[trigger] finding_line(fs[i]);
                l.len() > 0 && l.last() == '\n' && one_line(l.drop_last())
            },
{
    reveal_strlit("info");
    reveal_strlit("warn");
    reveal_strlit("prd_no_vision");
    reveal_strlit("vision_no_prd");
    reveal_strlit("repo_no_prd");
    reveal_strlit("shipped_repo_gone");
    reveal_strlit("fulfilled_unmarked");
    reveal_strlit("  ");
    reveal_strlit("  (source: ");
    reveal_strlit(")\n");
    assert(one_line("  "@));
    assert(one_line("  (source: "@));
    reveal_strlit(")");
    assert(one_line(")"@));
    assert forall|i: int| 0 <= i < fs.len() implies {
        let l = #[trigger] finding_line(fs[i]);
        l.len() > 0 && l.last() == '\n' && one_line(l.drop_last())
    } by {
        let f = fs[i];
        let sv = severity_name(class_severity(f.class));
        let cn = class_name(f.class);
        assert(one_line(sv));
        assert(one_line(cn));
        let sp = "  "@;
        let a = sv + sp;
        lemma_one_line_add(sv, sp);
        lemma_one_line_add(a, cn);
        let b = a + cn + sp;
        lemma_one_line_add(a + cn, sp);
        lemma_one_line_add(b, f.node@);
        let c = b + f.node@ + sp;
        lemma_one_line_add(b + f.node@, sp);
        lemma_one_line_add(c, f.detail@);
        let d = c + f.detail@ + "  (source: "@;
        lemma_one_line_add(c + f.detail@, "  (source: "@);
        lemma_one_line_add(d, f.source@);
        let e = d + f.source@;
        let l = finding_line(f);
        assert(l == e + ")\n"@);
        assert(l.drop_last() =~= e + ")"@);
        lemma_one_line_add(e, ")"@);
    }
}


/// `fulfilled_unmarked` reports exactly the active visions that drafted at
/// least one PRD and whose every drafted slug `s` names a PRD `PRD-<s>.md`
/// of the graph with status shipped: one drafted slug whose PRD is drafted,
/// in flight or missing rules the finding out.
pub proof fn law_fulfilled_needs_every_prd_shipped(g: &Graph)
    ensures
        reports_exactly(
            doctor_views(g, ClassFilter::Only(FindingClass::FulfilledUnmarked)),
            g.visions@,
            |v: VisionNode|
                v.status@ == "active"@ && v.prds_drafted@.len() > 0 && forall|j: int|
                    0 <= j < v.prds_drafted@.len() ==> (find_prd(
                        g,
                        "PRD-"@ + (#[trigger] v.prds_drafted@[j])@ + ".md"@,
                    ) matches Some(p) && p.status == PrdStatus::Shipped),
            |v: VisionNode| v.slug@,
        ),
{
    law_doctor_reports_each_state(g);
    let s1 = |v: VisionNode|
        v.status@ == "active"@ && v.prds_drafted@.len() > 0 && forall|j: int|
            0 <= j < v.prds_drafted@.len() ==> drafted_shipped(g, #[trigger] v.prds_drafted@[j]@);
    let s2 = |v: VisionNode|
        v.status@ == "active"@ && v.prds_drafted@.len() > 0 && forall|j: int|
            0 <= j < v.prds_drafted@.len() ==> (find_prd(
                g,
                "PRD-"@ + (#[trigger] v.prds_drafted@[j])@ + ".md"@,
            ) matches Some(p) && p.status == PrdStatus::Shipped);
    assert(s1 =~= s2) by {
        assert forall|v: VisionNode| #[trigger] s1(v) == s2(v) by {
            if s1(v) {
                assert forall|j: int| 0 <= j < v.prds_drafted@.len() implies (find_prd(
                    g,
                    "PRD-"@ + (#[trigger] v.prds_drafted@[j])@ + ".md"@,
                ) matches Some(p) && p.status == PrdStatus::Shipped) by {
                    assert(drafted_shipped(g, v.prds_drafted@[j]@));
                }
            }
            if s2(v) {
                assert forall|j: int| 0 <= j < v.prds_drafted@.len() implies drafted_shipped(
                    g,
                    #[trigger] v.prds_drafted@[j]@,
                ) by {
                    assert(find_prd(g, "PRD-"@ + v.prds_drafted@[j]@ + ".md"@) matches Some(p) && p.status
                        == PrdStatus::Shipped);
                }
            }
        }
    }
}

/// The exit code is 0 without findings, 2 as soon as any finding, wherever
/// it stands, is of a warn-level class (`prd_no_vision`, `repo_no_prd`,
/// `shipped_repo_gone`), and 1 when there are findings and all are
/// info-level; findings in another order give the same code.
pub proof fn law_exit_code(fs: Seq<Finding>, reordered: Seq<Finding>)
    ensures
        fs.len() == 0 ==> exit_code_of(fs) == 0,
        (exists|i: int|
            0 <= i < fs.len() && ((#[trigger] fs[i]).class == FindingClass::PrdNoVision || fs[i].class
                == FindingClass::RepoNoPrd || fs[i].class == FindingClass::ShippedRepoGone)) ==> exit_code_of(fs)
            == 2,
        fs.len() > 0 && (forall|i: int|
            0 <= i < fs.len() ==> (#[trigger] fs[i]).class == FindingClass::VisionNoPrd || fs[i].class
                == FindingClass::FulfilledUnmarked) ==> exit_code_of(fs) == 1,
        fs.to_multiset() == reordered.to_multiset() ==> exit_code_of(fs) == exit_code_of(reordered),
{
    broadcast use vstd::seq_lib::group_to_multiset_ensures;

    if exists|i: int|
        0 <= i < fs.len() && ((#[trigger] fs[i]).class == FindingClass::PrdNoVision || fs[i].class
            == FindingClass::RepoNoPrd || fs[i].class == FindingClass::ShippedRepoGone) {
        let i = choose|i: int|
            0 <= i < fs.len() && ((#[trigger] fs[i]).class == FindingClass::PrdNoVision || fs[i].class
                == FindingClass::RepoNoPrd || fs[i].class == FindingClass::ShippedRepoGone);
        assert(class_severity(fs[i].class) == Severity::Warn);
    }
    if fs.len() > 0 && (forall|i: int|
        0 <= i < fs.len() ==> (#[trigger] fs[i]).class == FindingClass::VisionNoPrd || fs[i].class
            == FindingClass::FulfilledUnmarked) {
        assert forall|i: int| 0 <= i < fs.len() implies class_severity(#[trigger] fs[i].class) != Severity::Warn by {
            assert(fs[i].class == FindingClass::VisionNoPrd || fs[i].class == FindingClass::FulfilledUnmarked);
        }
    }
    if fs.to_multiset() == reordered.to_multiset() {
        vstd::seq_lib::to_multiset_len(fs);
        vstd::seq_lib::to_multiset_len(reordered);
        if exists|i: int| 0 <= i < fs.len() && class_severity(#[trigger] fs[i].class) == Severity::Warn {
            let i = choose|i: int| 0 <= i < fs.len() && class_severity(#[trigger] fs[i].class) == Severity::Warn;
            assert(fs.contains(fs[i]));
            assert(reordered.to_multiset().count(fs[i]) > 0);
            let j = choose|j: int| 0 <= j < reordered.len() && reordered[j] == fs[i];
            assert(class_severity(reordered[j].class) == Severity::Warn);
        }
        if exists|j: int| 0 <= j < reordered.len() && class_severity(#[trigger] reordered[j].class) == Severity::Warn {
            let j = choose|j: int|
                0 <= j < reordered.len() && class_severity(#[trigger] reordered[j].class) == Severity::Warn;
            assert(reordered.contains(reordered[j]));
            assert(fs.to_multiset().count(reordered[j]) > 0);
            let i = choose|i: int| 0 <= i < fs.len() && fs[i] == reordered[j];
            assert(class_severity(fs[i].class) == Severity::Warn);
        }
    }
}

} // verus!
