//! The doctor lint: one positive and one negative fixture per divergence
//! class, the exit code, the text report and the class filter.

use atlas::doctor::{
    check_fulfilled_unmarked, check_prd_no_vision, check_repo_no_prd, check_shipped_repo_gone,
    check_vision_no_prd, exit_code, render_text, repo_matches_prd, run, ClassFilter, Finding,
    FindingClass, Severity,
};
use atlas::edges::{EdgeIndex, EdgeSet};
use atlas::graph::Graph;
use atlas::model::{PrdNode, PrdStatus, RepoNode, VisionNode};

// ── Helpers ──────────────────────────────────────────────────────────────────

fn empty_graph() -> Graph {
    Graph {
        visions: Vec::new(),
        prds: Vec::new(),
        repos: Vec::new(),
        edge_set: EdgeSet::default(),
        edge_index: EdgeIndex::default(),
    }
}

fn prd(filename: &str, vision: &str, status: PrdStatus) -> PrdNode {
    PrdNode {
        filename: filename.to_string(),
        title: filename.to_string(),
        vision: vision.to_string(),
        build_target: "rust-extend".to_string(),
        build_into: String::new(),
        status,
        repo_url: String::new(),
        repo_path: String::new(),
    }
}

fn prd_with_path(filename: &str, status: PrdStatus, repo_path: &str) -> PrdNode {
    PrdNode {
        filename: filename.to_string(),
        title: filename.to_string(),
        vision: String::new(),
        build_target: "rust-cli".to_string(),
        build_into: String::new(),
        status,
        repo_url: String::new(),
        repo_path: repo_path.to_string(),
    }
}

fn vision(slug: &str, status: &str, prds_drafted: &[&str]) -> VisionNode {
    VisionNode {
        slug: slug.to_string(),
        path: format!("visions/{slug}.md"),
        status: status.to_string(),
        prds_drafted: prds_drafted.iter().map(|s| s.to_string()).collect(),
        seed: String::new(),
    }
}

fn repo(name: &str) -> RepoNode {
    RepoNode {
        name: name.to_string(),
        url: format!("https://github.com/j0yen/{name}"),
        description: format!("the {name} tool"),
    }
}

fn finding(class: FindingClass) -> Finding {
    Finding {
        class,
        node: "x".to_string(),
        detail: "d".to_string(),
        source: "s".to_string(),
    }
}

// ── prd_no_vision ────────────────────────────────────────────────────────────

#[test]
fn prd_no_vision_fires_when_vision_empty() {
    let mut g = empty_graph();
    g.prds.push(prd("PRD-foo.md", "", PrdStatus::Drafted));
    let findings = check_prd_no_vision(&g);
    assert_eq!(findings.len(), 1);
    assert_eq!(findings[0].class, FindingClass::PrdNoVision);
    assert_eq!(findings[0].node, "PRD-foo.md");
}

#[test]
fn prd_no_vision_fires_when_vision_missing_from_graph() {
    let mut g = empty_graph();
    g.prds.push(prd("PRD-foo.md", "ghost-vision", PrdStatus::Drafted));
    let findings = check_prd_no_vision(&g);
    assert_eq!(findings.len(), 1);
    assert_eq!(findings[0].class, FindingClass::PrdNoVision);
}

#[test]
fn prd_no_vision_absent_when_vision_exists() {
    let mut g = empty_graph();
    g.visions.push(vision("atlas", "active", &[]));
    g.prds.push(prd("PRD-atlas-core.md", "atlas", PrdStatus::Drafted));
    let findings = check_prd_no_vision(&g);
    assert!(findings.is_empty(), "known vision must not fire prd_no_vision");
}

#[test]
fn prd_no_vision_details_name_the_cause() {
    let mut g = empty_graph();
    g.prds.push(prd("PRD-a.md", "", PrdStatus::Drafted));
    g.prds.push(prd("PRD-b.md", "ghost", PrdStatus::Drafted));
    let findings = check_prd_no_vision(&g);
    assert_eq!(findings.len(), 2);
    assert_eq!(findings[0].detail, "PRD has no Vision: field");
    assert_eq!(findings[0].source, "PRD-a.md");
    assert_eq!(findings[1].detail, "Vision: 'ghost' not found in dream manifest");
}

// ── vision_no_prd ────────────────────────────────────────────────────────────

#[test]
fn vision_no_prd_fires_when_no_prds_and_not_referenced() {
    let mut g = empty_graph();
    g.visions.push(vision("empty-vision", "active", &[]));
    let findings = check_vision_no_prd(&g);
    assert_eq!(findings.len(), 1);
    assert_eq!(findings[0].class, FindingClass::VisionNoPrd);
    assert_eq!(findings[0].node, "empty-vision");
}

#[test]
fn vision_no_prd_absent_when_prd_references_vision() {
    let mut g = empty_graph();
    g.visions.push(vision("atlas", "active", &[]));
    g.prds.push(prd("PRD-atlas-core.md", "atlas", PrdStatus::Drafted));
    let findings = check_vision_no_prd(&g);
    assert!(
        findings.is_empty(),
        "vision referenced by a PRD must not fire vision_no_prd"
    );
}

#[test]
fn vision_no_prd_absent_when_prds_drafted() {
    let mut g = empty_graph();
    g.visions.push(vision("drafty", "active", &["drafty-core"]));
    assert!(check_vision_no_prd(&g).is_empty());
}

// ── repo_no_prd ──────────────────────────────────────────────────────────────

#[test]
fn repo_no_prd_fires_when_no_matching_prd() {
    let mut g = empty_graph();
    g.repos.push(repo("orphan-tool"));
    let findings = check_repo_no_prd(&g);
    assert_eq!(findings.len(), 1);
    assert_eq!(findings[0].class, FindingClass::RepoNoPrd);
    assert_eq!(findings[0].node, "orphan-tool");
}

#[test]
fn repo_no_prd_absent_when_prd_build_into_matches() {
    let mut g = empty_graph();
    g.repos.push(repo("atlas"));
    let mut p = prd("PRD-atlas-core.md", "atlas", PrdStatus::Shipped);
    p.build_into = "/home/jsy/wintermute/atlas".to_string();
    g.prds.push(p);
    g.visions.push(vision("atlas", "active", &[]));
    let findings = check_repo_no_prd(&g);
    assert!(
        findings.is_empty(),
        "repo with matching build_into must not fire repo_no_prd"
    );
}

#[test]
fn repo_matches_prd_by_filename_slug_case_insensitively() {
    let r = repo("Atlas");
    let p = prd("PRD-atlas-core.md", "", PrdStatus::Drafted);
    assert!(repo_matches_prd(&r, &p));
    let q = prd("PRD-vigil.md", "", PrdStatus::Drafted);
    assert!(!repo_matches_prd(&r, &q));
}

#[test]
fn repo_matches_prd_by_repo_path_basename() {
    let r = repo("tooling");
    let p = prd_with_path("PRD-unrelated.md", PrdStatus::Shipped, "/srv/git/Tooling");
    assert!(repo_matches_prd(&r, &p));
}

// ── shipped_repo_gone ────────────────────────────────────────────────────────

#[test]
fn shipped_repo_gone_fires_when_path_non_empty_and_not_on_disk() {
    let mut g = empty_graph();
    g.prds.push(prd_with_path(
        "PRD-lost.md",
        PrdStatus::InFlight,
        "/nonexistent/path/to/repo",
    ));
    let findings = check_shipped_repo_gone(&g);
    assert_eq!(findings.len(), 1);
    assert_eq!(findings[0].class, FindingClass::ShippedRepoGone);
    assert_eq!(findings[0].node, "PRD-lost.md");
}

#[test]
fn shipped_repo_gone_absent_when_path_exists_on_disk() {
    let tmp = tempfile::TempDir::new().unwrap();
    let mut g = empty_graph();
    g.prds.push(prd_with_path(
        "PRD-ok.md",
        PrdStatus::Shipped,
        tmp.path().to_str().unwrap(),
    ));
    let findings = check_shipped_repo_gone(&g);
    assert!(
        findings.is_empty(),
        "existing path must not fire shipped_repo_gone"
    );
}

#[test]
fn shipped_repo_gone_absent_when_path_empty() {
    let mut g = empty_graph();
    g.prds.push(prd("PRD-no-path.md", "", PrdStatus::InFlight));
    let findings = check_shipped_repo_gone(&g);
    assert!(findings.is_empty(), "empty repo_path must not fire finding");
}

// ── fulfilled_unmarked ───────────────────────────────────────────────────────

#[test]
fn fulfilled_unmarked_fires_when_all_prds_shipped() {
    let mut g = empty_graph();
    g.visions.push(vision("fleet", "active", &["fleet-core", "fleet-edges"]));
    g.prds.push(prd("PRD-fleet-core.md", "fleet", PrdStatus::Shipped));
    g.prds.push(prd("PRD-fleet-edges.md", "fleet", PrdStatus::Shipped));
    let findings = check_fulfilled_unmarked(&g);
    assert_eq!(findings.len(), 1);
    assert_eq!(findings[0].class, FindingClass::FulfilledUnmarked);
    assert_eq!(findings[0].node, "fleet");
    assert_eq!(
        findings[0].detail,
        "vision 'fleet' is active but all 2 drafted PRDs are shipped"
    );
}

#[test]
fn fulfilled_unmarked_absent_when_one_prd_not_shipped() {
    let mut g = empty_graph();
    g.visions.push(vision("fleet", "active", &["fleet-core", "fleet-orphans"]));
    g.prds.push(prd("PRD-fleet-core.md", "fleet", PrdStatus::Shipped));
    g.prds.push(prd("PRD-fleet-orphans.md", "fleet", PrdStatus::InFlight));
    let findings = check_fulfilled_unmarked(&g);
    assert!(
        findings.is_empty(),
        "vision with an un-shipped PRD must not fire fulfilled_unmarked"
    );
}

#[test]
fn fulfilled_unmarked_absent_when_vision_not_active() {
    let mut g = empty_graph();
    g.visions.push(vision("done-vision", "complete", &["done-prd"]));
    g.prds.push(prd("PRD-done-prd.md", "done-vision", PrdStatus::Shipped));
    let findings = check_fulfilled_unmarked(&g);
    assert!(
        findings.is_empty(),
        "non-active vision must not fire fulfilled_unmarked"
    );
}

// ── exit code and severity ───────────────────────────────────────────────────

#[test]
fn exit_code_zero_on_empty() {
    assert_eq!(exit_code(&[]), 0);
}

#[test]
fn exit_code_one_on_info_only() {
    let f = finding(FindingClass::FulfilledUnmarked);
    assert_eq!(exit_code(&[f]), 1);
}

#[test]
fn exit_code_two_on_warn() {
    let f = finding(FindingClass::ShippedRepoGone);
    assert_eq!(exit_code(&[f]), 2);
}

#[test]
fn exit_code_two_when_warn_follows_info() {
    let a = finding(FindingClass::VisionNoPrd);
    let b = finding(FindingClass::PrdNoVision);
    assert_eq!(exit_code(&[a, b]), 2);
}

#[test]
fn severities_of_classes() {
    assert_eq!(FindingClass::PrdNoVision.severity(), Severity::Warn);
    assert_eq!(FindingClass::VisionNoPrd.severity(), Severity::Info);
    assert_eq!(FindingClass::RepoNoPrd.severity(), Severity::Warn);
    assert_eq!(FindingClass::ShippedRepoGone.severity(), Severity::Warn);
    assert_eq!(FindingClass::FulfilledUnmarked.severity(), Severity::Info);
    assert_eq!(finding(FindingClass::VisionNoPrd).severity(), Severity::Info);
    assert!(Severity::Info < Severity::Warn);
}

// ── text report ──────────────────────────────────────────────────────────────

#[test]
fn render_text_clean_bill_when_no_findings() {
    let output = render_text(&[]);
    assert!(output.contains("no divergences"), "clean-bill text expected");
}

#[test]
fn render_text_one_line_per_finding() {
    let f = Finding {
        class: FindingClass::PrdNoVision,
        node: "PRD-foo.md".to_string(),
        detail: "PRD has no Vision: field".to_string(),
        source: "PRD-foo.md".to_string(),
    };
    let output = render_text(&[f]);
    assert_eq!(
        output,
        "warn  prd_no_vision  PRD-foo.md  PRD has no Vision: field  (source: PRD-foo.md)\n"
    );
}

// ── class filter ─────────────────────────────────────────────────────────────

#[test]
fn run_filter_only_prd_no_vision() {
    let mut g = empty_graph();
    g.prds.push(prd("PRD-foo.md", "", PrdStatus::Drafted));
    g.visions.push(vision("empty-vis", "active", &[]));
    let findings = run(&g, &ClassFilter::Only(FindingClass::PrdNoVision));
    assert!(
        findings.iter().all(|f| f.class == FindingClass::PrdNoVision),
        "class filter must restrict output to the requested class"
    );
    assert!(!findings.is_empty(), "filter must still return matching findings");
}

#[test]
fn run_all_reports_every_class_in_order() {
    let mut g = empty_graph();
    g.prds.push(prd("PRD-foo.md", "", PrdStatus::Drafted));
    g.visions.push(vision("empty-vis", "active", &[]));
    let findings = run(&g, &ClassFilter::All);
    let classes: Vec<FindingClass> = findings.iter().map(|f| f.class).collect();
    assert_eq!(
        classes,
        vec![FindingClass::PrdNoVision, FindingClass::VisionNoPrd]
    );
    let only = run(&g, &ClassFilter::Only(FindingClass::VisionNoPrd));
    assert_eq!(only.len(), 1);
    assert_eq!(only[0].node, "empty-vis");
}

#[test]
fn repo_matches_names_on_lowered_texts() {
    let r = repo("Atlas");
    let p = prd("PRD-vigil.md", "", PrdStatus::Drafted);
    assert!(atlas::doctor::repo_matches_names("atlas", "the atlas graph", &r, &p));
    assert!(!atlas::doctor::repo_matches_names("atlas", "a watcher", &r, &p));
}

#[test]
fn each_class_alone_names_exactly_the_nodes_in_its_state() {
    let mut g = empty_graph();
    g.visions.push(vision("atlas", "active", &["core"]));
    g.visions.push(vision("idle", "active", &[]));
    g.prds.push(prd("PRD-core.md", "atlas", PrdStatus::Shipped));
    g.prds.push(prd("PRD-lost.md", "ghost", PrdStatus::Drafted));
    g.prds.push(prd_with_path("PRD-gone.md", PrdStatus::InFlight, "/srv/gone"));
    g.prds.push(prd_with_path("PRD-here.md", PrdStatus::Shipped, "/srv/here"));
    g.repos.push(repo("core"));
    g.repos.push(repo("orphan"));
    let names = |c: FindingClass| -> Vec<String> {
        run(&g, &ClassFilter::Only(c)).into_iter().map(|f| f.node).collect()
    };
    assert_eq!(names(FindingClass::PrdNoVision), vec!["PRD-lost.md", "PRD-gone.md", "PRD-here.md"]);
    assert_eq!(names(FindingClass::VisionNoPrd), vec!["idle"]);
    assert_eq!(names(FindingClass::RepoNoPrd), vec!["orphan"]);
    assert_eq!(names(FindingClass::ShippedRepoGone), vec!["PRD-gone.md"]);
    assert_eq!(names(FindingClass::FulfilledUnmarked), vec!["atlas"]);
}

#[test]
fn report_has_one_line_per_finding() {
    let fs = vec![finding(FindingClass::PrdNoVision), finding(FindingClass::VisionNoPrd), finding(FindingClass::RepoNoPrd)];
    let text = render_text(&fs);
    let lines: Vec<&str> = text.lines().collect();
    assert_eq!(lines.len(), fs.len());
    assert!(lines[0].starts_with("warn  prd_no_vision  "));
    assert!(lines[1].starts_with("info  vision_no_prd  "));
    assert!(text.ends_with(")\n"));
}
