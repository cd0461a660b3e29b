//! Dependency edges from `**Depends on:**` frontmatter and gossip `Order:`
//! blocks, their deduplication, and the edge index.

use atlas::edges::{
    extract_depends_on_edges, load_edges, normalise_prd_filename, parse_frontmatter_edges,
    parse_gossip_edges, EdgeIndex, EdgeLoadError, EdgeSet, GossipText,
};
use atlas::model::{Edge, EdgeKind};
use atlas::parsers::DirFile;

fn make_known(names: &[&str]) -> Vec<String> {
    names.iter().map(|s| s.to_string()).collect()
}

/// The text a fixture PRD holds: a title, a build target and, when given,
/// a `**Depends on:**` line.
fn prd_text(filename: &str, depends_on: Option<&str>) -> String {
    let depends_line = match depends_on {
        Some(d) => format!("\n**Depends on:** {d}\n"),
        None => String::new(),
    };
    format!("# PRD: {filename}\n\n**build_target:** rust-extend\n{depends_line}\nBody text.\n")
}

fn prd_file(filename: &str, depends_on: Option<&str>) -> DirFile {
    DirFile {
        name: filename.to_string(),
        content: Some(prd_text(filename, depends_on)),
    }
}

const DIR: &str = "/tmp/fixture/autobuilder";
const GOSSIP: &str = "/tmp/fixture/gossip.md";

// ── frontmatter-only ─────────────────────────────────────────────────────────

#[test]
fn ac_frontmatter_only_edge() {
    let known = make_known(&["PRD-foo.md", "PRD-bar.md"]);
    let files = vec![
        prd_file("PRD-foo.md", Some("PRD-bar.md")),
        prd_file("PRD-bar.md", None),
    ];
    let (edges, unresolved) = parse_frontmatter_edges(DIR, &files, &known);
    assert_eq!(edges.len(), 1, "expected one edge");
    assert_eq!(edges[0].from, "PRD-foo.md");
    assert_eq!(edges[0].to, "PRD-bar.md");
    assert_eq!(edges[0].kind, EdgeKind::Frontmatter);
    assert_eq!(unresolved, 0);
}

#[test]
fn ac_frontmatter_none_produces_no_edges() {
    let known = make_known(&["PRD-docket-core.md"]);
    let files = vec![prd_file("PRD-docket-core.md", Some("none"))];
    let (edges, unresolved) = parse_frontmatter_edges(DIR, &files, &known);
    assert!(edges.is_empty(), "none must produce zero edges");
    assert_eq!(unresolved, 0);
}

#[test]
fn ac_unresolved_frontmatter_endpoint() {
    let known = make_known(&["PRD-foo.md"]);
    let files = vec![prd_file("PRD-foo.md", Some("PRD-ghost.md"))];
    let (edges, unresolved) = parse_frontmatter_edges(DIR, &files, &known);
    assert!(edges.is_empty());
    assert_eq!(unresolved, 1);
}

#[test]
fn frontmatter_edge_source_is_file_and_line() {
    let known = make_known(&["PRD-foo.md", "PRD-bar.md"]);
    let files = vec![prd_file("PRD-foo.md", Some("PRD-bar.md"))];
    let (edges, _) = parse_frontmatter_edges(DIR, &files, &known);
    assert_eq!(edges[0].source, "PRD-foo.md:5");
}

#[test]
fn frontmatter_list_slugs_remarks_comments_and_none() {
    let known = make_known(&["PRD-a.md", "PRD-b.md", "PRD-c.md", "PRD-d.md"]);
    let content = "**Depends on:** a, PRD-b (the node model), NONE, PRD-c.md, , d # later\n";
    let results = extract_depends_on_edges("PRD-a.md", content, &known);
    let tos: Vec<String> = results
        .iter()
        .map(|r| match r {
            Ok(e) => e.to.clone(),
            Err(()) => "?".to_string(),
        })
        .collect();
    assert_eq!(tos, vec!["PRD-a.md", "PRD-b.md", "PRD-c.md", "PRD-d.md"]);
}

#[test]
fn frontmatter_inside_code_fence_is_ignored() {
    let known = make_known(&["PRD-a.md", "PRD-b.md"]);
    let content = "```\n**Depends on:** PRD-b.md\n```\n";
    let results = extract_depends_on_edges("PRD-a.md", content, &known);
    assert!(results.is_empty());
}

#[test]
fn frontmatter_skips_non_prd_and_unreadable_files() {
    let known = make_known(&["PRD-a.md", "PRD-b.md"]);
    let files = vec![
        DirFile { name: "README.md".to_string(), content: Some(prd_text("README.md", Some("PRD-b.md"))) },
        DirFile { name: "PRD-a.md".to_string(), content: None },
        prd_file("PRD-b.MD", Some("PRD-a.md")),
    ];
    let (edges, unresolved) = parse_frontmatter_edges(DIR, &files, &known);
    assert_eq!(edges.len(), 1, "an md extension in any case is read");
    assert_eq!(edges[0].from, "PRD-b.MD");
    assert_eq!(unresolved, 0);
}

#[test]
fn frontmatter_of_archive_dir_is_empty() {
    let known = make_known(&["PRD-a.md", "PRD-b.md"]);
    let files = vec![prd_file("PRD-a.md", Some("PRD-b.md"))];
    let (edges, unresolved) = parse_frontmatter_edges("/x/PRDs-archive", &files, &known);
    assert!(edges.is_empty());
    assert_eq!(unresolved, 0);
}

// ── gossip ───────────────────────────────────────────────────────────────────

#[test]
fn ac_gossip_only_edge() {
    let known = make_known(&["PRD-atlas-core.md", "PRD-atlas-edges.md"]);
    let fp: Vec<(String, String)> = Vec::new();
    let (edges, unresolved) =
        parse_gossip_edges(GOSSIP, "Order: atlas-core \u{2192} atlas-edges\n", &known, &fp);
    assert_eq!(edges.len(), 1, "expected one gossip edge");
    // `atlas-core → atlas-edges` means atlas-edges depends on atlas-core.
    assert_eq!(edges[0].from, "PRD-atlas-edges.md");
    assert_eq!(edges[0].to, "PRD-atlas-core.md");
    assert_eq!(edges[0].kind, EdgeKind::Gossip);
    assert_eq!(unresolved, 0);
}

#[test]
fn ac_both_disagree_endpoint_gossip_unresolved() {
    let known = make_known(&["PRD-atlas-core.md"]);
    let fp: Vec<(String, String)> = Vec::new();
    let (edges, unresolved) =
        parse_gossip_edges(GOSSIP, "Order: atlas-core \u{2192} atlas-edges\n", &known, &fp);
    assert!(edges.is_empty(), "unresolved endpoint must produce no edge");
    assert_eq!(unresolved, 1);
}

#[test]
fn gossip_chain_and_continuation_lines() {
    let known = make_known(&["PRD-a.md", "PRD-b.md", "PRD-c.md", "PRD-d.md", "PRD-e.md"]);
    let fp: Vec<(String, String)> = Vec::new();
    let text = "notes\nOrder: a -> b (FIRST) -> c\n  c || d -> e\nunrelated line\nb -> a\n";
    let (edges, unresolved) = parse_gossip_edges(GOSSIP, text, &known, &fp);
    let pairs: Vec<(String, String, String)> = edges
        .iter()
        .map(|e| (e.from.clone(), e.to.clone(), e.source.clone()))
        .collect();
    assert_eq!(
        pairs,
        vec![
            ("PRD-b.md".to_string(), "PRD-a.md".to_string(), "gossip.md:2".to_string()),
            ("PRD-c.md".to_string(), "PRD-b.md".to_string(), "gossip.md:2".to_string()),
            ("PRD-d.md".to_string(), "PRD-c.md".to_string(), "gossip.md:3".to_string()),
            ("PRD-e.md".to_string(), "PRD-d.md".to_string(), "gossip.md:3".to_string()),
        ]
    );
    assert_eq!(unresolved, 0);
}

#[test]
fn gossip_pairs_declared_by_frontmatter_are_dropped() {
    let known = make_known(&["PRD-a.md", "PRD-b.md"]);
    let fp = vec![("PRD-b.md".to_string(), "PRD-a.md".to_string())];
    let (edges, unresolved) = parse_gossip_edges(GOSSIP, "Order: a -> b\n", &known, &fp);
    assert!(edges.is_empty());
    assert_eq!(unresolved, 0, "a dropped duplicate is not unresolved");
}

#[test]
fn gossip_noise_words_and_uppercase_slugs() {
    let known = make_known(&["PRD-core.md", "PRD-tool-2.md"]);
    let fp: Vec<(String, String)> = Vec::new();
    let (edges, _) = parse_gossip_edges(GOSSIP, "Order: INDEPENDENT core -> { Tool-2 }\n", &known, &fp);
    assert_eq!(edges.len(), 1);
    assert_eq!(edges[0].from, "PRD-tool-2.md");
    assert_eq!(edges[0].to, "PRD-core.md");
}

#[test]
fn gossip_punctuation_around_slugs_is_trimmed() {
    let known = make_known(&["PRD-core.md", "PRD-tool-2.md"]);
    let fp: Vec<(String, String)> = Vec::new();
    let (edges, unresolved) = parse_gossip_edges(GOSSIP, "Order: `core`; -> tool-2.\n", &known, &fp);
    assert_eq!(unresolved, 0);
    assert_eq!(edges.len(), 1);
    assert_eq!(edges[0].from, "PRD-tool-2.md");
    assert_eq!(edges[0].to, "PRD-core.md");
}

#[test]
fn gossip_without_file_name_is_sourced_as_gossip_md() {
    let known = make_known(&["PRD-a.md", "PRD-b.md"]);
    let fp: Vec<(String, String)> = Vec::new();
    let (edges, _) = parse_gossip_edges("/", "x\nOrder:\n a -> b\n", &known, &fp);
    assert_eq!(edges.len(), 1);
    assert_eq!(edges[0].source, "gossip.md:3");
}

// ── both sources ─────────────────────────────────────────────────────────────

#[test]
fn ac_both_agree_frontmatter_wins() {
    let known = make_known(&["PRD-atlas-core.md", "PRD-atlas-edges.md"]);
    let files = Some(vec![
        prd_file("PRD-atlas-edges.md", Some("PRD-atlas-core.md")),
        prd_file("PRD-atlas-core.md", Some("none")),
    ]);
    let gossip = GossipText::Read("Order: atlas-core \u{2192} atlas-edges\n".to_string());
    let edge_set = load_edges(DIR, &files, GOSSIP, &gossip, &known).unwrap();
    assert_eq!(edge_set.edges.len(), 1, "dedup: exactly one edge");
    assert_eq!(edge_set.edges[0].kind, EdgeKind::Frontmatter);
}

#[test]
fn load_edges_counts_unresolved_of_both_sources() {
    let known = make_known(&["PRD-a.md", "PRD-b.md"]);
    let files = Some(vec![prd_file("PRD-a.md", Some("PRD-x.md, PRD-b.md"))]);
    let gossip = GossipText::Read("Order: a -> zz\nOrder: b -> a\n".to_string());
    let edge_set = load_edges(DIR, &files, GOSSIP, &gossip, &known).unwrap();
    assert_eq!(edge_set.unresolved, 2);
    assert_eq!(edge_set.edges.len(), 1, "gossip b -> a repeats the frontmatter pair");
}

#[test]
fn load_edges_errors_and_missing_gossip() {
    let known = make_known(&["PRD-a.md"]);
    let none: Option<Vec<DirFile>> = None;
    assert_eq!(
        load_edges(DIR, &none, GOSSIP, &GossipText::Missing, &known).unwrap_err(),
        EdgeLoadError::UnreadableDir
    );
    let empty = Some(Vec::new());
    assert_eq!(
        load_edges(DIR, &empty, GOSSIP, &GossipText::Unreadable, &known).unwrap_err(),
        EdgeLoadError::UnreadableGossip
    );
    let set = load_edges(DIR, &empty, GOSSIP, &GossipText::Missing, &known).unwrap();
    assert!(set.edges.is_empty());
    assert_eq!(set.unresolved, 0);
}

// ── normalise_prd_filename ───────────────────────────────────────────────────

#[test]
fn normalise_slug_to_filename() {
    assert_eq!(normalise_prd_filename("atlas-core"), "PRD-atlas-core.md");
    assert_eq!(normalise_prd_filename("PRD-atlas-core.md"), "PRD-atlas-core.md");
    assert_eq!(normalise_prd_filename("PRD-atlas-core"), "PRD-atlas-core.md");
}

#[test]
fn normalise_keeps_md_in_any_case_and_trims() {
    assert_eq!(normalise_prd_filename("  PRD-x.MD "), "PRD-x.MD");
    assert_eq!(normalise_prd_filename("x.md"), "PRD-x.md.md");
}

// ── index ────────────────────────────────────────────────────────────────────

fn edge(from: &str, to: &str) -> Edge {
    Edge { from: from.to_string(), to: to.to_string(), kind: EdgeKind::Frontmatter, source: "t:1".to_string() }
}

#[test]
fn index_out_and_in_edges_select_by_endpoint() {
    let set = EdgeSet {
        edges: vec![edge("a", "b"), edge("c", "b"), edge("a", "c")],
        unresolved: 0,
    };
    let index = EdgeIndex::build(&set);
    let outs: Vec<&str> = index.out_edges(&set.edges, "a").iter().map(|e| e.to.as_str()).collect();
    assert_eq!(outs, vec!["b", "c"]);
    let ins: Vec<&str> = index.in_edges(&set.edges, "b").iter().map(|e| e.from.as_str()).collect();
    assert_eq!(ins, vec!["a", "c"]);
    assert!(index.out_edges(&set.edges, "b").is_empty());
    assert!(EdgeIndex::default().in_edges(&set.edges, "b").is_empty());
}

#[test]
fn order_pair_result_on_lowered_slugs() {
    let known = make_known(&["PRD-a.md", "PRD-b.md"]);
    let none: Vec<(String, String)> = Vec::new();
    let r = atlas::edges::order_pair_result("a", "b", &known, &none, 7).unwrap().unwrap();
    assert_eq!(r, (("PRD-b.md".to_string(), "PRD-a.md".to_string()), 7));
    assert_eq!(atlas::edges::order_pair_result("a", "zz", &known, &none, 1), Some(Err(())));
    let fp = vec![("PRD-b.md".to_string(), "PRD-a.md".to_string())];
    assert_eq!(atlas::edges::order_pair_result("a", "b", &known, &fp, 1), None);
}
