//! AC3: PRD nodes parsing; AC4: atlas show; AC5: status derivation;
//! AC8: source paths are plain values that fixtures can set.
//!
//! All tests drive the parsers off fixture inputs — never the live corpus.

use atlas::edges::GossipText;
use atlas::graph::{Corpus, Graph};
use atlas::model::{PrdNode, PrdStatus};
use atlas::parsers::{
    parse_build_manifest, repo_paths, scan_prd_nodes, BuildManifestEntry, BuildMap, DirFile, DreamVisionEntry,
    Sources,
};

// ── fixture helpers ──────────────────────────────────────────────────────────

const AB: &str = "/tmp/fixture/autobuilder";

fn prd_file(filename: &str, content: &str) -> DirFile {
    DirFile { name: filename.to_string(), content: Some(content.to_string()) }
}

fn make_dream_manifest(visions: &[(&str, &str, &[&str])]) -> Vec<(String, DreamVisionEntry)> {
    let mut entries: Vec<(String, DreamVisionEntry)> = visions
        .iter()
        .map(|(slug, status, prds)| {
            (
                slug.to_string(),
                DreamVisionEntry {
                    path: Some(format!("visions/{}.md", slug)),
                    status: Some(status.to_string()),
                    prds_drafted: Some(prds.iter().map(|p| p.to_string()).collect()),
                    seed: Some(format!("seed for {}", slug)),
                },
            )
        })
        .collect();
    // Always include the sentinel that should be excluded.
    entries.push((
        "_no_fleet_passes".to_string(),
        DreamVisionEntry {
            path: None,
            status: Some("sentinel".to_string()),
            prds_drafted: Some(Vec::new()),
            seed: Some(String::new()),
        },
    ));
    entries
}

fn make_build_manifest(entries: &[(&str, Option<&str>, Option<&str>)]) -> Vec<BuildManifestEntry> {
    // entries: (prd_filename, output_repo_path, output_repo_url)
    entries
        .iter()
        .map(|(name, repo_path, repo_url)| BuildManifestEntry {
            path: Some(format!("/autobuilder/{}", name)),
            output_repo_path: repo_path.map(|p| p.to_string()),
            output_repo_url: repo_url.map(|u| u.to_string()),
            status: None,
        })
        .collect()
}

fn make_repos_md(repos: &[(&str, &str, &str)]) -> String {
    let mut content = String::from("# Repos\n\n");
    for (name, url, desc) in repos {
        content.push_str(&format!("- [{name}]({url}) — {desc}\n"));
    }
    content
}

/// The repo paths of the manifest entries that exist on disk.
fn on_disk(build: &Vec<BuildManifestEntry>) -> Vec<String> {
    repo_paths(build).into_iter().filter(|p| std::path::Path::new(p).exists()).collect()
}

fn corpus(files: Vec<DirFile>, dream: Vec<(String, DreamVisionEntry)>, build: Vec<BuildManifestEntry>, repos: String) -> Corpus {
    Corpus {
        autobuilder_dir: AB.to_string(),
        autobuilder_files: Some(files),
        repos_on_disk: on_disk(&build),
        build_manifest: Some(build),
        dream_manifest: Some(dream),
        repos_md: Some(repos),
        gossip_file: "/tmp/fixture/gossip.md".to_string(),
        gossip: GossipText::Missing,
    }
}

// ── AC3: PRD nodes parsing ───────────────────────────────────────────────────

/// AC3: scan_prd_nodes parses PRDs, assigns filenames/titles, survives missing fields.
#[test]
fn ac3_prd_nodes_parsed_correctly() {
    let files = vec![
        prd_file(
            "PRD-atlas-core.md",
            r#"# PRD: atlas-core — the corpus as a graph

**Author:** /dream
**Status:** Draft v0.1
**Vision:** visions/atlas.md
**build_target:** rust-cli
**build_into:** /home/jsy/wintermute/atlas
"#,
        ),
        prd_file("PRD-minimal.md", "# PRD: minimal\n\nNo frontmatter fields here.\n"),
        // Non-PRD file — should be skipped.
        prd_file("README.md", "not a PRD"),
    ];

    let build_map = BuildMap::new();
    let nodes = scan_prd_nodes(AB, &files, &build_map, &Vec::new());

    assert_eq!(nodes.len(), 2, "expected 2 PRD nodes (README skipped)");

    // Sorted by filename.
    assert_eq!(nodes[0].filename, "PRD-atlas-core.md");
    assert_eq!(nodes[0].title, "atlas-core — the corpus as a graph");
    assert_eq!(nodes[0].vision, "atlas");
    assert_eq!(nodes[0].build_target, "rust-cli");
    assert_eq!(nodes[0].build_into, "/home/jsy/wintermute/atlas");
    assert_eq!(nodes[0].status, PrdStatus::Drafted);

    assert_eq!(nodes[1].filename, "PRD-minimal.md");
    assert_eq!(nodes[1].title, "minimal");
    assert!(nodes[1].vision.is_empty());
    assert!(nodes[1].build_target.is_empty());
    assert_eq!(nodes[1].status, PrdStatus::Drafted);
}

/// AC3: parser never panics on any PRD in a fixture set.
#[test]
fn ac3_parser_tolerant_on_edge_cases() {
    let files = vec![
        // PRD with code fence that contains fake frontmatter.
        prd_file(
            "PRD-fenced.md",
            r#"# PRD: fenced-test — verify code-fence skip

```markdown
**Vision:** visions/should-be-ignored.md
**build_target:** should-be-ignored
```

**Vision:** visions/real.md
**build_target:** rust-lib
"#,
        ),
        // Empty PRD.
        prd_file("PRD-empty.md", ""),
        // PRD with no H1.
        prd_file("PRD-no-h1.md", "**Vision:** visions/v.md\n"),
    ];

    let build_map = BuildMap::new();
    let nodes = scan_prd_nodes(AB, &files, &build_map, &Vec::new());

    assert_eq!(nodes.len(), 3);

    let fenced = nodes.iter().find(|n| n.filename == "PRD-fenced.md").unwrap();
    assert_eq!(fenced.vision, "real", "code-fence content must be skipped");
    assert_eq!(fenced.build_target, "rust-lib");

    let no_h1 = nodes.iter().find(|n| n.filename == "PRD-no-h1.md").unwrap();
    assert!(no_h1.title.is_empty(), "no H1 → empty title");
    assert_eq!(no_h1.vision, "v");
}

// ── AC5: status derivation ───────────────────────────────────────────────────

/// AC5: a PRD with output_repo_path that exists on disk derives Shipped.
#[test]
fn ac5_shipped_when_repo_path_exists() {
    // A real directory so the path-exists check passes.
    let repo_dir = tempfile::TempDir::new().unwrap();

    let files = vec![prd_file("PRD-shipped.md", "# PRD: shipped — test\n\n**Vision:** visions/v.md\n")];

    let build_manifest = make_build_manifest(&[(
        "PRD-shipped.md",
        Some(repo_dir.path().to_str().unwrap()),
        Some("https://github.com/j0yen/fake-repo"),
    )]);
    let present = on_disk(&build_manifest);
    let build_map = parse_build_manifest(build_manifest);
    let nodes = scan_prd_nodes(AB, &files, &build_map, &present);

    let shipped = nodes.iter().find(|n| n.filename == "PRD-shipped.md").unwrap();
    assert_eq!(shipped.status, PrdStatus::Shipped);
    assert_eq!(shipped.repo_url, "https://github.com/j0yen/fake-repo");
}

/// AC5: a PRD with no manifest entry derives Drafted.
#[test]
fn ac5_drafted_when_no_manifest_entry() {
    let files = vec![prd_file("PRD-draft.md", "# PRD: draft\n")];
    let build_map = BuildMap::new();
    let nodes = scan_prd_nodes(AB, &files, &build_map, &Vec::new());
    assert_eq!(nodes[0].status, PrdStatus::Drafted);
}

/// AC5: a PRD with manifest entry but no existing repo path derives InFlight.
#[test]
fn ac5_in_flight_when_manifest_but_no_path() {
    let files = vec![prd_file("PRD-inflight.md", "# PRD: inflight\n")];
    let build_manifest = make_build_manifest(&[("PRD-inflight.md", Some("/nonexistent/path"), None)]);
    let present = on_disk(&build_manifest);
    let build_map = parse_build_manifest(build_manifest);
    let nodes = scan_prd_nodes(AB, &files, &build_map, &present);
    assert_eq!(nodes[0].status, PrdStatus::InFlight);
}

// ── AC4: atlas show ──────────────────────────────────────────────────────────

/// AC4: Graph::load finds the PRDs of a known vision slug.
#[test]
fn ac4_show_known_vision() {
    let files = vec![
        prd_file("PRD-atlas-core.md", "# PRD: atlas-core — core\n\n**Vision:** visions/atlas.md\n"),
        prd_file("PRD-atlas-edges.md", "# PRD: atlas-edges — edges\n\n**Vision:** visions/atlas.md\n"),
        prd_file("PRD-other.md", "# PRD: other — unrelated\n\n**Vision:** visions/other.md\n"),
    ];
    let dream = make_dream_manifest(&[
        ("atlas", "active", &["atlas-core", "atlas-edges"]),
        ("other", "active", &["other"]),
    ]);
    let graph = Graph::load(corpus(files, dream, make_build_manifest(&[]), make_repos_md(&[])));

    // Find atlas vision.
    let atlas_vision = graph.visions.iter().find(|v| v.slug == "atlas");
    assert!(atlas_vision.is_some(), "atlas vision must be present");

    // Find PRDs owned by atlas.
    let atlas_prds: Vec<&PrdNode> = graph.prds.iter().filter(|p| p.vision == "atlas").collect();
    assert_eq!(atlas_prds.len(), 2, "atlas vision should own 2 PRDs");

    let filenames: Vec<&str> = atlas_prds.iter().map(|p| p.filename.as_str()).collect();
    assert!(filenames.contains(&"PRD-atlas-core.md"));
    assert!(filenames.contains(&"PRD-atlas-edges.md"));

    // PRD for 'other' must not appear under 'atlas'.
    assert!(!filenames.contains(&"PRD-other.md"));
}

// ── AC8: source paths ────────────────────────────────────────────────────────

/// AC8: Sources holds arbitrary paths; every one of them can be set by a fixture.
#[test]
fn ac8_sources_struct_accepts_arbitrary_paths() {
    let sources = Sources {
        autobuilder_dir: String::from("/tmp/test-ab"),
        build_manifest: String::from("/tmp/test-bm.json"),
        dream_manifest: String::from("/tmp/test-dm.json"),
        repos_md: String::from("/tmp/test-repos.md"),
        gossip_file: String::from("/tmp/test-gossip.md"),
    };

    assert_eq!(sources.autobuilder_dir.as_str(), "/tmp/test-ab");
    assert_eq!(sources.build_manifest.as_str(), "/tmp/test-bm.json");
    assert_eq!(sources.dream_manifest.as_str(), "/tmp/test-dm.json");
    assert_eq!(sources.repos_md.as_str(), "/tmp/test-repos.md");
}

/// AC8: Graph::load works from fixture inputs (not the live corpus).
#[test]
fn ac8_graph_load_uses_fixture_sources() {
    let files = vec![prd_file("PRD-fixture.md", "# PRD: fixture — test\n\n**Vision:** visions/test.md\n")];
    let dream = make_dream_manifest(&[("test", "active", &["fixture"])]);
    let repos = make_repos_md(&[("fixture-repo", "https://github.com/j0yen/fixture-repo", "test")]);

    let graph = Graph::load(corpus(files, dream, make_build_manifest(&[]), repos));

    assert_eq!(graph.prds.len(), 1, "one PRD from fixture");
    assert_eq!(graph.visions.len(), 1, "one vision from fixture (sentinel excluded)");
    assert_eq!(graph.repos.len(), 1, "one repo from fixture REPOS.md");
    assert_eq!(graph.prds[0].filename, "PRD-fixture.md");
    assert_eq!(graph.visions[0].slug, "test");
    assert_eq!(graph.repos[0].name, "fixture-repo");
}

/// The loaded graph's statuses follow the manifest and the disk answers,
/// and its edges point only at loaded PRDs.
#[test]
fn load_status_follows_disk_answers_and_edges_join_prds() {
    let files = vec![
        prd_file("PRD-a.md", "# PRD: a\n**Depends on:** b, nowhere\n"),
        prd_file("PRD-b.md", "# PRD: b\n"),
        prd_file("PRD-c.md", "# PRD: c\n"),
    ];
    let build = make_build_manifest(&[
        ("PRD-a.md", Some("/srv/a"), Some("https://r/a")),
        ("PRD-b.md", Some("/srv/b"), None),
    ]);
    let g = Graph::load(Corpus {
        autobuilder_dir: AB.to_string(),
        autobuilder_files: Some(files),
        build_manifest: Some(build),
        repos_on_disk: vec!["/srv/a".to_string(), "/srv/elsewhere".to_string()],
        dream_manifest: None,
        repos_md: None,
        gossip_file: "/tmp/fixture/gossip.md".to_string(),
        gossip: GossipText::Read("Order: c -> a\n".to_string()),
    });
    let statuses: Vec<PrdStatus> = g.prds.iter().map(|p| p.status).collect();
    assert_eq!(statuses, vec![PrdStatus::Shipped, PrdStatus::InFlight, PrdStatus::Drafted]);
    assert_eq!(g.prds[0].repo_path, "/srv/a");
    assert_eq!(g.prds[1].repo_path, "/srv/b");
    let names: Vec<&str> = g.prds.iter().map(|p| p.filename.as_str()).collect();
    for e in &g.edge_set.edges {
        assert!(names.contains(&e.to.as_str()), "edge to an unloaded PRD: {e:?}");
    }
    assert_eq!(g.edge_set.edges.len(), 2);
    assert_eq!(g.edge_set.unresolved, 1);
}
