//! PRD frontmatter, REPOS.md, the manifests, status derivation and source
//! resolution.

use atlas::model::PrdStatus;
use atlas::parsers::{
    derive_prd_status, dream_entries_to_vision_nodes, parse_build_manifest, parse_dream_manifest,
    parse_prd_frontmatter, parse_repos_md, parse_repos_md_line, repo_paths, status_for_entry,
    strip_vision_path, BuildManifestEntry, BuildMap, DreamVisionEntry, SourceEnv, Sources,
    SourcesError,
};

// ── PRD frontmatter ──────────────────────────────────────────────────────────

#[test]
fn test_parse_prd_frontmatter_full() {
    let content = r#"# PRD: atlas-core — the corpus, as a graph

**Author:** /dream
**Status:** Draft v0.1
**Vision:** visions/atlas.md
**build_target:** rust-cli
**build_into:** /home/jsy/wintermute/atlas
"#;
    let fm = parse_prd_frontmatter(content);
    assert_eq!(fm.title, "atlas-core — the corpus, as a graph");
    assert_eq!(fm.vision, "atlas");
    assert_eq!(fm.build_target, "rust-cli");
    assert_eq!(fm.build_into, "/home/jsy/wintermute/atlas");
}

#[test]
fn test_parse_prd_frontmatter_missing_fields() {
    let content = "# PRD: minimal\n\nSome body text.\n";
    let fm = parse_prd_frontmatter(content);
    assert_eq!(fm.title, "minimal");
    assert!(fm.vision.is_empty());
    assert!(fm.build_target.is_empty());
}

#[test]
fn test_parse_prd_frontmatter_skips_code_blocks() {
    let content = r#"# PRD: test

```
**Vision:** visions/fake.md
**build_target:** should-be-ignored
```

**Vision:** visions/real.md
**build_target:** rust-cli
"#;
    let fm = parse_prd_frontmatter(content);
    assert_eq!(fm.vision, "real");
    assert_eq!(fm.build_target, "rust-cli");
}

#[test]
fn frontmatter_first_value_wins_and_comments_are_cut() {
    let content = "**build_target:** rust-lib # was rust-cli\n**build_target:** other\n# PRD: late title\n";
    let fm = parse_prd_frontmatter(content);
    assert_eq!(fm.build_target, "rust-lib");
    assert_eq!(fm.title, "late title");
    assert!(fm.build_into.is_empty());
}

#[test]
fn test_strip_vision_path() {
    assert_eq!(strip_vision_path("visions/atlas.md"), "atlas");
    assert_eq!(strip_vision_path("atlas"), "atlas");
    assert_eq!(strip_vision_path("visions/foo-bar.md"), "foo-bar");
}

// ── REPOS.md ─────────────────────────────────────────────────────────────────

#[test]
fn test_parse_repos_md_line_standard() {
    let line = "- [atlas](https://github.com/j0yen/atlas) — corpus query CLI";
    let node = parse_repos_md_line(line).unwrap();
    assert_eq!(node.name, "atlas");
    assert_eq!(node.url, "https://github.com/j0yen/atlas");
    assert_eq!(node.description, "corpus query CLI");
}

#[test]
fn test_parse_repos_md_line_no_description() {
    let line = "- [foo](https://github.com/j0yen/foo)";
    let node = parse_repos_md_line(line).unwrap();
    assert_eq!(node.name, "foo");
    assert!(node.description.is_empty());
}

#[test]
fn test_parse_repos_md_line_header_skipped() {
    let line = "## Category";
    assert!(parse_repos_md_line(line).is_none());
}

#[test]
fn repos_md_bold_link_star_item_and_dash_description() {
    let node = parse_repos_md_line("  * **[vigil](https://x.test/vigil)** - the watcher").unwrap();
    assert_eq!(node.name, "vigil");
    assert_eq!(node.url, "https://x.test/vigil");
    assert_eq!(node.description, "** - the watcher");
    assert!(parse_repos_md_line("- no link here").is_none());
}

#[test]
fn repos_md_keeps_list_items_in_order() {
    let text = "# Repos\n\n- [a](u1) — first\nprose\n- [b](u2)\n";
    let repos = parse_repos_md(text);
    assert_eq!(repos.len(), 2);
    assert_eq!(repos[0].name, "a");
    assert_eq!(repos[0].description, "first");
    assert_eq!(repos[1].url, "u2");
}

// ── build manifest and status ────────────────────────────────────────────────

fn entry(path: Option<&str>, repo_path: Option<&str>, repo_url: Option<&str>, status: Option<&str>) -> BuildManifestEntry {
    BuildManifestEntry {
        path: path.map(|s| s.to_string()),
        output_repo_path: repo_path.map(|s| s.to_string()),
        output_repo_url: repo_url.map(|s| s.to_string()),
        status: status.map(|s| s.to_string()),
    }
}

#[test]
fn test_derive_prd_status_no_entry() {
    let map = BuildMap::new();
    let (status, url, path) = derive_prd_status("PRD-foo.md", &map, &Vec::new());
    assert_eq!(status, PrdStatus::Drafted);
    assert!(url.is_empty());
    assert!(path.is_empty());
}

#[test]
fn test_derive_prd_status_in_flight() {
    let mut map = BuildMap::new();
    map.insert(
        "PRD-foo.md".to_string(),
        BuildManifestEntry {
            path: Some("/autobuilder/PRD-foo.md".to_string()),
            output_repo_path: None,
            output_repo_url: None,
            status: Some("in_progress".to_string()),
        },
    );
    let (status, _, _) = derive_prd_status("PRD-foo.md", &map, &Vec::new());
    assert_eq!(status, PrdStatus::InFlight);
}

#[test]
fn derive_prd_status_shipped_only_on_disk() {
    let tmp = tempfile::TempDir::new().unwrap();
    let here = tmp.path().to_str().unwrap().to_string();
    let entries = vec![
        entry(Some("PRD-a.md"), Some(&here), Some("https://r/a"), None),
        entry(Some("PRD-b.md"), Some("/nonexistent/b"), None, Some("shipped")),
        entry(Some("PRD-c.md"), Some("/nonexistent/c"), None, None),
        entry(Some("PRD-d.md"), Some(""), None, None),
    ];
    let probed = repo_paths(&entries);
    assert_eq!(probed, vec![here.clone(), "/nonexistent/b".to_string(), "/nonexistent/c".to_string()]);
    let present: Vec<String> = probed.into_iter().filter(|p| std::path::Path::new(p).exists()).collect();
    assert_eq!(present, vec![here.clone()]);
    let map = parse_build_manifest(entries);
    let (a, url, path) = derive_prd_status("PRD-a.md", &map, &present);
    assert_eq!(a, PrdStatus::Shipped);
    assert_eq!(url, "https://r/a");
    assert_eq!(path, here);
    assert_eq!(derive_prd_status("PRD-b.md", &map, &present).0, PrdStatus::InFlight, "a manifest mark without the repo on disk is not shipped");
    assert_eq!(derive_prd_status("PRD-c.md", &map, &present).0, PrdStatus::InFlight);
    assert_eq!(derive_prd_status("PRD-d.md", &map, &present).0, PrdStatus::InFlight);
}

#[test]
fn derive_prd_status_checks_the_entry_own_path() {
    let mut map = BuildMap::new();
    map.insert("PRD-a.md".to_string(), entry(None, Some("/srv/a"), Some("https://r/a"), None));
    map.insert("PRD-b.md".to_string(), entry(None, Some("/srv/b"), None, None));
    let present = vec!["/srv/b".to_string(), "/".to_string()];
    assert_eq!(derive_prd_status("PRD-a.md", &map, &present).0, PrdStatus::InFlight);
    let (b, _, path) = derive_prd_status("PRD-b.md", &map, &present);
    assert_eq!(b, PrdStatus::Shipped);
    assert_eq!(path, "/srv/b");
    assert_eq!(derive_prd_status("PRD-z.md", &map, &present).0, PrdStatus::Drafted);
}

#[test]
fn status_for_entry_by_disk_answer() {
    let e = entry(None, Some("/p"), Some("u"), None);
    assert_eq!(status_for_entry(Some(&e), true).0, PrdStatus::Shipped);
    assert_eq!(status_for_entry(Some(&e), false).0, PrdStatus::InFlight);
    assert_eq!(status_for_entry(None, true).0, PrdStatus::Drafted);
    let empty = entry(None, Some(""), None, None);
    assert_eq!(status_for_entry(Some(&empty), true).0, PrdStatus::InFlight);
}

#[test]
fn build_manifest_keys_by_basename_later_wins() {
    let map = parse_build_manifest(vec![
        entry(Some("/autobuilder/PRD-x.md"), None, Some("first"), None),
        entry(None, None, Some("pathless"), None),
        entry(Some("PRD-x.md"), None, Some("second"), None),
        entry(Some("/a/b/"), None, Some("dir"), None),
    ]);
    assert_eq!(map.get("PRD-x.md").unwrap().output_repo_url.as_deref(), Some("second"));
    assert_eq!(map.get("b").unwrap().output_repo_url.as_deref(), Some("dir"));
    assert!(map.get("pathless").is_none());
}

// ── dream manifest ───────────────────────────────────────────────────────────

fn dream(path: Option<&str>, status: &str, prds: &[&str]) -> DreamVisionEntry {
    DreamVisionEntry {
        path: path.map(|s| s.to_string()),
        status: Some(status.to_string()),
        prds_drafted: Some(prds.iter().map(|s| s.to_string()).collect()),
        seed: None,
    }
}

#[test]
fn dream_sentinel_dropped_and_nodes_sorted_by_slug() {
    let entries = vec![
        ("vigil".to_string(), dream(None, "active", &[])),
        ("_no_fleet_passes".to_string(), dream(None, "sentinel", &[])),
        ("atlas".to_string(), dream(Some("visions/atlas.md"), "active", &["atlas-core"])),
    ];
    let kept = parse_dream_manifest(entries);
    assert_eq!(kept.len(), 2);
    let nodes = dream_entries_to_vision_nodes(kept, "/ab");
    assert_eq!(nodes[0].slug, "atlas");
    assert_eq!(nodes[0].path, "visions/atlas.md");
    assert_eq!(nodes[0].prds_drafted, vec!["atlas-core".to_string()]);
    assert_eq!(nodes[1].slug, "vigil");
    assert_eq!(nodes[1].path, "/ab/visions/vigil.md");
    assert!(nodes[1].seed.is_empty());
}

// ── source resolution ────────────────────────────────────────────────────────

fn env(home: Option<&str>) -> SourceEnv {
    SourceEnv {
        home: home.map(|s| s.to_string()),
        autobuilder: None,
        build_manifest: None,
        dream_manifest: Some("/srv/dream.json".to_string()),
        repos: Some("/elsewhere/REPOS.md".to_string()),
        gossip: None,
    }
}

#[test]
fn sources_from_env_defaults_and_overrides() {
    let s = Sources::from_env(&env(Some("/home/u"))).unwrap();
    assert_eq!(s.autobuilder_dir, "/home/u/wintermute/autobuilder");
    assert_eq!(s.build_manifest, "");
    assert_eq!(s.dream_manifest, "/srv/dream.json");
    assert_eq!(s.repos_md, "/elsewhere/REPOS.md");
    assert_eq!(s.gossip_file, "/home/u/wintermute/notes/gossip.md");
}

#[test]
fn sources_from_env_needs_home() {
    assert_eq!(Sources::from_env(&env(None)).unwrap_err(), SourcesError::HomeNotSet);
}
