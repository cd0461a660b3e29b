//! Text output of the query commands over a loaded fixture graph.

use atlas::args::NodeKindArg;
use atlas::edges::GossipText;
use atlas::graph::{Corpus, Graph};
use atlas::model::{EdgeKind, PrdStatus};
use atlas::output::{blocked, deps, nodes, show};
use atlas::parsers::{BuildManifestEntry, DirFile, DreamVisionEntry};

fn file(name: &str, content: &str) -> DirFile {
    DirFile { name: name.to_string(), content: Some(content.to_string()) }
}

fn dream(slug: &str, status: &str, prds: &[&str], seed: &str) -> (String, DreamVisionEntry) {
    (
        slug.to_string(),
        DreamVisionEntry {
            path: None,
            status: Some(status.to_string()),
            prds_drafted: Some(prds.iter().map(|s| s.to_string()).collect()),
            seed: Some(seed.to_string()),
        },
    )
}

/// A small corpus: two visions, three PRDs listed out of order, one shipped
/// (its repo path exists), frontmatter and gossip dependencies.
fn fixture() -> Graph {
    let files = vec![
        file("PRD-render.md", "# PRD: render\n**Vision:** visions/atlas.md\n**Depends on:** core, edges\n"),
        file("PRD-core.md", "# PRD: core\n**Vision:** visions/atlas.md\n"),
        file("PRD-edges.md", "# PRD: edges\n**Vision:** atlas\n"),
        file("notes.txt", "ignored"),
    ];
    let build = vec![BuildManifestEntry {
        path: Some("/ab/PRD-core.md".to_string()),
        output_repo_path: Some("/".to_string()),
        output_repo_url: Some("https://github.com/j0yen/atlas".to_string()),
        status: Some("shipped".to_string()),
    }];
    let visions = vec![
        dream("vigil", "active", &[], ""),
        dream("atlas", "active", &["core", "edges", "render"], "the corpus, as a graph"),
    ];
    Graph::load(Corpus {
        autobuilder_dir: "/ab".to_string(),
        autobuilder_files: Some(files),
        build_manifest: Some(build),
        repos_on_disk: vec!["/".to_string()],
        dream_manifest: Some(visions),
        repos_md: Some("- [atlas](https://github.com/j0yen/atlas) — query CLI\n".to_string()),
        gossip_file: "/notes/gossip.md".to_string(),
        gossip: GossipText::Read("Order: core -> edges\n".to_string()),
    })
}

#[test]
fn load_orders_nodes_and_resolves_edges() {
    let g = fixture();
    let slugs: Vec<&str> = g.visions.iter().map(|v| v.slug.as_str()).collect();
    assert_eq!(slugs, vec!["atlas", "vigil"]);
    let files: Vec<&str> = g.prds.iter().map(|p| p.filename.as_str()).collect();
    assert_eq!(files, vec!["PRD-core.md", "PRD-edges.md", "PRD-render.md"]);
    assert_eq!(g.prds[0].status, PrdStatus::Shipped);
    assert_eq!(g.prds[1].status, PrdStatus::Drafted);
    assert_eq!(g.visions[0].path, "/ab/visions/atlas.md");
    assert_eq!(g.edge_set.edges.len(), 3);
    assert_eq!(g.edge_set.edges[2].kind, EdgeKind::Gossip);
    assert_eq!(g.edge_set.edges[2].source, "gossip.md:1");
    assert_eq!(g.edge_set.unresolved, 0);
}

#[test]
fn nodes_text_all_kinds() {
    let g = fixture();
    let out = nodes(&g, None);
    assert_eq!(
        out,
        "vision  atlas  [active]  prds_drafted=3\n\
         vision  vigil  [active]  prds_drafted=0\n\
         prd     PRD-core.md  [shipped]  repo=https://github.com/j0yen/atlas\n\
         prd     PRD-edges.md  [drafted]\n\
         prd     PRD-render.md  [drafted]\n\
         repo    atlas  https://github.com/j0yen/atlas\n"
    );
}

#[test]
fn nodes_text_one_kind() {
    let g = fixture();
    assert_eq!(nodes(&g, Some(&NodeKindArg::Repo)), "repo    atlas  https://github.com/j0yen/atlas\n");
    assert_eq!(nodes(&g, Some(&NodeKindArg::Vision)).lines().count(), 2);
}

#[test]
fn show_known_vision_text() {
    let g = fixture();
    let out = show(&g, "atlas").unwrap();
    assert_eq!(
        out,
        "vision: atlas  [active]\n  seed: the corpus, as a graph\n  prds (3):\n    \
         PRD-core.md  [shipped]  \u{2192} https://github.com/j0yen/atlas\n    \
         PRD-edges.md  [drafted]\n    PRD-render.md  [drafted]\n"
    );
}

#[test]
fn show_unknown_vision_is_none() {
    let g = fixture();
    assert!(show(&g, "nope").is_none());
    assert_eq!(show(&g, "vigil").unwrap(), "vision: vigil  [active]\n  prds (0):\n");
}

#[test]
fn deps_lists_both_directions() {
    let g = fixture();
    let out = deps(&g, "edges").unwrap();
    assert_eq!(
        out,
        "prd: PRD-edges.md  [drafted]\n  depends on (1):\n    PRD-core.md  (gossip, gossip.md:1)\n  \
         needed by (1):\n    PRD-render.md  (frontmatter, PRD-render.md:3)\n"
    );
    assert!(deps(&g, "PRD-ghost.md").is_none());
}

#[test]
fn blocked_lists_unshipped_prerequisites() {
    let g = fixture();
    assert_eq!(blocked(&g), "PRD-render.md  [drafted]  waits on: PRD-edges.md [drafted]\n");
}

#[test]
fn nodes_of_kind_selects_lists() {
    let g = fixture();
    let (v, p, r) = atlas::output::nodes_of_kind(&g, Some(&NodeKindArg::Prd));
    assert!(v.is_empty() && r.is_empty());
    assert_eq!(p.len(), 3);
    let (v, p, r) = atlas::output::nodes_of_kind(&g, None);
    assert_eq!((v.len(), p.len(), r.len()), (2, 3, 1));
}

#[test]
fn blocked_list_gives_blockers_with_statuses() {
    let g = fixture();
    let list = atlas::output::blocked_list(&g);
    assert_eq!(list.len(), 1);
    assert_eq!(list[0].0.filename, "PRD-render.md");
    assert_eq!(list[0].1.len(), 1);
    assert_eq!(list[0].1[0].0.to, "PRD-edges.md");
    assert_eq!(list[0].1[0].1, Some(PrdStatus::Drafted));
}
