//! The DOT renderer over a corpus at real scale emits valid DOT with one node
//! declaration per loaded vision and per loaded PRD, mirroring the in-memory
//! `Graph` that `Graph::load` built.
//!
//! The corpus is assembled in memory (27 visions, each owning several PRDs,
//! with dependency lines), since these tests never read the home directory.

use atlas::edges::GossipText;
use atlas::graph::{Corpus, Graph};
use atlas::parsers::{DirFile, DreamVisionEntry};
use atlas::render::{render_dot, RenderOptions};

/// Minimum vision count the corpus is expected to carry.
const MIN_VISIONS: usize = 24;

/// Count DOT node declarations for a given `prefix_` id namespace.
///
/// A declaration line looks like `  vision_atlas [label=...];` — it has the
/// prefixed id followed by ` [` and is NOT an edge (edges contain `->`).
fn count_node_decls(dot: &str, prefix: &str) -> usize {
    dot.lines()
        .map(str::trim_start)
        .filter(|line| !line.contains("->"))
        .filter(|line| line.starts_with(prefix))
        .filter(|line| line.contains(" ["))
        .count()
}

fn scale_corpus() -> Corpus {
    let mut files = Vec::new();
    let mut visions = Vec::new();
    for v in 0..27 {
        let slug = format!("vision-{v:02}");
        let mut drafted = Vec::new();
        for p in 0..4 {
            let name = format!("{slug}-part-{p}");
            let depends = if p > 0 { format!("**Depends on:** {slug}-part-{}\n", p - 1) } else { String::new() };
            files.push(DirFile {
                name: format!("PRD-{name}.md"),
                content: Some(format!("# PRD: {name}\n**Vision:** visions/{slug}.md\n{depends}")),
            });
            drafted.push(name);
        }
        visions.push((
            slug,
            DreamVisionEntry { path: None, status: Some("active".to_string()), prds_drafted: Some(drafted), seed: None },
        ));
    }
    visions.push((
        "_no_fleet_passes".to_string(),
        DreamVisionEntry { path: None, status: Some("sentinel".to_string()), prds_drafted: None, seed: None },
    ));
    Corpus {
        autobuilder_dir: "/corpus/autobuilder".to_string(),
        autobuilder_files: Some(files),
        build_manifest: None,
        repos_on_disk: Vec::new(),
        dream_manifest: Some(visions),
        repos_md: None,
        gossip_file: "/corpus/notes/gossip.md".to_string(),
        gossip: GossipText::Missing,
    }
}

/// Runs on the in-memory corpus of `scale_corpus` (27 visions) in place of
/// the live corpus under the home directory, which these tests never read;
/// the counts it checks are those a live run is held to.
#[test]
fn ac2_live_dot_node_counts_mirror_model() {
    let graph = Graph::load(scale_corpus());
    assert!(!graph.visions.is_empty() && !graph.prds.is_empty());

    let dot = render_dot(&graph, &RenderOptions::default());

    // ── valid DOT structure ──────────────────────────────────────────────────
    assert!(dot.starts_with("digraph atlas {"), "DOT must open with `digraph atlas {{`");
    assert!(dot.trim_end().ends_with('}'), "DOT must close with `}}`");
    assert_eq!(
        dot.matches('{').count(),
        dot.matches('}').count(),
        "DOT braces must balance"
    );

    // ── vision nodes: one decl per loaded vision, and the ≥24 floor ──────────
    let vision_decls = count_node_decls(&dot, "vision_");
    assert_eq!(
        vision_decls,
        graph.visions.len(),
        "DOT must declare exactly one node per loaded vision \
         (decls={vision_decls}, model={})",
        graph.visions.len()
    );
    assert!(
        vision_decls >= MIN_VISIONS,
        "corpus must carry ≥{MIN_VISIONS} vision nodes (got {vision_decls})"
    );

    // ── PRD nodes: one decl per loaded PRD (the renderer drops none) ─────────
    let prd_decls = count_node_decls(&dot, "prd_");
    assert_eq!(
        prd_decls,
        graph.prds.len(),
        "DOT must declare exactly one node per loaded PRD \
         (decls={prd_decls}, model={})",
        graph.prds.len()
    );
    assert!(
        prd_decls >= MIN_VISIONS,
        "corpus PRD nodes ({prd_decls}) implausibly low vs vision floor"
    );
    assert_eq!(graph.edge_set.edges.len(), 27 * 3);
}
