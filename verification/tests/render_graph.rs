//! The DOT, Mermaid and tree renderers over small fixture graphs.

use atlas::edges::{EdgeIndex, EdgeSet};
use atlas::graph::Graph;
use atlas::model::{Edge, EdgeKind, PrdNode, PrdStatus, RepoNode, VisionNode};
use atlas::render::{render_dot, render_mermaid, render_tree, safe_id, RenderOptions};

fn make_graph(
    visions: Vec<VisionNode>,
    prds: Vec<PrdNode>,
    repos: Vec<RepoNode>,
    edges: Vec<Edge>,
) -> Graph {
    let edge_set = EdgeSet { edges, unresolved: 0 };
    let edge_index = EdgeIndex::build(&edge_set);
    Graph { visions, prds, repos, edge_set, edge_index }
}

fn vision(slug: &str) -> VisionNode {
    VisionNode {
        slug: slug.to_string(),
        path: String::new(),
        status: "active".to_string(),
        prds_drafted: Vec::new(),
        seed: String::new(),
    }
}

fn prd(filename: &str, vision: &str, status: PrdStatus) -> PrdNode {
    PrdNode {
        filename: filename.to_string(),
        title: filename.to_string(),
        vision: vision.to_string(),
        build_target: "rust-extend".to_string(),
        build_into: String::new(),
        status,
        repo_url: String::new(),
        repo_path: String::new(),
    }
}

fn prd_shipped(filename: &str, vision: &str, repo_url: &str) -> PrdNode {
    PrdNode {
        filename: filename.to_string(),
        title: filename.to_string(),
        vision: vision.to_string(),
        build_target: "rust-extend".to_string(),
        build_into: String::new(),
        status: PrdStatus::Shipped,
        repo_url: repo_url.to_string(),
        repo_path: String::new(),
    }
}

fn edge(from: &str, to: &str, kind: EdgeKind) -> Edge {
    Edge {
        from: from.to_string(),
        to: to.to_string(),
        kind,
        source: "test:1".to_string(),
    }
}

// ── safe_id ──────────────────────────────────────────────────────────────

#[test]
fn safe_id_replaces_hyphens_and_dots() {
    assert_eq!(safe_id("PRD-atlas-core.md"), "PRD_atlas_core_md");
    assert_eq!(safe_id("atlas_core"), "atlas_core");
}

// ── DOT renderer ─────────────────────────────────────────────────────────

#[test]
fn dot_contains_digraph_wrapper() {
    let g = make_graph(vec![], vec![], vec![], vec![]);
    let dot = render_dot(&g, &RenderOptions::default());
    assert!(dot.starts_with("digraph atlas {"), "DOT must start with digraph");
    assert!(dot.ends_with("}\n"), "DOT must end with }}\\n");
}

#[test]
fn dot_includes_vision_and_prd_nodes() {
    let g = make_graph(
        vec![vision("atlas")],
        vec![prd("PRD-atlas-core.md", "atlas", PrdStatus::Shipped)],
        vec![],
        vec![],
    );
    let dot = render_dot(&g, &RenderOptions::default());
    assert!(dot.contains("vision_atlas"), "vision node must appear");
    assert!(
        dot.contains("prd_PRD_atlas_core_md"),
        "prd node must appear: {dot}"
    );
}

#[test]
fn dot_dep_edge_frontmatter_solid() {
    let g = make_graph(
        vec![vision("atlas")],
        vec![
            prd("PRD-atlas-render.md", "atlas", PrdStatus::InFlight),
            prd("PRD-atlas-core.md", "atlas", PrdStatus::Shipped),
        ],
        vec![],
        vec![edge(
            "PRD-atlas-render.md",
            "PRD-atlas-core.md",
            EdgeKind::Frontmatter,
        )],
    );
    let dot = render_dot(&g, &RenderOptions::default());
    // Frontmatter edge: no "dashed" style.
    let has_edge = dot.contains("prd_PRD_atlas_render_md -> prd_PRD_atlas_core_md;");
    assert!(has_edge, "frontmatter edge must be present: {dot}");
}

#[test]
fn dot_dep_edge_gossip_dashed() {
    let g = make_graph(
        vec![vision("atlas")],
        vec![
            prd("PRD-atlas-render.md", "atlas", PrdStatus::InFlight),
            prd("PRD-atlas-core.md", "atlas", PrdStatus::Shipped),
        ],
        vec![],
        vec![edge(
            "PRD-atlas-render.md",
            "PRD-atlas-core.md",
            EdgeKind::Gossip,
        )],
    );
    let dot = render_dot(&g, &RenderOptions::default());
    assert!(
        dot.contains("[style=dashed]"),
        "gossip edge must be dashed: {dot}"
    );
}

#[test]
fn dot_shipped_only_excludes_drafted() {
    let g = make_graph(
        vec![vision("atlas")],
        vec![
            prd("PRD-atlas-render.md", "atlas", PrdStatus::Drafted),
            prd("PRD-atlas-core.md", "atlas", PrdStatus::Shipped),
        ],
        vec![],
        vec![],
    );
    let dot = render_dot(
        &g,
        &RenderOptions {
            shipped_only: true,
            vision_filter: None,
        },
    );
    assert!(
        !dot.contains("prd_PRD_atlas_render_md"),
        "drafted PRD must be absent in shipped_only mode"
    );
    assert!(
        dot.contains("prd_PRD_atlas_core_md"),
        "shipped PRD must be present"
    );
}

#[test]
fn dot_vision_filter_scopes_output() {
    let g = make_graph(
        vec![vision("atlas"), vision("vigil")],
        vec![
            prd("PRD-atlas-core.md", "atlas", PrdStatus::Shipped),
            prd("PRD-vigil-core.md", "vigil", PrdStatus::Shipped),
        ],
        vec![],
        vec![],
    );
    let dot = render_dot(
        &g,
        &RenderOptions {
            vision_filter: Some("atlas".to_string()),
            shipped_only: false,
        },
    );
    assert!(
        !dot.contains("vision_vigil"),
        "vigil vision must be absent when filter=atlas"
    );
    assert!(dot.contains("vision_atlas"), "atlas vision must be present");
}

// ── Determinism ───────────────────────────────────────────────────────────

#[test]
fn dot_output_is_deterministic() {
    let g = make_graph(
        vec![vision("atlas"), vision("vigil")],
        vec![
            prd("PRD-atlas-render.md", "atlas", PrdStatus::InFlight),
            prd("PRD-atlas-core.md", "atlas", PrdStatus::Shipped),
            prd("PRD-vigil-core.md", "vigil", PrdStatus::Drafted),
        ],
        vec![],
        vec![
            edge("PRD-atlas-render.md", "PRD-atlas-core.md", EdgeKind::Frontmatter),
        ],
    );
    let opts = RenderOptions::default();
    let run1 = render_dot(&g, &opts);
    let run2 = render_dot(&g, &opts);
    assert_eq!(run1, run2, "DOT output must be deterministic");
}

#[test]
fn mermaid_output_is_deterministic() {
    let g = make_graph(
        vec![vision("atlas")],
        vec![prd("PRD-atlas-core.md", "atlas", PrdStatus::Shipped)],
        vec![],
        vec![],
    );
    let opts = RenderOptions::default();
    let run1 = render_mermaid(&g, &opts);
    let run2 = render_mermaid(&g, &opts);
    assert_eq!(run1, run2, "Mermaid output must be deterministic");
}

// ── Mermaid renderer ──────────────────────────────────────────────────────

#[test]
fn mermaid_starts_with_graph_td() {
    let g = make_graph(vec![], vec![], vec![], vec![]);
    let mmd = render_mermaid(&g, &RenderOptions::default());
    assert!(mmd.starts_with("graph TD"), "Mermaid must start with 'graph TD'");
}

#[test]
fn mermaid_no_unclosed_brackets() {
    let g = make_graph(
        vec![vision("atlas")],
        vec![
            prd("PRD-atlas-core.md", "atlas", PrdStatus::Shipped),
            prd("PRD-atlas-render.md", "atlas", PrdStatus::InFlight),
        ],
        vec![],
        vec![edge(
            "PRD-atlas-render.md",
            "PRD-atlas-core.md",
            EdgeKind::Frontmatter,
        )],
    );
    let mmd = render_mermaid(&g, &RenderOptions::default());
    // Count open and close brackets/parens per line — must balance.
    for line in mmd.lines() {
        // Skip comment lines.
        if line.trim_start().starts_with('%') {
            continue;
        }
        // Skip edge lines (they have `-->` with no bracket issue).
        if line.contains("-->") || line.contains("-.-") {
            continue;
        }
        let opens: usize = line.chars().filter(|&c| c == '(' || c == '[').count();
        let closes: usize = line.chars().filter(|&c| c == ')' || c == ']').count();
        assert_eq!(
            opens, closes,
            "Unbalanced brackets on Mermaid line: {line:?}"
        );
    }
}

#[test]
fn mermaid_gossip_edge_uses_dotted_arrow() {
    let g = make_graph(
        vec![vision("atlas")],
        vec![
            prd("PRD-atlas-render.md", "atlas", PrdStatus::Drafted),
            prd("PRD-atlas-core.md", "atlas", PrdStatus::Shipped),
        ],
        vec![],
        vec![edge(
            "PRD-atlas-render.md",
            "PRD-atlas-core.md",
            EdgeKind::Gossip,
        )],
    );
    let mmd = render_mermaid(&g, &RenderOptions::default());
    assert!(mmd.contains("-.-"), "gossip edge must use dotted arrow: {mmd}");
}

// ── Tree renderer ─────────────────────────────────────────────────────────

#[test]
fn tree_includes_vision_as_root() {
    let g = make_graph(
        vec![vision("atlas")],
        vec![prd("PRD-atlas-core.md", "atlas", PrdStatus::Shipped)],
        vec![],
        vec![],
    );
    let tree = render_tree(&g, &RenderOptions::default());
    assert!(tree.contains("vision: atlas"), "vision must appear as root");
}

#[test]
fn tree_shows_status_glyphs() {
    let g = make_graph(
        vec![vision("atlas")],
        vec![
            prd("PRD-atlas-core.md", "atlas", PrdStatus::Shipped),
            prd("PRD-atlas-render.md", "atlas", PrdStatus::InFlight),
            prd("PRD-atlas-edges.md", "atlas", PrdStatus::Drafted),
        ],
        vec![],
        vec![],
    );
    let tree = render_tree(&g, &RenderOptions::default());
    assert!(tree.contains('●'), "shipped glyph must appear");
    assert!(tree.contains('◑'), "in-flight glyph must appear");
    assert!(tree.contains('○'), "drafted glyph must appear");
}

#[test]
fn tree_shows_dependency_arrows() {
    let g = make_graph(
        vec![vision("atlas")],
        vec![
            prd("PRD-atlas-render.md", "atlas", PrdStatus::InFlight),
            prd("PRD-atlas-core.md", "atlas", PrdStatus::Shipped),
        ],
        vec![],
        vec![edge(
            "PRD-atlas-render.md",
            "PRD-atlas-core.md",
            EdgeKind::Frontmatter,
        )],
    );
    let tree = render_tree(&g, &RenderOptions::default());
    assert!(
        tree.contains("atlas-core"),
        "dependency must appear in tree: {tree}"
    );
    assert!(tree.contains("← needs"), "deps annotation must appear: {tree}");
}

#[test]
fn tree_atlas_vision_ac() {
    // AC #4: atlas graph --format tree --vision atlas shows atlas as root
    // with its PRDs, status glyphs, and dep arrows.
    let g = make_graph(
        vec![vision("atlas")],
        vec![
            prd("PRD-atlas-core.md", "atlas", PrdStatus::Shipped),
            prd("PRD-atlas-edges.md", "atlas", PrdStatus::Shipped),
            prd("PRD-atlas-orphans.md", "atlas", PrdStatus::Drafted),
            prd("PRD-atlas-render.md", "atlas", PrdStatus::InFlight),
        ],
        vec![],
        vec![
            edge("PRD-atlas-edges.md", "PRD-atlas-core.md", EdgeKind::Frontmatter),
            edge("PRD-atlas-orphans.md", "PRD-atlas-edges.md", EdgeKind::Frontmatter),
            edge("PRD-atlas-render.md", "PRD-atlas-core.md", EdgeKind::Frontmatter),
        ],
    );
    let tree = render_tree(
        &g,
        &RenderOptions {
            vision_filter: Some("atlas".to_string()),
            shipped_only: false,
        },
    );
    // Root
    assert!(tree.contains("vision: atlas"), "atlas vision root present");
    // All four PRDs
    assert!(tree.contains("atlas-core"), "atlas-core present");
    assert!(tree.contains("atlas-edges"), "atlas-edges present");
    assert!(tree.contains("atlas-orphans"), "atlas-orphans present");
    assert!(tree.contains("atlas-render"), "atlas-render present");
    // Dep arrows present
    assert!(tree.contains("← needs"), "dependency arrows present");
}

#[test]
fn tree_shipped_only_excludes_drafted() {
    let g = make_graph(
        vec![vision("atlas")],
        vec![
            prd("PRD-atlas-core.md", "atlas", PrdStatus::Shipped),
            prd("PRD-atlas-render.md", "atlas", PrdStatus::Drafted),
        ],
        vec![],
        vec![],
    );
    let tree = render_tree(
        &g,
        &RenderOptions {
            shipped_only: true,
            vision_filter: None,
        },
    );
    assert!(
        !tree.contains("atlas-render"),
        "drafted PRD must be absent in shipped_only mode"
    );
    assert!(tree.contains("atlas-core"), "shipped PRD must be present");
}

#[test]
fn tree_shipped_only_no_drafted_label() {
    // AC #5: --shipped-only run contains only shipped PRDs, no drafted node.
    let g = make_graph(
        vec![vision("atlas")],
        vec![
            prd_shipped("PRD-atlas-core.md", "atlas", "https://github.com/j0yen/atlas"),
            prd("PRD-atlas-render.md", "atlas", PrdStatus::Drafted),
        ],
        vec![],
        vec![],
    );
    let dot = render_dot(
        &g,
        &RenderOptions {
            shipped_only: true,
            vision_filter: None,
        },
    );
    assert!(
        !dot.contains("atlas-render"),
        "drafted must not appear in shipped-only DOT"
    );
}

#[test]
fn tree_output_is_deterministic() {
    let g = make_graph(
        vec![vision("atlas"), vision("vigil")],
        vec![
            prd("PRD-atlas-core.md", "atlas", PrdStatus::Shipped),
            prd("PRD-atlas-render.md", "atlas", PrdStatus::InFlight),
            prd("PRD-vigil-core.md", "vigil", PrdStatus::Drafted),
        ],
        vec![],
        vec![edge(
            "PRD-atlas-render.md",
            "PRD-atlas-core.md",
            EdgeKind::Frontmatter,
        )],
    );
    let opts = RenderOptions::default();
    let run1 = render_tree(&g, &opts);
    let run2 = render_tree(&g, &opts);
    assert_eq!(run1, run2, "tree output must be deterministic");
}

// ── Exact output ─────────────────────────────────────────────────────────────

#[test]
fn dot_of_empty_graph_is_the_bare_skeleton() {
    let g = make_graph(vec![], vec![], vec![], vec![]);
    let dot = render_dot(&g, &RenderOptions::default());
    let expected = "digraph atlas {\n  rankdir=TB;\n  node [fontname=\"Helvetica\"];\n  edge [fontname=\"Helvetica\"];\n\n  // Vision nodes\n\n  // PRD nodes\n\n  // Repo nodes\n\n  // Vision \u{2192} PRD edges\n\n  // PRD \u{2192} PRD dependency edges\n\n  // Shipped PRD \u{2192} Repo edges\n\n}\n";
    assert_eq!(dot, expected);
}

#[test]
fn tree_exact_lines_for_one_vision() {
    let g = make_graph(
        vec![vision("atlas")],
        vec![
            prd("PRD-atlas-render.md", "atlas", PrdStatus::InFlight),
            prd_shipped("PRD-atlas-core.md", "atlas", "https://github.com/j0yen/atlas"),
        ],
        vec![],
        vec![edge("PRD-atlas-render.md", "PRD-atlas-core.md", EdgeKind::Frontmatter)],
    );
    let tree = render_tree(&g, &RenderOptions::default());
    let expected = "vision: atlas  [active]\n  \u{251c}\u{2500}\u{2500} \u{25cf} atlas-core  \u{2192} https://github.com/j0yen/atlas\n  \u{2514}\u{2500}\u{2500} \u{25d1} atlas-render  \u{2190} needs: atlas-core\n\n";
    assert_eq!(tree, expected);
}

#[test]
fn tree_lists_unfiled_prds_under_a_pseudo_root() {
    let g = make_graph(
        vec![vision("atlas")],
        vec![prd("PRD-stray.md", "no-such-vision", PrdStatus::Drafted)],
        vec![],
        vec![],
    );
    let tree = render_tree(&g, &RenderOptions::default());
    assert!(tree.contains("vision: (unfiled)  [orphan-vision PRDs]\n"), "{tree}");
    assert!(tree.contains("\u{25cb} stray"), "{tree}");
}

#[test]
fn safe_id_maps_each_non_identifier_char() {
    assert_eq!(safe_id("https://github.com/j0yen/atlas"), "https___github_com_j0yen_atlas");
    assert_eq!(safe_id(""), "");
}

#[test]
fn mermaid_dep_edge_frontmatter_solid_arrow() {
    let g = make_graph(
        vec![vision("atlas")],
        vec![
            prd("PRD-atlas-render.md", "atlas", PrdStatus::InFlight),
            prd("PRD-atlas-core.md", "atlas", PrdStatus::Shipped),
        ],
        vec![],
        vec![edge("PRD-atlas-render.md", "PRD-atlas-core.md", EdgeKind::Frontmatter)],
    );
    let mmd = render_mermaid(&g, &RenderOptions::default());
    assert!(
        mmd.contains("  prd_PRD_atlas_render_md --> prd_PRD_atlas_core_md\n"),
        "{mmd}"
    );
}

#[test]
fn vision_filter_leaves_out_prds_without_a_vision() {
    let g = make_graph(
        vec![vision("atlas")],
        vec![
            prd("PRD-atlas-core.md", "atlas", PrdStatus::Shipped),
            prd("PRD-loose.md", "", PrdStatus::Shipped),
        ],
        vec![],
        vec![],
    );
    let opts = RenderOptions { vision_filter: Some("atlas".to_string()), shipped_only: false };
    let dot = render_dot(&g, &opts);
    assert!(dot.contains("prd_PRD_atlas_core_md"), "{dot}");
    assert!(!dot.contains("prd_PRD_loose_md"), "{dot}");
    let mmd = render_mermaid(&g, &opts);
    assert!(!mmd.contains("prd_PRD_loose_md"), "{mmd}");
    let all = render_dot(&g, &RenderOptions::default());
    assert!(all.contains("prd_PRD_loose_md"), "without a filter every PRD is drawn");
}

#[test]
fn tree_under_vision_filter_has_one_root_and_no_unfiled() {
    let g = make_graph(
        vec![vision("vigil"), vision("atlas")],
        vec![
            prd("PRD-atlas-core.md", "atlas", PrdStatus::Drafted),
            prd("PRD-stray.md", "no-such-vision", PrdStatus::Drafted),
            prd("PRD-vigil-core.md", "vigil", PrdStatus::Drafted),
        ],
        vec![],
        vec![],
    );
    let opts = RenderOptions { vision_filter: Some("atlas".to_string()), shipped_only: false };
    let tree = render_tree(&g, &opts);
    assert_eq!(tree, "vision: atlas  [active]\n  \u{2514}\u{2500}\u{2500} \u{25cb} atlas-core\n\n");
    let none = RenderOptions { vision_filter: Some("nosuch".to_string()), shipped_only: false };
    assert_eq!(render_tree(&g, &none), "");
    assert!(!render_dot(&g, &none).contains("vision_"));
}

#[test]
fn unfiltered_tree_roots_in_slug_order_then_unfiled() {
    let g = make_graph(
        vec![vision("vigil"), vision("atlas")],
        vec![
            prd("PRD-stray.md", "no-such-vision", PrdStatus::Drafted),
            prd("PRD-vigil-core.md", "vigil", PrdStatus::Drafted),
            prd("PRD-loose.md", "", PrdStatus::Drafted),
        ],
        vec![],
        vec![],
    );
    let tree = render_tree(&g, &RenderOptions::default());
    let roots: Vec<&str> = tree.lines().filter(|l| l.starts_with("vision: ")).collect();
    assert_eq!(roots, vec!["vision: atlas  [active]", "vision: vigil  [active]", "vision: (unfiled)  [orphan-vision PRDs]"]);
    assert!(!tree.contains("loose"), "a PRD without a vision is under no root");
    let filed = make_graph(vec![vision("atlas")], vec![prd("PRD-a.md", "atlas", PrdStatus::Drafted)], vec![], vec![]);
    assert!(!render_tree(&filed, &RenderOptions::default()).contains("(unfiled)"));
}

#[test]
fn dot_draws_repos_and_edges_only_between_drawn_nodes() {
    let mut gone = prd_shipped("PRD-vigil-core.md", "vigil", "https://r/vigil");
    gone.status = PrdStatus::InFlight;
    let g = make_graph(
        vec![vision("atlas"), vision("vigil")],
        vec![prd_shipped("PRD-atlas-core.md", "atlas", "https://r/atlas"), gone],
        vec![],
        vec![edge("PRD-atlas-core.md", "PRD-vigil-core.md", EdgeKind::Frontmatter)],
    );
    let all = render_dot(&g, &RenderOptions::default());
    assert!(all.contains("  repo_https___r_atlas [label=\"r/atlas\""), "{all}");
    assert!(!all.contains("repo_https___r_vigil"), "an unshipped PRD draws no repo: {all}");
    assert!(all.contains("  prd_PRD_atlas_core_md -> repo_https___r_atlas [color=gray, arrowhead=open];\n"));
    assert!(all.contains("  prd_PRD_atlas_core_md -> prd_PRD_vigil_core_md;\n"));
    let opts = RenderOptions { vision_filter: Some("atlas".to_string()), shipped_only: false };
    let scoped = render_dot(&g, &opts);
    assert!(!scoped.contains("prd_PRD_vigil_core_md"), "an edge to an undrawn PRD is left out: {scoped}");
    let shipped = render_dot(&g, &RenderOptions { vision_filter: None, shipped_only: true });
    assert!(!shipped.contains("prd_PRD_vigil_core_md"), "{shipped}");
    assert!(shipped.contains("repo_https___r_atlas"), "{shipped}");
}

#[test]
fn mermaid_of_empty_graph_starts_with_graph_td() {
    let g = make_graph(vec![], vec![], vec![], vec![]);
    let mmd = render_mermaid(&g, &RenderOptions { vision_filter: Some("x".to_string()), shipped_only: true });
    assert!(mmd.starts_with("graph TD\n"), "{mmd}");
    let dot = render_dot(&g, &RenderOptions { vision_filter: Some("x".to_string()), shipped_only: true });
    assert!(dot.starts_with("digraph atlas {\n") && dot.ends_with("}\n"));
}

#[test]
fn renderings_ignore_node_and_edge_order() {
    let visions = vec![vision("vigil"), vision("atlas")];
    let prds = vec![
        prd("PRD-atlas-render.md", "atlas", PrdStatus::InFlight),
        prd_shipped("PRD-atlas-core.md", "atlas", "https://r/atlas"),
        prd("PRD-vigil-core.md", "vigil", PrdStatus::Drafted),
        prd("PRD-stray.md", "ghost", PrdStatus::Drafted),
    ];
    let edges = vec![
        edge("PRD-atlas-render.md", "PRD-atlas-core.md", EdgeKind::Frontmatter),
        edge("PRD-vigil-core.md", "PRD-atlas-core.md", EdgeKind::Gossip),
        edge("PRD-atlas-render.md", "PRD-vigil-core.md", EdgeKind::Gossip),
    ];
    let mut rv = visions.clone();
    rv.reverse();
    let mut rp = prds.clone();
    rp.rotate_left(2);
    let mut re = edges.clone();
    re.reverse();
    let g1 = make_graph(visions, prds, vec![], edges);
    let g2 = make_graph(rv, rp, vec![], re);
    for opts in [
        RenderOptions::default(),
        RenderOptions { vision_filter: Some("atlas".to_string()), shipped_only: false },
        RenderOptions { vision_filter: None, shipped_only: true },
    ] {
        assert_eq!(render_dot(&g1, &opts), render_dot(&g2, &opts));
        assert_eq!(render_mermaid(&g1, &opts), render_mermaid(&g2, &opts));
        assert_eq!(render_tree(&g1, &opts), render_tree(&g2, &opts));
    }
}
