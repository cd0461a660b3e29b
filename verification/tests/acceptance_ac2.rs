//! Vision nodes come from the dream manifest without its `_no_fleet_passes`
//! sentinel.

use atlas::parsers::{dream_entries_to_vision_nodes, parse_dream_manifest, DreamVisionEntry};

fn vision_entry(slug: &str, status: &str) -> (String, DreamVisionEntry) {
    (
        slug.to_string(),
        DreamVisionEntry {
            path: Some(format!("visions/{}.md", slug)),
            status: Some(status.to_string()),
            prds_drafted: Some(Vec::new()),
            seed: Some("test seed".to_string()),
        },
    )
}

/// The dream manifest's vision entries, with the sentinel that must be excluded.
fn dream_manifest(visions: &[(&str, &str)]) -> Vec<(String, DreamVisionEntry)> {
    let mut entries: Vec<(String, DreamVisionEntry)> =
        visions.iter().map(|(slug, status)| vision_entry(slug, status)).collect();
    entries.push((
        "_no_fleet_passes".to_string(),
        DreamVisionEntry {
            path: None,
            status: Some("sentinel".to_string()),
            prds_drafted: Some(Vec::new()),
            seed: Some(String::new()),
        },
    ));
    entries
}

fn contains_key(entries: &[(String, DreamVisionEntry)], key: &str) -> bool {
    entries.iter().any(|(k, _)| k == key)
}

#[test]
fn acceptance_ac2_vision_nodes_list_excludes_sentinel() {
    let dream = dream_manifest(&[("atlas", "active"), ("recall", "active"), ("docket", "active")]);
    let ab = "/tmp/fixture/autobuilder";

    let entries = parse_dream_manifest(dream);
    assert!(
        !contains_key(&entries, "_no_fleet_passes"),
        "_no_fleet_passes sentinel must be excluded"
    );
    assert!(contains_key(&entries, "atlas"), "atlas vision missing");
    assert!(contains_key(&entries, "recall"), "recall vision missing");
    assert!(contains_key(&entries, "docket"), "docket vision missing");
    assert_eq!(entries.len(), 3, "expected exactly 3 real visions");

    let nodes = dream_entries_to_vision_nodes(entries, ab);
    assert_eq!(nodes.len(), 3);
    for node in &nodes {
        assert_ne!(node.slug, "_no_fleet_passes");
    }
}
