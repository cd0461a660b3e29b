//! The in-memory graph: every typed node and dependency edge of the corpus.
use vstd::prelude::*;
use crate::edges::{
    edge_results, errs, from_positions, known, law_edges_resolve, load_edges, oks, to_positions,
    EdgeIndex, EdgeSet, GossipText,
};
use crate::model::{
    edge_view, prd_key, prd_view, repo_view, strings, vision_key, vision_view, Edge, EdgeKind,
    PrdNode, PrdStatus, RepoNode, VisionNode,
};
use crate::order::{isort_by, keys_lt, law_isort_by_sorts, lemma_keys_lt_single};
use crate::parsers::{
    archived_dir, build_map_of, is_prd_file, dream_entries_to_vision_nodes, is_sentinel, parse_build_manifest,
    parse_dream_manifest, parse_repos_md, prd_of_file, repos_of, scan_prd_nodes, scan_views, scanned,
    derived_status, vision_of_entry,
    BuildManifestEntry, BuildMap, DirFile, DreamVisionEntry,
};
use crate::text::{chars_eq, chars_of, text_lt};

verus! {

/// The loaded graph: all typed nodes and edges in memory.
#[derive(Debug)]
pub struct Graph {
    /// Vision nodes from the dream manifest.
    pub visions: Vec<VisionNode>,
    /// PRD nodes from the autobuilder directory + build manifest.
    pub prds: Vec<PrdNode>,
    /// Repo nodes from REPOS.md.
    pub repos: Vec<RepoNode>,
    /// Dependency edges between PRDs.
    pub edge_set: EdgeSet,
    /// Index of `edge_set` by endpoint.
    pub edge_index: EdgeIndex,
}

// ── lookups ──────────────────────────────────────────────────────────────────

/// The position of the first PRD at or after `i` named `f`.
pub open spec fn prd_pos_from(ps: Seq<PrdNode>, f: Seq<char>, i: int) -> Option<int>
    decreases ps.len() - i,
{
    if i < 0 || i >= ps.len() {
        None
    } else if ps[i].filename@ == f {
        Some(i)
    } else {
        prd_pos_from(ps, f, i + 1)
    }
}

/// The first PRD of the graph named `f`.
pub open spec fn find_prd(g: &Graph, f: Seq<char>) -> Option<PrdNode> {
    match prd_pos_from(g.prds@, f, 0) {
        Some(k) => Some(g.prds@[k]),
        None => None,
    }
}

/// A found position is at or after `i` and names `f`.
pub proof fn lemma_prd_pos_from(ps: Seq<PrdNode>, f: Seq<char>, i: int)
    requires
        0 <= i,
    ensures
        prd_pos_from(ps, f, i) matches Some(k) ==> i <= k < ps.len() && ps[k].filename@ == f,
    decreases ps.len() - i,
{
    if i < ps.len() && ps[i].filename@ != f {
        lemma_prd_pos_from(ps, f, i + 1);
    }
}

/// The position of the first PRD of the graph named `f`.
pub fn find_prd_index(g: &Graph, f: &Vec<char>) -> (r: Option<usize>)
    ensures
        match r {
            Some(k) => prd_pos_from(g.prds@, f@, 0) == Some(k as int) && k < g.prds@.len(),
            None => prd_pos_from(g.prds@, f@, 0) is None,
        },
{
    let mut i: usize = 0;
    while i < g.prds.len()
        invariant
            i <= g.prds@.len(),
            prd_pos_from(g.prds@, f@, i as int) == prd_pos_from(g.prds@, f@, 0),
        decreases g.prds@.len() - i,
    {
        let c = chars_of(g.prds[i].filename.as_str());
        if chars_eq(&c, f) {
            return Some(i);
        }
        i = i + 1;
    }
    None
}

/// The position of the first vision at or after `i` with slug `s`.
pub open spec fn vision_pos_from(vs: Seq<VisionNode>, s: Seq<char>, i: int) -> Option<int>
    decreases vs.len() - i,
{
    if i < 0 || i >= vs.len() {
        None
    } else if vs[i].slug@ == s {
        Some(i)
    } else {
        vision_pos_from(vs, s, i + 1)
    }
}

/// The first vision of the graph with slug `s`.
pub open spec fn find_vision(g: &Graph, s: Seq<char>) -> Option<VisionNode> {
    match vision_pos_from(g.visions@, s, 0) {
        Some(k) => Some(g.visions@[k]),
        None => None,
    }
}

/// The position of the first vision of the graph with slug `s`.
pub fn find_vision_index(g: &Graph, s: &Vec<char>) -> (r: Option<usize>)
    ensures
        match r {
            Some(k) => vision_pos_from(g.visions@, s@, 0) == Some(k as int) && k
                < g.visions@.len(),
            None => vision_pos_from(g.visions@, s@, 0) is None,
        },
{
    let mut i: usize = 0;
    while i < g.visions.len()
        invariant
            i <= g.visions@.len(),
            vision_pos_from(g.visions@, s@, i as int) == vision_pos_from(g.visions@, s@, 0),
        decreases g.visions@.len() - i,
    {
        let c = chars_of(g.visions[i].slug.as_str());
        if chars_eq(&c, s) {
            return Some(i);
        }
        i = i + 1;
    }
    None
}

/// A vision of slug `s` is found from `i` exactly when one stands at or after `i`.
pub proof fn lemma_vision_pos_from(vs: Seq<VisionNode>, s: Seq<char>, i: int)
    requires
        0 <= i,
    ensures
        vision_pos_from(vs, s, i) is Some <==> exists|j: int| i <= j < vs.len() && #[trigger] vs[j].slug@ == s,
    decreases vs.len() - i,
{
    if i < vs.len() && vs[i].slug@ != s {
        lemma_vision_pos_from(vs, s, i + 1);
        if exists|j: int| i <= j < vs.len() && #[trigger] vs[j].slug@ == s {
            let j = choose|j: int| i <= j < vs.len() && #[trigger] vs[j].slug@ == s;
            assert(j != i);
            assert(i + 1 <= j);
        }
    }
}

/// Whether some vision of the graph has slug `s`.
pub open spec fn vision_known(g: &Graph, s: Seq<char>) -> bool {
    vision_pos_from(g.visions@, s, 0) is Some
}

// ── Loading ──────────────────────────────────────────────────────────────────

/// What the corpus sources held when they were read.
#[derive(Debug)]
pub struct Corpus {
    /// The autobuilder directory's path.
    pub autobuilder_dir: String,
    /// Its listing, `None` when it is absent or could not be read.
    pub autobuilder_files: Option<Vec<DirFile>>,
    /// The build manifest's PRD entries, `None` when it is absent or malformed.
    pub build_manifest: Option<Vec<BuildManifestEntry>>,
    /// The repo paths of the manifest entries that exist on disk.
    pub repos_on_disk: Vec<String>,
    /// The dream manifest's vision entries by slug, `None` when it is absent or malformed.
    pub dream_manifest: Option<Vec<(String, DreamVisionEntry)>>,
    /// The text of REPOS.md, `None` when it is absent or could not be read.
    pub repos_md: Option<String>,
    /// The gossip file's path.
    pub gossip_file: String,
    /// What was found at the gossip path.
    pub gossip: GossipText,
}

/// The manifest map a corpus gives: empty without a build manifest.
pub open spec fn corpus_map(c: Corpus) -> Map<Seq<char>, BuildManifestEntry> {
    match c.build_manifest {
        Some(es) => build_map_of(es@),
        None => Map::empty(),
    }
}

/// The vision nodes a corpus gives: the dream manifest's entries without the
/// sentinel, sorted by slug; none without a dream manifest.
pub open spec fn corpus_visions(c: Corpus) -> Seq<(Seq<char>, Seq<char>, Seq<char>, Seq<Seq<char>>, Seq<char>)> {
    match c.dream_manifest {
        Some(vs) => isort_by(
            vs@.filter(|e: (String, DreamVisionEntry)| !is_sentinel(e.0@)).map_values(
                |e: (String, DreamVisionEntry)| vision_of_entry(e.0@, e.1, c.autobuilder_dir@),
            ),
            |v: (Seq<char>, Seq<char>, Seq<char>, Seq<Seq<char>>, Seq<char>)| vision_key(v),
        ),
        None => Seq::empty(),
    }
}

/// The repo nodes a corpus gives: none without REPOS.md.
pub open spec fn corpus_repos(c: Corpus) -> Seq<(Seq<char>, Seq<char>, Seq<char>)> {
    match c.repos_md {
        Some(t) => repos_of(t@),
        None => Seq::empty(),
    }
}

/// The filenames of PRD nodes.
pub open spec fn filenames(ps: Seq<PrdNode>) -> Seq<String> {
    ps.map_values(|p: PrdNode| p.filename)
}

/// Whether `g` holds the PRD nodes and edges the corpus `c` gives: the scanned
/// PRD nodes (none without a listing), the edges of both sources resolved
/// against their filenames (none when a source could not be read), and the
/// index of those edges.
pub open spec fn loaded_prds_and_edges(c: Corpus, g: Graph) -> bool {
    &&& match c.autobuilder_files {
        Some(fs) => scanned(c.autobuilder_dir@, fs@, corpus_map(c), c.repos_on_disk@, g.prds@),
        None => g.prds@.len() == 0,
    }
    &&& match (c.autobuilder_files, c.gossip) {
        (Some(fs), GossipText::Missing) | (Some(fs), GossipText::Read(_)) => {
            let rs = edge_results(
                c.autobuilder_dir@,
                fs@,
                c.gossip_file@,
                c.gossip,
                filenames(g.prds@),
            );
            g.edge_set.edges@.map_values(|e: Edge| edge_view(e)) == oks(rs) && g.edge_set.unresolved
                == errs(rs)
        },
        _ => g.edge_set.edges@.len() == 0 && g.edge_set.unresolved == 0,
    }
    &&& forall|k: Seq<char>| #[trigger]
        g.edge_index.out_positions(k) == from_positions(g.edge_set.edges@, k)
    &&& forall|k: Seq<char>| #[trigger]
        g.edge_index.in_positions(k) == to_positions(g.edge_set.edges@, k)
}

impl Graph {
    /// Load the graph from what the corpus sources held.
    ///
    /// Missing or unreadable sources give partial results rather than
    /// errors, so `atlas` remains usable even when some sources are absent.
    pub fn load(corpus: Corpus) -> (r: Graph)
        ensures
            r.visions@.map_values(|v: VisionNode| vision_view(v)) == corpus_visions(corpus),
            r.repos@.map_values(|x: RepoNode| repo_view(x)) == corpus_repos(corpus),
            loaded_prds_and_edges(corpus, r),
    {
        let ghost c = corpus;
        let Corpus {
            autobuilder_dir,
            autobuilder_files,
            build_manifest,
            repos_on_disk,
            dream_manifest,
            repos_md,
            gossip_file,
            gossip,
        } = corpus;
        let build_map = match build_manifest {
            Some(es) => parse_build_manifest(es),
            None => BuildMap::new(),
        };
        assert(build_map@ == corpus_map(c));
        let visions = match dream_manifest {
            Some(vs) => {
                let entries = parse_dream_manifest(vs);
                dream_entries_to_vision_nodes(entries, autobuilder_dir.as_str())
            },
            None => Vec::new(),
        };
        assert(visions@.map_values(|v: VisionNode| vision_view(v)) =~= corpus_visions(c));
        let prds = match &autobuilder_files {
            Some(fs) => scan_prd_nodes(autobuilder_dir.as_str(), fs, &build_map, &repos_on_disk),
            None => Vec::new(),
        };
        let repos = match &repos_md {
            Some(t) => parse_repos_md(t.as_str()),
            None => Vec::new(),
        };
        assert(repos@.map_values(|x: RepoNode| repo_view(x)) =~= corpus_repos(c));
        let mut known: Vec<String> = Vec::new();
        let mut i: usize = 0;
        while i < prds.len()
            invariant
                i <= prds@.len(),
                known@ == filenames(prds@).take(i as int),
            decreases prds@.len() - i,
        {
            known.push(prds[i].filename.clone());
            assert(known@ =~= filenames(prds@).take(i + 1));
            i = i + 1;
        }
        assert(known@ =~= filenames(prds@));
        let edge_set = match load_edges(
            autobuilder_dir.as_str(),
            &autobuilder_files,
            gossip_file.as_str(),
            &gossip,
            &known,
        ) {
            Ok(es) => es,
            Err(_) => EdgeSet::default(),
        };
        let edge_index = EdgeIndex::build(&edge_set);
        Graph { visions, prds, repos, edge_set, edge_index }
    }
}

// ── Laws ─────────────────────────────────────────────────────────────────────

/// The dream manifest's `_no_fleet_passes` sentinel never becomes a vision
/// node of the loaded graph.
pub proof fn law_sentinel_not_a_vision(c: Corpus, g: Graph)
    requires
        g.visions@.map_values(|v: VisionNode| vision_view(v)) == corpus_visions(c),
    ensures
        forall|i: int| 0 <= i < g.visions@.len() ==> (#[trigger] g.visions@[i]).slug@ != "_no_fleet_passes"@,
{
    broadcast use vstd::seq_lib::group_to_multiset_ensures;

    match c.dream_manifest {
        None => {
            assert(g.visions@.map_values(|v: VisionNode| vision_view(v)).len() == 0);
        },
        Some(vs) => {
            let pred = |e: (String, DreamVisionEntry)| !is_sentinel(e.0@);
            let f = |e: (String, DreamVisionEntry)| vision_of_entry(e.0@, e.1, c.autobuilder_dir@);
            let k = |v: (Seq<char>, Seq<char>, Seq<char>, Seq<Seq<char>>, Seq<char>)| vision_key(v);
            let filtered = vs@.filter(pred);
            let s = filtered.map_values(f);
            let r = isort_by(s, k);
            law_isort_by_sorts(s, k);
            assert forall|i: int| 0 <= i < g.visions@.len() implies (#[trigger] g.visions@[i]).slug@
                != "_no_fleet_passes"@ by {
                assert(r[i] == vision_view(g.visions@[i]));
                assert(r.contains(r[i]));
                assert(r.to_multiset().count(r[i]) > 0);
                assert(s.contains(r[i]));
                let j = choose|j: int| 0 <= j < s.len() && s[j] == r[i];
                vs@.lemma_filter_pred(pred, j);
                assert(s[j] == f(filtered[j]));
            }
        },
    }
}

/// The loaded graph lists its visions in slug order and its PRDs in
/// filename order.
pub proof fn law_loaded_nodes_ordered(c: Corpus, g: Graph)
    requires
        g.visions@.map_values(|v: VisionNode| vision_view(v)) == corpus_visions(c),
        loaded_prds_and_edges(c, g),
    ensures
        forall|i: int, j: int|
            0 <= i < j < g.visions@.len() ==> !text_lt(
                (#[trigger] g.visions@[j]).slug@,
                (#[trigger] g.visions@[i]).slug@,
            ),
        forall|i: int, j: int|
            0 <= i < j < g.prds@.len() ==> !text_lt(
                (#[trigger] g.prds@[j]).filename@,
                (#[trigger] g.prds@[i]).filename@,
            ),
{
    let vk = |v: (Seq<char>, Seq<char>, Seq<char>, Seq<Seq<char>>, Seq<char>)| vision_key(v);
    let vr = g.visions@.map_values(|v: VisionNode| vision_view(v));
    match c.dream_manifest {
        None => {
            assert(vr.len() == 0);
        },
        Some(vs) => {
            law_isort_by_sorts(
                vs@.filter(|e: (String, DreamVisionEntry)| !is_sentinel(e.0@)).map_values(
                    |e: (String, DreamVisionEntry)| vision_of_entry(e.0@, e.1, c.autobuilder_dir@),
                ),
                vk,
            );
            assert forall|i: int, j: int| 0 <= i < j < g.visions@.len() implies !text_lt(
                (#[trigger] g.visions@[j]).slug@,
                (#[trigger] g.visions@[i]).slug@,
            ) by {
                assert(vr[i] == vision_view(g.visions@[i]));
                assert(vr[j] == vision_view(g.visions@[j]));
                assert(!keys_lt(vk(vr[j]), vk(vr[i])));
                lemma_keys_lt_single(g.visions@[j].slug@, g.visions@[i].slug@);
            }
        },
    }
    let pk = |v: (Seq<char>, Seq<char>, Seq<char>, Seq<char>, Seq<char>, PrdStatus, Seq<char>, Seq<char>)|
        prd_key(v);
    let pr = g.prds@.map_values(|p: PrdNode| prd_view(p));
    match c.autobuilder_files {
        None => {},
        Some(fs) => {
            if !archived_dir(c.autobuilder_dir@) {
                let m = corpus_map(c);
                law_isort_by_sorts(scan_views(fs@, m, c.repos_on_disk@), pk);
                assert forall|i: int, j: int| 0 <= i < j < g.prds@.len() implies !text_lt(
                    (#[trigger] g.prds@[j]).filename@,
                    (#[trigger] g.prds@[i]).filename@,
                ) by {
                    assert(pr[i] == prd_view(g.prds@[i]));
                    assert(pr[j] == prd_view(g.prds@[j]));
                    assert(!keys_lt(pk(pr[j]), pk(pr[i])));
                    lemma_keys_lt_single(g.prds@[j].filename@, g.prds@[i].filename@);
                }
            }
        },
    }
}


/// Whether some PRD of the graph is named `f`.
pub open spec fn prd_loaded(g: Graph, f: Seq<char>) -> bool {
    exists|j: int| 0 <= j < g.prds@.len() && #[trigger] g.prds@[j].filename@ == f
}

/// Every dependency edge of a loaded graph points at a PRD of the graph,
/// and every gossip edge also starts at one.  (A frontmatter edge's source
/// is the file it was read from, which is not checked against the nodes.)
pub proof fn law_loaded_edges_join_prds(c: Corpus, g: Graph)
    requires
        loaded_prds_and_edges(c, g),
    ensures
        forall|i: int|
            0 <= i < g.edge_set.edges@.len() ==> prd_loaded(g, (#[trigger] g.edge_set.edges@[i]).to@)
                && (g.edge_set.edges@[i].kind == EdgeKind::Gossip ==> prd_loaded(g, g.edge_set.edges@[i].from@)),
{
    let ks = filenames(g.prds@);
    assert forall|x: Seq<char>| known(ks, x) implies prd_loaded(g, x) by {
        let j = choose|j: int| 0 <= j < strings(ks).len() && strings(ks)[j] == x;
        assert(strings(ks)[j] == g.prds@[j].filename@);
    }
    match (c.autobuilder_files, c.gossip) {
        (Some(fs), GossipText::Missing) | (Some(fs), GossipText::Read(_)) => {
            law_edges_resolve(c.autobuilder_dir@, fs@, c.gossip_file@, c.gossip, ks);
            let rs = edge_results(c.autobuilder_dir@, fs@, c.gossip_file@, c.gossip, ks);
            let ev = g.edge_set.edges@.map_values(|e: Edge| edge_view(e));
            assert(ev == oks(rs));
            assert forall|i: int| 0 <= i < g.edge_set.edges@.len() implies prd_loaded(
                g,
                (#[trigger] g.edge_set.edges@[i]).to@,
            ) && (g.edge_set.edges@[i].kind == EdgeKind::Gossip ==> prd_loaded(
                g,
                g.edge_set.edges@[i].from@,
            )) by {
                assert(ev[i] == oks(rs)[i]);
                assert(known(ks, oks(rs)[i].1));
            }
        },
        _ => {},
    }
}


/// Every PRD node of a scan comes from a listed file.
proof fn lemma_scan_views_from_files(
    fs: Seq<DirFile>,
    m: Map<Seq<char>, BuildManifestEntry>,
    present: Seq<String>,
)
    ensures
        forall|k: int|
            0 <= k < scan_views(fs, m, present).len() ==> exists|j: int|
                0 <= j < fs.len() && prd_of_file(fs[j], m, present) == Some(
                    #[trigger] scan_views(fs, m, present)[k],
                ),
    decreases fs.len(),
{
    if fs.len() > 0 {
        let init = fs.drop_last();
        lemma_scan_views_from_files(init, m, present);
        let rest = scan_views(init, m, present);
        assert forall|k: int| 0 <= k < scan_views(fs, m, present).len() implies exists|j: int|
            0 <= j < fs.len() && prd_of_file(fs[j], m, present) == Some(
                #[trigger] scan_views(fs, m, present)[k],
            ) by {
            if k < rest.len() {
                assert(scan_views(fs, m, present)[k] == rest[k]);
                let j = choose|j: int| 0 <= j < init.len() && prd_of_file(init[j], m, present) == Some(
                    #[trigger] rest[k],
                );
                assert(fs[j] == init[j]);
            } else {
                assert(prd_of_file(fs[fs.len() - 1], m, present) == Some(scan_views(fs, m, present)[k]));
            }
        }
    }
}

/// Every PRD of a loaded graph has the status, repo URL and repo path that
/// its build-manifest entry and the repo paths found on disk give it:
/// `Shipped` exactly when its entry's repo path is non-empty and on disk.
pub proof fn law_loaded_status(c: Corpus, g: Graph)
    requires
        loaded_prds_and_edges(c, g),
    ensures
        forall|i: int|
            0 <= i < g.prds@.len() ==> ((#[trigger] g.prds@[i]).status, g.prds@[i].repo_url@, g.prds@[i].repo_path@)
                == derived_status(corpus_map(c), g.prds@[i].filename@, c.repos_on_disk@),
{
    broadcast use vstd::seq_lib::group_to_multiset_ensures;

    match c.autobuilder_files {
        None => {},
        Some(fs) => {
            if !archived_dir(c.autobuilder_dir@) {
                let m = corpus_map(c);
                let present = c.repos_on_disk@;
                let sv = scan_views(fs@, m, present);
                let pk = |v: (Seq<char>, Seq<char>, Seq<char>, Seq<char>, Seq<char>, PrdStatus, Seq<char>, Seq<char>)|
                    prd_key(v);
                law_isort_by_sorts(sv, pk);
                lemma_scan_views_from_files(fs@, m, present);
                let pr = g.prds@.map_values(|p: PrdNode| prd_view(p));
                assert forall|i: int| 0 <= i < g.prds@.len() implies ((#[trigger] g.prds@[i]).status,
                    g.prds@[i].repo_url@, g.prds@[i].repo_path@) == derived_status(
                    m,
                    g.prds@[i].filename@,
                    present,
                ) by {
                    let x = pr[i];
                    assert(x == prd_view(g.prds@[i]));
                    assert(pr.contains(x));
                    assert(pr.to_multiset().count(x) > 0);
                    assert(sv.contains(x));
                    let k = choose|k: int| 0 <= k < sv.len() && sv[k] == x;
                    let j = choose|j: int| 0 <= j < fs@.len() && prd_of_file(fs@[j], m, present) == Some(
                        #[trigger] sv[k],
                    );
                }
            }
        },
    }
}


/// A PRD named `f` is found from `i` exactly when one stands at or after `i`.
pub proof fn lemma_prd_pos_exists(ps: Seq<PrdNode>, f: Seq<char>, i: int)
    requires
        0 <= i,
    ensures
        prd_pos_from(ps, f, i) is Some <==> exists|j: int| i <= j < ps.len() && #[trigger] ps[j].filename@ == f,
    decreases ps.len() - i,
{
    if i < ps.len() && ps[i].filename@ != f {
        lemma_prd_pos_exists(ps, f, i + 1);
        if exists|j: int| i <= j < ps.len() && #[trigger] ps[j].filename@ == f {
            let j = choose|j: int| i <= j < ps.len() && #[trigger] ps[j].filename@ == f;
            assert(i + 1 <= j);
        }
    }
}

/// Whether no two visions of `g` share a slug and no two PRDs a filename.
pub open spec fn distinct_names(g: &Graph) -> bool {
    &&& forall|i: int, j: int|
        0 <= i < j < g.visions@.len() ==> (#[trigger] g.visions@[i]).slug@ != (#[trigger] g.visions@[j]).slug@
    &&& forall|i: int, j: int|
        0 <= i < j < g.prds@.len() ==> (#[trigger] g.prds@[i]).filename@ != (#[trigger] g.prds@[j]).filename@
}

/// Whether no two edges of `g` join the same PRDs with different kinds.
pub open spec fn edge_kinds_agree(g: &Graph) -> bool {
    forall|i: int, j: int|
        0 <= i < g.edge_set.edges@.len() && 0 <= j < g.edge_set.edges@.len() && (#[trigger] g.edge_set.edges@[i]).from@
            == (#[trigger] g.edge_set.edges@[j]).from@ && g.edge_set.edges@[i].to@ == g.edge_set.edges@[j].to@
            ==> g.edge_set.edges@[i].kind == g.edge_set.edges@[j].kind
}

/// With distinct filenames, reordering the PRDs finds the same PRD by name.
pub proof fn lemma_find_prd_perm(g1: &Graph, g2: &Graph, f: Seq<char>)
    requires
        g1.prds@.to_multiset() == g2.prds@.to_multiset(),
        distinct_names(g1),
        distinct_names(g2),
    ensures
        find_prd(g1, f) == find_prd(g2, f),
{
    broadcast use vstd::seq_lib::group_to_multiset_ensures;

    let p1 = g1.prds@;
    let p2 = g2.prds@;
    lemma_prd_pos_from(p1, f, 0);
    lemma_prd_pos_from(p2, f, 0);
    lemma_prd_pos_exists(p1, f, 0);
    lemma_prd_pos_exists(p2, f, 0);
    match prd_pos_from(p1, f, 0) {
        Some(k1) => {
            assert(p1.contains(p1[k1]));
            assert(p2.to_multiset().count(p1[k1]) > 0);
            let j = choose|j: int| 0 <= j < p2.len() && p2[j] == p1[k1];
            assert(p2[j].filename@ == f);
            let k2 = prd_pos_from(p2, f, 0)->0;
            assert(p2.contains(p2[k2]));
            assert(p1.to_multiset().count(p2[k2]) > 0);
            let m = choose|m: int| 0 <= m < p1.len() && p1[m] == p2[k2];
            if m < k1 {
                assert(p1[m].filename@ != p1[k1].filename@);
            } else if k1 < m {
                assert(p1[k1].filename@ != p1[m].filename@);
            }
        },
        None => {
            if prd_pos_from(p2, f, 0) is Some {
                let k2 = prd_pos_from(p2, f, 0)->0;
                assert(p2.contains(p2[k2]));
                assert(p1.to_multiset().count(p2[k2]) > 0);
                let m = choose|m: int| 0 <= m < p1.len() && p1[m] == p2[k2];
                assert(p1[m].filename@ == f);
            }
        },
    }
}

/// With distinct slugs, reordering the visions finds the same vision by slug.
pub proof fn lemma_find_vision_perm(g1: &Graph, g2: &Graph, s: Seq<char>)
    requires
        g1.visions@.to_multiset() == g2.visions@.to_multiset(),
        distinct_names(g1),
        distinct_names(g2),
    ensures
        find_vision(g1, s) == find_vision(g2, s),
        vision_known(g1, s) == vision_known(g2, s),
{
    broadcast use vstd::seq_lib::group_to_multiset_ensures;

    let v1 = g1.visions@;
    let v2 = g2.visions@;
    lemma_vision_pos_found(v1, s, 0);
    lemma_vision_pos_found(v2, s, 0);
    lemma_vision_pos_from(v1, s, 0);
    lemma_vision_pos_from(v2, s, 0);
    match vision_pos_from(v1, s, 0) {
        Some(k1) => {
            assert(v1.contains(v1[k1]));
            assert(v2.to_multiset().count(v1[k1]) > 0);
            let j = choose|j: int| 0 <= j < v2.len() && v2[j] == v1[k1];
            assert(v2[j].slug@ == s);
            let k2 = vision_pos_from(v2, s, 0)->0;
            assert(v2.contains(v2[k2]));
            assert(v1.to_multiset().count(v2[k2]) > 0);
            let m = choose|m: int| 0 <= m < v1.len() && v1[m] == v2[k2];
            if m < k1 {
                assert(v1[m].slug@ != v1[k1].slug@);
            } else if k1 < m {
                assert(v1[k1].slug@ != v1[m].slug@);
            }
        },
        None => {
            if vision_pos_from(v2, s, 0) is Some {
                let k2 = vision_pos_from(v2, s, 0)->0;
                assert(v2.contains(v2[k2]));
                assert(v1.to_multiset().count(v2[k2]) > 0);
                let m = choose|m: int| 0 <= m < v1.len() && v1[m] == v2[k2];
                assert(v1[m].slug@ == s);
            }
        },
    }
}

/// A found vision position is at or after `i` and has slug `s`.
pub proof fn lemma_vision_pos_found(vs: Seq<VisionNode>, s: Seq<char>, i: int)
    requires
        0 <= i,
    ensures
        vision_pos_from(vs, s, i) matches Some(k) ==> i <= k < vs.len() && vs[k].slug@ == s,
    decreases vs.len() - i,
{
    if i < vs.len() && vs[i].slug@ != s {
        lemma_vision_pos_found(vs, s, i + 1);
    }
}


/// Whether the graph's edge index lists, for each PRD, the positions of the
/// edges leaving it and of those entering it.
pub open spec fn index_matches(g: &Graph) -> bool {
    &&& forall|k: Seq<char>| #[trigger] g.edge_index.out_positions(k) == from_positions(g.edge_set.edges@, k)
    &&& forall|k: Seq<char>| #[trigger] g.edge_index.in_positions(k) == to_positions(g.edge_set.edges@, k)
}


proof fn lemma_scan_views_keeps(fs: Seq<DirFile>, m: Map<Seq<char>, BuildManifestEntry>, present: Seq<String>, j: int)
    requires
        0 <= j < fs.len(),
        prd_of_file(fs[j], m, present) is Some,
    ensures
        scan_views(fs, m, present).contains(prd_of_file(fs[j], m, present)->0),
    decreases fs.len(),
{
    let init = fs.drop_last();
    let rest = scan_views(init, m, present);
    let v = prd_of_file(fs[j], m, present)->0;
    if j == fs.len() - 1 {
        assert(scan_views(fs, m, present) == rest.push(v));
        assert(rest.push(v)[rest.len() as int] == v);
    } else {
        assert(init[j] == fs[j]);
        lemma_scan_views_keeps(init, m, present, j);
        let k = choose|k: int| 0 <= k < rest.len() && rest[k] == v;
        match prd_of_file(fs.last(), m, present) {
            Some(w) => {
                assert(scan_views(fs, m, present) == rest.push(w));
                assert(rest.push(w)[k] == v);
            },
            None => {},
        }
    }
}

/// Every readable `PRD-*.md` file of the listing is a PRD of the loaded
/// graph, unless the directory is a PRD archive, and every PRD of the graph
/// is such a file.
pub proof fn law_loaded_prds_are_listed_files(c: Corpus, g: Graph)
    requires
        loaded_prds_and_edges(c, g),
        c.autobuilder_files is Some,
        !archived_dir(c.autobuilder_dir@),
    ensures
        forall|j: int|
            0 <= j < c.autobuilder_files->0@.len() && is_prd_file((#[trigger] c.autobuilder_files->0@[j]).name@)
                && c.autobuilder_files->0@[j].content is Some ==> prd_loaded(g, c.autobuilder_files->0@[j].name@),
        forall|i: int|
            0 <= i < g.prds@.len() ==> exists|j: int|
                0 <= j < c.autobuilder_files->0@.len() && c.autobuilder_files->0@[j].name@ == (#[trigger] g.prds@[i]).filename@
                    && is_prd_file(c.autobuilder_files->0@[j].name@) && c.autobuilder_files->0@[j].content is Some,
{
    broadcast use vstd::seq_lib::group_to_multiset_ensures;

    let fs = c.autobuilder_files->0@;
    let m = corpus_map(c);
    let present = c.repos_on_disk@;
    let sv = scan_views(fs, m, present);
    let pk = |v: (Seq<char>, Seq<char>, Seq<char>, Seq<char>, Seq<char>, PrdStatus, Seq<char>, Seq<char>)|
        prd_key(v);
    law_isort_by_sorts(sv, pk);
    lemma_scan_views_from_files(fs, m, present);
    let pr = g.prds@.map_values(|p: PrdNode| prd_view(p));
    assert forall|j: int|
        0 <= j < fs.len() && is_prd_file((#[trigger] fs[j]).name@) && fs[j].content is Some implies prd_loaded(
        g,
        fs[j].name@,
    ) by {
        lemma_scan_views_keeps(fs, m, present, j);
        let v = prd_of_file(fs[j], m, present)->0;
        assert(sv.to_multiset().count(v) > 0);
        assert(pr.to_multiset().count(v) > 0);
        assert(pr.contains(v));
        let i = choose|i: int| 0 <= i < pr.len() && pr[i] == v;
        assert(pr[i] == prd_view(g.prds@[i]));
    }
    assert forall|i: int| 0 <= i < g.prds@.len() implies exists|j: int|
        0 <= j < fs.len() && fs[j].name@ == (#[trigger] g.prds@[i]).filename@ && is_prd_file(fs[j].name@)
            && fs[j].content is Some by {
        let x = pr[i];
        assert(x == prd_view(g.prds@[i]));
        assert(pr.contains(x));
        assert(pr.to_multiset().count(x) > 0);
        assert(sv.contains(x));
        let k = choose|k: int| 0 <= k < sv.len() && sv[k] == x;
        let j = choose|j: int| 0 <= j < fs.len() && prd_of_file(fs[j], m, present) == Some(#[trigger] sv[k]);
    }
}

} // verus!
