//! Text output for the atlas query commands.
use vstd::prelude::*;
use crate::args::NodeKindArg;
use crate::edges::{normalise_prd_filename, pick, prd_filename};
use crate::graph::{find_prd, find_prd_index, find_vision, find_vision_index, lemma_prd_pos_from, Graph};
use crate::model::{kind_name, status_name, Edge, PrdNode, PrdStatus, RepoNode, VisionNode};
use crate::text::{
    chars_eq, chars_of, concat_map, decimal, decimal_chars, join, join_chars, lemma_concat_map_all,
    lemma_concat_map_empty, lemma_concat_map_step, push_chars, push_str, string_of, texts,
};

verus! {

/// The `nodes` line of a vision.
pub open spec fn vision_line(v: VisionNode) -> Seq<char> {
    "vision  "@ + v.slug@ + "  ["@ + v.status@ + "]  prds_drafted="@ + decimal(
        v.prds_drafted@.len(),
    ) + "\n"@
}

/// ` <sep><url>` after a PRD when it records a repo URL, else nothing.
pub open spec fn repo_suffix(sep: Seq<char>, url: Seq<char>) -> Seq<char> {
    if url.len() == 0 {
        Seq::empty()
    } else {
        sep + url
    }
}

/// The `nodes` line of a PRD.
pub open spec fn prd_line(p: PrdNode) -> Seq<char> {
    "prd     "@ + p.filename@ + "  ["@ + status_name(p.status) + "]"@ + repo_suffix(
        "  repo="@,
        p.repo_url@,
    ) + "\n"@
}

/// The `nodes` line of a repo.
pub open spec fn repo_node_line(r: RepoNode) -> Seq<char> {
    "repo    "@ + r.name@ + "  "@ + r.url@ + "\n"@
}

/// Whether the kind filter admits nodes of kind `k` (no filter admits all).
pub open spec fn kind_admits(kind: Option<&NodeKindArg>, k: NodeKindArg) -> bool {
    match kind {
        None => true,
        Some(x) => *x == k,
    }
}

/// The text listing of the graph's nodes the filter admits: visions, then
/// PRDs, then repos, one line each.
pub open spec fn nodes_text(g: &Graph, kind: Option<&NodeKindArg>) -> Seq<char> {
    (if kind_admits(kind, NodeKindArg::Vision) {
        concat_map(g.visions@, |v: VisionNode| vision_line(v))
    } else {
        Seq::empty()
    }) + (if kind_admits(kind, NodeKindArg::Prd) {
        concat_map(g.prds@, |p: PrdNode| prd_line(p))
    } else {
        Seq::empty()
    }) + (if kind_admits(kind, NodeKindArg::Repo) {
        concat_map(g.repos@, |r: RepoNode| repo_node_line(r))
    } else {
        Seq::empty()
    })
}

fn admits(kind: Option<&NodeKindArg>, k: NodeKindArg) -> (r: bool)
    ensures
        r == kind_admits(kind, k),
{
    match kind {
        None => true,
        Some(x) => *x == k,
    }
}

fn push_repo_suffix(out: &mut Vec<char>, sep: &str, url: &String)
    ensures
        final(out)@ == old(out)@ + repo_suffix(sep@, url@),
{
    let u = chars_of(url.as_str());
    if u.len() > 0 {
        push_str(out, sep);
        push_chars(out, &u);
    } else {
        assert(out@ =~= old(out)@ + repo_suffix(sep@, url@));
    }
}

fn push_vision_lines(out: &mut Vec<char>, vs: &Vec<VisionNode>)
    ensures
        final(out)@ == old(out)@ + concat_map(vs@, |v: VisionNode| vision_line(v)),
{
    let ghost f = |v: VisionNode| vision_line(v);
    let ghost base = old(out)@;
    proof {
        lemma_concat_map_empty(vs@, f);
    }
    assert(out@ =~= base + concat_map(vs@.take(0), f));
    let mut i: usize = 0;
    while i < vs.len()
        invariant
            f == (|v: VisionNode| vision_line(v)),
            i <= vs@.len(),
            out@ == base + concat_map(vs@.take(i as int), f),
        decreases vs@.len() - i,
    {
        proof {
            lemma_concat_map_step(vs@, f, i as int);
        }
        let v = &vs[i];
        let ghost before = out@;
        push_str(out, "vision  ");
        push_str(out, v.slug.as_str());
        push_str(out, "  [");
        push_str(out, v.status.as_str());
        push_str(out, "]  prds_drafted=");
        let n = decimal_chars(v.prds_drafted.len());
        push_chars(out, &n);
        push_str(out, "\n");
        assert(out@ =~= before + vision_line(*v));
        i = i + 1;
    }
    proof {
        lemma_concat_map_all(vs@, f);
    }
}

fn push_prd_lines(out: &mut Vec<char>, ps: &Vec<PrdNode>)
    ensures
        final(out)@ == old(out)@ + concat_map(ps@, |p: PrdNode| prd_line(p)),
{
    let ghost f = |p: PrdNode| prd_line(p);
    let ghost base = old(out)@;
    proof {
        lemma_concat_map_empty(ps@, f);
    }
    assert(out@ =~= base + concat_map(ps@.take(0), f));
    let mut i: usize = 0;
    while i < ps.len()
        invariant
            f == (|p: PrdNode| prd_line(p)),
            i <= ps@.len(),
            out@ == base + concat_map(ps@.take(i as int), f),
        decreases ps@.len() - i,
    {
        proof {
            lemma_concat_map_step(ps@, f, i as int);
        }
        let p = &ps[i];
        let ghost before = out@;
        push_str(out, "prd     ");
        push_str(out, p.filename.as_str());
        push_str(out, "  [");
        push_str(out, p.status.name());
        push_str(out, "]");
        push_repo_suffix(out, "  repo=", &p.repo_url);
        push_str(out, "\n");
        assert(out@ =~= before + prd_line(*p));
        i = i + 1;
    }
    proof {
        lemma_concat_map_all(ps@, f);
    }
}

fn push_repo_lines(out: &mut Vec<char>, rs: &Vec<RepoNode>)
    ensures
        final(out)@ == old(out)@ + concat_map(rs@, |r: RepoNode| repo_node_line(r)),
{
    let ghost f = |r: RepoNode| repo_node_line(r);
    let ghost base = old(out)@;
    proof {
        lemma_concat_map_empty(rs@, f);
    }
    assert(out@ =~= base + concat_map(rs@.take(0), f));
    let mut i: usize = 0;
    while i < rs.len()
        invariant
            f == (|r: RepoNode| repo_node_line(r)),
            i <= rs@.len(),
            out@ == base + concat_map(rs@.take(i as int), f),
        decreases rs@.len() - i,
    {
        proof {
            lemma_concat_map_step(rs@, f, i as int);
        }
        let r = &rs[i];
        let ghost before = out@;
        push_str(out, "repo    ");
        push_str(out, r.name.as_str());
        push_str(out, "  ");
        push_str(out, r.url.as_str());
        push_str(out, "\n");
        assert(out@ =~= before + repo_node_line(*r));
        i = i + 1;
    }
    proof {
        lemma_concat_map_all(rs@, f);
    }
}

/// Text output for `atlas nodes [--kind ...]`: one line per node of the
/// admitted kinds.
pub fn nodes(graph: &Graph, kind: Option<&NodeKindArg>) -> (r: String)
    ensures
        r@ == nodes_text(graph, kind),
{
    let mut out: Vec<char> = Vec::new();
    if admits(kind, NodeKindArg::Vision) {
        push_vision_lines(&mut out, &graph.visions);
    }
    let ghost a = out@;
    if admits(kind, NodeKindArg::Prd) {
        push_prd_lines(&mut out, &graph.prds);
    }
    let ghost b = out@;
    if admits(kind, NodeKindArg::Repo) {
        push_repo_lines(&mut out, &graph.repos);
    }
    assert(out@ =~= nodes_text(graph, kind));
    string_of(&out)
}

/// The PRDs whose vision is `slug`, in graph order.
pub open spec fn owned_prds(g: &Graph, slug: Seq<char>) -> Seq<PrdNode> {
    g.prds@.filter(|p: PrdNode| p.vision@ == slug)
}

/// The `show` line of an owned PRD.
pub open spec fn owned_line(p: PrdNode) -> Seq<char> {
    "    "@ + p.filename@ + "  ["@ + status_name(p.status) + "]"@ + repo_suffix("  → "@, p.repo_url@)
        + "\n"@
}

/// The `show` text of vision `v` owning the PRDs `ps`.
pub open spec fn show_text(v: VisionNode, ps: Seq<PrdNode>) -> Seq<char> {
    "vision: "@ + v.slug@ + "  ["@ + v.status@ + "]\n"@ + (if v.seed@.len() == 0 {
        Seq::empty()
    } else {
        "  seed: "@ + v.seed@ + "\n"@
    }) + "  prds ("@ + decimal(ps.len()) + "):\n"@ + concat_map(ps, |p: PrdNode| owned_line(p))
}

/// The PRDs whose vision is `vision_slug`, in graph order.
pub fn owned_prd_list<'a>(graph: &'a Graph, vision_slug: &str) -> (r: Vec<&'a PrdNode>)
    ensures
        r@.map_values(|p: &PrdNode| *p) == owned_prds(graph, vision_slug@),
{
    let slug = chars_of(vision_slug);
    let ghost pred = |p: PrdNode| p.vision@ == vision_slug@;
    let mut owned: Vec<&'a PrdNode> = Vec::new();
    let mut i: usize = 0;
    while i < graph.prds.len()
        invariant
            pred == (|p: PrdNode| p.vision@ == vision_slug@),
            slug@ == vision_slug@,
            i <= graph.prds@.len(),
            owned@.map_values(|p: &PrdNode| *p) == graph.prds@.take(i as int).filter(pred),
        decreases graph.prds@.len() - i,
    {
        let p = &graph.prds[i];
        assert(graph.prds@.take(i + 1) =~= graph.prds@.take(i as int).push(*p));
        proof {
            graph.prds@.take(i as int).lemma_filter_push(*p, pred);
        }
        let pv = chars_of(p.vision.as_str());
        if chars_eq(&pv, &slug) {
            let ghost before = owned@;
            owned.push(p);
            assert(owned@.map_values(|p: &PrdNode| *p) =~= before.map_values(|p: &PrdNode| *p).push(*p));
        }
        i = i + 1;
    }
    assert(graph.prds@.take(graph.prds@.len() as int) =~= graph.prds@);
    owned
}

/// Text output for `atlas show <vision-slug>`: the vision and the PRDs it
/// owns, or `None` when no vision has that slug.
pub fn show(graph: &Graph, vision_slug: &str) -> (r: Option<String>)
    ensures
        match find_vision(graph, vision_slug@) {
            None => r is None,
            Some(v) => r matches Some(t) && t@ == show_text(v, owned_prds(graph, vision_slug@)),
        },
{
    let slug = chars_of(vision_slug);
    let k = match find_vision_index(graph, &slug) {
        None => return None,
        Some(k) => k,
    };
    let v = &graph.visions[k];
    let owned = owned_prd_list(graph, vision_slug);
    let ghost ps = owned@.map_values(|p: &PrdNode| *p);
    let mut out: Vec<char> = Vec::new();
    push_str(&mut out, "vision: ");
    push_str(&mut out, v.slug.as_str());
    push_str(&mut out, "  [");
    push_str(&mut out, v.status.as_str());
    push_str(&mut out, "]\n");
    let seed = chars_of(v.seed.as_str());
    if seed.len() > 0 {
        push_str(&mut out, "  seed: ");
        push_chars(&mut out, &seed);
        push_str(&mut out, "\n");
    }
    push_str(&mut out, "  prds (");
    let n = decimal_chars(owned.len());
    push_chars(&mut out, &n);
    push_str(&mut out, "):\n");
    let ghost head = out@;
    let ghost f = |p: PrdNode| owned_line(p);
    proof {
        lemma_concat_map_empty(ps, f);
    }
    assert(out@ =~= head + concat_map(ps.take(0), f));
    let mut j: usize = 0;
    while j < owned.len()
        invariant
            f == (|p: PrdNode| owned_line(p)),
            ps == owned@.map_values(|p: &PrdNode| *p),
            j <= owned@.len(),
            out@ == head + concat_map(ps.take(j as int), f),
        decreases owned@.len() - j,
    {
        proof {
            lemma_concat_map_step(ps, f, j as int);
        }
        let p = owned[j];
        let ghost before = out@;
        push_str(&mut out, "    ");
        push_str(&mut out, p.filename.as_str());
        push_str(&mut out, "  [");
        push_str(&mut out, p.status.name());
        push_str(&mut out, "]");
        push_repo_suffix(&mut out, "  → ", &p.repo_url);
        push_str(&mut out, "\n");
        assert(ps[j as int] == *p);
        assert(out@ =~= before + owned_line(*p));
        j = j + 1;
    }
    proof {
        lemma_concat_map_all(ps, f);
    }
    assert(out@ =~= show_text(*v, owned_prds(graph, vision_slug@)));
    Some(string_of(&out))
}

// ── Dependencies ─────────────────────────────────────────────────────────────

/// The `deps` line of edge `e`, naming the PRD `name` at its other end.
pub open spec fn edge_line(name: Seq<char>, e: Edge) -> Seq<char> {
    "    "@ + name + "  ("@ + kind_name(e.kind) + ", "@ + e.source@ + ")\n"@
}

/// The edges the graph's index gives out of `f` (what `f` depends on).
pub open spec fn out_of(g: &Graph, f: Seq<char>) -> Seq<Edge> {
    pick(g.edge_set.edges@, g.edge_index.out_positions(f))
}

/// The edges the graph's index gives into `f` (what depends on `f`).
pub open spec fn into(g: &Graph, f: Seq<char>) -> Seq<Edge> {
    pick(g.edge_set.edges@, g.edge_index.in_positions(f))
}

/// The `deps` text of PRD `p`: its prerequisites, then its dependents, each
/// edge with its kind and provenance.
pub open spec fn deps_text(g: &Graph, p: PrdNode) -> Seq<char> {
    let outs = out_of(g, p.filename@);
    let ins = into(g, p.filename@);
    "prd: "@ + p.filename@ + "  ["@ + status_name(p.status) + "]\n"@ + "  depends on ("@ + decimal(
        outs.len(),
    ) + "):\n"@ + concat_map(outs, |e: Edge| edge_line(e.to@, e)) + "  needed by ("@ + decimal(
        ins.len(),
    ) + "):\n"@ + concat_map(ins, |e: Edge| edge_line(e.from@, e))
}

fn push_edge_lines(out: &mut Vec<char>, es: &Vec<&Edge>, to_side: bool)
    ensures
        final(out)@ == old(out)@ + if to_side {
            concat_map(es@.map_values(|e: &Edge| *e), |e: Edge| edge_line(e.to@, e))
        } else {
            concat_map(es@.map_values(|e: &Edge| *e), |e: Edge| edge_line(e.from@, e))
        },
{
    let ghost s = es@.map_values(|e: &Edge| *e);
    let ghost f = |e: Edge|
        edge_line(
            if to_side {
                e.to@
            } else {
                e.from@
            },
            e,
        );
    let ghost base = old(out)@;
    proof {
        lemma_concat_map_empty(s, f);
    }
    assert(out@ =~= base + concat_map(s.take(0), f));
    let mut i: usize = 0;
    while i < es.len()
        invariant
            s == es@.map_values(|e: &Edge| *e),
            f == (|e: Edge|
                edge_line(
                    if to_side {
                        e.to@
                    } else {
                        e.from@
                    },
                    e,
                )),
            i <= es@.len(),
            out@ == base + concat_map(s.take(i as int), f),
        decreases es@.len() - i,
    {
        proof {
            lemma_concat_map_step(s, f, i as int);
        }
        let e = es[i];
        let ghost before = out@;
        push_str(out, "    ");
        if to_side {
            push_str(out, e.to.as_str());
        } else {
            push_str(out, e.from.as_str());
        }
        push_str(out, "  (");
        push_str(out, e.kind.name());
        push_str(out, ", ");
        push_str(out, e.source.as_str());
        push_str(out, ")\n");
        assert(s[i as int] == *e);
        assert(out@ =~= before + f(*e));
        i = i + 1;
    }
    proof {
        lemma_concat_map_all(s, f);
        if to_side {
            assert(f =~= (|e: Edge| edge_line(e.to@, e)));
        } else {
            assert(f =~= (|e: Edge| edge_line(e.from@, e)));
        }
    }
}

/// The PRD a `deps` argument names: given by filename or by slug.
pub fn find_prd_named<'a>(graph: &'a Graph, prd: &str) -> (r: Option<&'a PrdNode>)
    ensures
        match r {
            Some(p) => find_prd(graph, prd_filename(prd@)) == Some(*p),
            None => find_prd(graph, prd_filename(prd@)) is None,
        },
{
    let filename = normalise_prd_filename(prd);
    let fc = chars_of(filename.as_str());
    match find_prd_index(graph, &fc) {
        None => None,
        Some(k) => {
            proof {
                lemma_prd_pos_from(graph.prds@, fc@, 0);
            }
            Some(&graph.prds[k])
        },
    }
}

/// Text output for `atlas deps <prd>`: what the PRD depends on and what
/// depends on it, or `None` when no PRD has that name.  The PRD may be given
/// by filename or by slug.
pub fn deps(graph: &Graph, prd: &str) -> (r: Option<String>)
    ensures
        match find_prd(graph, prd_filename(prd@)) {
            None => r is None,
            Some(p) => r matches Some(t) && t@ == deps_text(graph, p),
        },
{
    let p = match find_prd_named(graph, prd) {
        None => return None,
        Some(p) => p,
    };
    let outs = graph.edge_index.out_edges(graph.edge_set.edges.as_slice(), p.filename.as_str());
    let ins = graph.edge_index.in_edges(graph.edge_set.edges.as_slice(), p.filename.as_str());
    assert(outs@.map_values(|e: &Edge| *e) == out_of(graph, p.filename@));
    assert(ins@.map_values(|e: &Edge| *e) == into(graph, p.filename@));
    assert(find_prd(graph, prd_filename(prd@)) == Some(*p));
    let mut out: Vec<char> = Vec::new();
    push_str(&mut out, "prd: ");
    push_str(&mut out, p.filename.as_str());
    push_str(&mut out, "  [");
    push_str(&mut out, p.status.name());
    push_str(&mut out, "]\n");
    push_str(&mut out, "  depends on (");
    let n = decimal_chars(outs.len());
    push_chars(&mut out, &n);
    push_str(&mut out, "):\n");
    push_edge_lines(&mut out, &outs, true);
    push_str(&mut out, "  needed by (");
    let m = decimal_chars(ins.len());
    push_chars(&mut out, &m);
    push_str(&mut out, "):\n");
    push_edge_lines(&mut out, &ins, false);
    assert(out@ =~= deps_text(graph, *p));
    Some(string_of(&out))
}

/// The status name of the PRD named `f`, or `unknown` when no PRD has that name.
pub open spec fn status_text(g: &Graph, f: Seq<char>) -> Seq<char> {
    match find_prd(g, f) {
        Some(q) => status_name(q.status),
        None => "unknown"@,
    }
}

/// Whether the prerequisite of `e` is not a shipped PRD.
pub open spec fn blocking(g: &Graph, e: Edge) -> bool {
    !(find_prd(g, e.to@) matches Some(q) && q.status == PrdStatus::Shipped)
}

/// The edges out of `p` whose prerequisite is not shipped.
pub open spec fn blockers(g: &Graph, p: PrdNode) -> Seq<Edge> {
    out_of(g, p.filename@).filter(|e: Edge| blocking(g, e))
}

/// A blocking prerequisite as `name [status]`.
pub open spec fn waits_on(g: &Graph, e: Edge) -> Seq<char> {
    e.to@ + " ["@ + status_text(g, e.to@) + "]"@
}

/// The `blocked` line of PRD `p`.
pub open spec fn blocked_line(g: &Graph, p: PrdNode) -> Seq<char> {
    p.filename@ + "  ["@ + status_name(p.status) + "]  waits on: "@ + join(
        blockers(g, p).map_values(|e: Edge| waits_on(g, e)),
        ", "@,
    ) + "\n"@
}

/// The PRDs with at least one un-shipped prerequisite, in graph order.
pub open spec fn blocked_prds(g: &Graph) -> Seq<PrdNode> {
    g.prds@.filter(|p: PrdNode| blockers(g, p).len() > 0)
}

/// The `blocked` text: one line per blocked PRD.
pub open spec fn blocked_text(g: &Graph) -> Seq<char> {
    concat_map(blocked_prds(g), |p: PrdNode| blocked_line(g, p))
}

fn status_text_exec(g: &Graph, f: &String) -> (r: Vec<char>)
    ensures
        r@ == status_text(g, f@),
{
    let fc = chars_of(f.as_str());
    match find_prd_index(g, &fc) {
        Some(k) => chars_of(g.prds[k].status.name()),
        None => chars_of("unknown"),
    }
}

fn is_blocking(g: &Graph, e: &Edge) -> (r: bool)
    ensures
        r == blocking(g, *e),
{
    let fc = chars_of(e.to.as_str());
    match find_prd_index(g, &fc) {
        Some(k) => !g.prds[k].status.is_shipped(),
        None => true,
    }
}

/// The edges out of `p` whose prerequisite is not a shipped PRD, in index order.
pub fn blocker_edges<'a>(graph: &'a Graph, p: &PrdNode) -> (r: Vec<&'a Edge>)
    ensures
        r@.map_values(|e: &Edge| *e) == blockers(graph, *p),
{
    let g = graph;
    let outs = g.edge_index.out_edges(g.edge_set.edges.as_slice(), p.filename.as_str());
    let ghost s = outs@.map_values(|e: &Edge| *e);
    let ghost pred = |e: Edge| blocking(g, e);
    let mut bs: Vec<&'a Edge> = Vec::new();
    let mut i: usize = 0;
    while i < outs.len()
        invariant
            s == outs@.map_values(|e: &Edge| *e),
            s == out_of(g, p.filename@),
            pred == (|e: Edge| blocking(g, e)),
            i <= outs@.len(),
            bs@.map_values(|e: &Edge| *e) == s.take(i as int).filter(pred),
        decreases outs@.len() - i,
    {
        let e = outs[i];
        assert(s[i as int] == *e);
        assert(s.take(i + 1) =~= s.take(i as int).push(*e));
        proof {
            s.take(i as int).lemma_filter_push(*e, pred);
        }
        if is_blocking(g, e) {
            let ghost before = bs@;
            bs.push(e);
            assert(bs@.map_values(|e: &Edge| *e) =~= before.map_values(|e: &Edge| *e).push(*e));
        }
        i = i + 1;
    }
    assert(s.take(outs@.len() as int) =~= s);
    bs
}

/// The blocking prerequisites of `p`, each as `name [status]`.
fn blocker_names(g: &Graph, p: &PrdNode) -> (r: Vec<Vec<char>>)
    ensures
        texts(r@) == blockers(g, *p).map_values(|e: Edge| waits_on(g, e)),
{
    let bs = blocker_edges(g, p);
    let ghost s = bs@.map_values(|e: &Edge| *e);
    let ghost w = |e: Edge| waits_on(g, e);
    let mut names: Vec<Vec<char>> = Vec::new();
    let mut i: usize = 0;
    while i < bs.len()
        invariant
            s == bs@.map_values(|e: &Edge| *e),
            w == (|e: Edge| waits_on(g, e)),
            i <= bs@.len(),
            texts(names@) == s.take(i as int).map_values(w),
        decreases bs@.len() - i,
    {
        let e = bs[i];
        assert(s[i as int] == *e);
        let mut name: Vec<char> = Vec::new();
        push_str(&mut name, e.to.as_str());
        push_str(&mut name, " [");
        let st = status_text_exec(g, &e.to);
        push_chars(&mut name, &st);
        push_str(&mut name, "]");
        assert(name@ =~= w(*e));
        let ghost before = names@;
        names.push(name);
        assert(texts(names@) =~= texts(before).push(name@));
        assert(s.take(i + 1).map_values(w) =~= s.take(i as int).map_values(w).push(w(*e)));
        i = i + 1;
    }
    assert(s.take(bs@.len() as int) =~= s);
    names
}

/// Text output for `atlas blocked`: every PRD with at least one dependency
/// whose status is not `shipped`, with those dependencies and their statuses.
pub fn blocked(graph: &Graph) -> (r: String)
    ensures
        r@ == blocked_text(graph),
{
    let g = graph;
    let ghost pred = |p: PrdNode| blockers(g, p).len() > 0;
    let ghost f = |p: PrdNode| blocked_line(g, p);
    let mut out: Vec<char> = Vec::new();
    assert(g.prds@.take(0).filter(pred) =~= Seq::<PrdNode>::empty());
    let mut i: usize = 0;
    while i < g.prds.len()
        invariant
            pred == (|p: PrdNode| blockers(g, p).len() > 0),
            f == (|p: PrdNode| blocked_line(g, p)),
            i <= g.prds@.len(),
            out@ == concat_map(g.prds@.take(i as int).filter(pred), f),
        decreases g.prds@.len() - i,
    {
        let p = &g.prds[i];
        assert(g.prds@.take(i + 1) =~= g.prds@.take(i as int).push(*p));
        proof {
            g.prds@.take(i as int).lemma_filter_push(*p, pred);
        }
        let names = blocker_names(g, p);
        if names.len() > 0 {
            let ghost before = out@;
            push_str(&mut out, p.filename.as_str());
            push_str(&mut out, "  [");
            push_str(&mut out, p.status.name());
            push_str(&mut out, "]  waits on: ");
            let joined = join_chars(&names, ", ");
            push_chars(&mut out, &joined);
            push_str(&mut out, "\n");
            let ghost t = g.prds@.take(i as int).filter(pred);
            assert(t.push(*p).drop_last() =~= t);
            assert(out@ =~= before + f(*p));
        }
        i = i + 1;
    }
    assert(g.prds@.take(g.prds@.len() as int) =~= g.prds@);
    string_of(&out)
}

// ── Selections for structured output ─────────────────────────────────────────

/// The nodes of the kinds the filter admits: visions, PRDs and repos, each in
/// graph order (empty for a kind the filter leaves out).
pub fn nodes_of_kind<'a>(graph: &'a Graph, kind: Option<&NodeKindArg>) -> (r: (
    Vec<&'a VisionNode>,
    Vec<&'a PrdNode>,
    Vec<&'a RepoNode>,
))
    ensures
        r.0@.map_values(|v: &VisionNode| *v) == if kind_admits(kind, NodeKindArg::Vision) {
            graph.visions@
        } else {
            Seq::empty()
        },
        r.1@.map_values(|p: &PrdNode| *p) == if kind_admits(kind, NodeKindArg::Prd) {
            graph.prds@
        } else {
            Seq::empty()
        },
        r.2@.map_values(|x: &RepoNode| *x) == if kind_admits(kind, NodeKindArg::Repo) {
            graph.repos@
        } else {
            Seq::empty()
        },
{
    let mut vs: Vec<&'a VisionNode> = Vec::new();
    if admits(kind, NodeKindArg::Vision) {
        let mut i: usize = 0;
        while i < graph.visions.len()
            invariant
                i <= graph.visions@.len(),
                vs@.map_values(|v: &VisionNode| *v) == graph.visions@.take(i as int),
            decreases graph.visions@.len() - i,
        {
            let ghost before = vs@;
            vs.push(&graph.visions[i]);
            assert(vs@.map_values(|v: &VisionNode| *v) =~= before.map_values(|v: &VisionNode| *v).push(graph.visions@[i as int]));
            assert(graph.visions@.take(i + 1) =~= graph.visions@.take(i as int).push(graph.visions@[i as int]));
            i = i + 1;
        }
        assert(graph.visions@.take(graph.visions@.len() as int) =~= graph.visions@);
    } else {
        assert(vs@.map_values(|v: &VisionNode| *v) =~= Seq::<VisionNode>::empty());
    }
    let mut ps: Vec<&'a PrdNode> = Vec::new();
    if admits(kind, NodeKindArg::Prd) {
        let mut i: usize = 0;
        while i < graph.prds.len()
            invariant
                i <= graph.prds@.len(),
                ps@.map_values(|p: &PrdNode| *p) == graph.prds@.take(i as int),
            decreases graph.prds@.len() - i,
        {
            let ghost before = ps@;
            ps.push(&graph.prds[i]);
            assert(ps@.map_values(|p: &PrdNode| *p) =~= before.map_values(|p: &PrdNode| *p).push(graph.prds@[i as int]));
            assert(graph.prds@.take(i + 1) =~= graph.prds@.take(i as int).push(graph.prds@[i as int]));
            i = i + 1;
        }
        assert(graph.prds@.take(graph.prds@.len() as int) =~= graph.prds@);
    } else {
        assert(ps@.map_values(|p: &PrdNode| *p) =~= Seq::<PrdNode>::empty());
    }
    let mut rs: Vec<&'a RepoNode> = Vec::new();
    if admits(kind, NodeKindArg::Repo) {
        let mut i: usize = 0;
        while i < graph.repos.len()
            invariant
                i <= graph.repos@.len(),
                rs@.map_values(|x: &RepoNode| *x) == graph.repos@.take(i as int),
            decreases graph.repos@.len() - i,
        {
            let ghost before = rs@;
            rs.push(&graph.repos[i]);
            assert(rs@.map_values(|x: &RepoNode| *x) =~= before.map_values(|x: &RepoNode| *x).push(graph.repos@[i as int]));
            assert(graph.repos@.take(i + 1) =~= graph.repos@.take(i as int).push(graph.repos@[i as int]));
            i = i + 1;
        }
        assert(graph.repos@.take(graph.repos@.len() as int) =~= graph.repos@);
    } else {
        assert(rs@.map_values(|x: &RepoNode| *x) =~= Seq::<RepoNode>::empty());
    }
    (vs, ps, rs)
}

/// The status of the PRD named `f`, when the graph has one.
pub open spec fn status_named(g: &Graph, f: Seq<char>) -> Option<PrdStatus> {
    match find_prd(g, f) {
        Some(q) => Some(q.status),
        None => None,
    }
}

fn status_named_exec(g: &Graph, f: &String) -> (r: Option<PrdStatus>)
    ensures
        r == status_named(g, f@),
{
    let fc = chars_of(f.as_str());
    match find_prd_index(g, &fc) {
        Some(k) => Some(g.prds[k].status),
        None => None,
    }
}

/// Whether `entry` lists PRD `p` with its blocking edges, each with the status
/// of its prerequisite.
pub open spec fn blocked_entry(g: &Graph, p: PrdNode, entry: (&PrdNode, Vec<(&Edge, Option<PrdStatus>)>)) -> bool {
    &&& *entry.0 == p
    &&& entry.1@.map_values(|x: (&Edge, Option<PrdStatus>)| *x.0) == blockers(g, p)
    &&& forall|j: int| 0 <= j < entry.1@.len() ==> (#[trigger] entry.1@[j]).1 == status_named(g, entry.1@[j].0.to@)
}

/// Every PRD with at least one un-shipped prerequisite, in graph order, with
/// those prerequisites' edges and statuses.
pub fn blocked_list<'a>(graph: &'a Graph) -> (r: Vec<(&'a PrdNode, Vec<(&'a Edge, Option<PrdStatus>)>)>)
    ensures
        r@.len() == blocked_prds(graph).len(),
        forall|i: int| 0 <= i < r@.len() ==> blocked_entry(graph, blocked_prds(graph)[i], #[trigger] r@[i]),
{
    let g = graph;
    let ghost pred = |p: PrdNode| blockers(g, p).len() > 0;
    let mut out: Vec<(&'a PrdNode, Vec<(&'a Edge, Option<PrdStatus>)>)> = Vec::new();
    let mut i: usize = 0;
    while i < g.prds.len()
        invariant
            pred == (|p: PrdNode| blockers(g, p).len() > 0),
            i <= g.prds@.len(),
            out@.len() == g.prds@.take(i as int).filter(pred).len(),
            forall|k: int| 0 <= k < out@.len() ==> blocked_entry(g, g.prds@.take(i as int).filter(pred)[k], #[trigger] out@[k]),
        decreases g.prds@.len() - i,
    {
        let p = &g.prds[i];
        let ghost t = g.prds@.take(i as int).filter(pred);
        assert(g.prds@.take(i + 1) =~= g.prds@.take(i as int).push(*p));
        proof {
            g.prds@.take(i as int).lemma_filter_push(*p, pred);
        }
        let bs = blocker_edges(g, p);
        let mut with: Vec<(&'a Edge, Option<PrdStatus>)> = Vec::new();
        let mut j: usize = 0;
        while j < bs.len()
            invariant
                j <= bs@.len(),
                with@.map_values(|x: (&Edge, Option<PrdStatus>)| *x.0) == bs@.map_values(|e: &Edge| *e).take(j as int),
                forall|m: int| 0 <= m < with@.len() ==> (#[trigger] with@[m]).1 == status_named(g, with@[m].0.to@),
            decreases bs@.len() - j,
        {
            let e = bs[j];
            let st = status_named_exec(g, &e.to);
            let ghost before = with@;
            with.push((e, st));
            assert(with@.map_values(|x: (&Edge, Option<PrdStatus>)| *x.0) =~= before.map_values(|x: (&Edge, Option<PrdStatus>)| *x.0).push(*e));
            assert(bs@.map_values(|e: &Edge| *e)[j as int] == *e);
            assert(bs@.map_values(|e: &Edge| *e).take(j + 1) =~= bs@.map_values(|e: &Edge| *e).take(j as int).push(*e));
            j = j + 1;
        }
        assert(bs@.map_values(|e: &Edge| *e).take(bs@.len() as int) =~= bs@.map_values(|e: &Edge| *e));
        if bs.len() > 0 {
            let ghost before = out@;
            out.push((p, with));
            assert forall|k: int| 0 <= k < out@.len() implies blocked_entry(g, t.push(*p)[k], #[trigger] out@[k]) by {
                if k < before.len() {
                    assert(out@[k] == before[k]);
                    assert(t.push(*p)[k] == t[k]);
                }
            }
        }
        i = i + 1;
    }
    assert(g.prds@.take(g.prds@.len() as int) =~= g.prds@);
    out
}


// ── Laws ─────────────────────────────────────────────────────────────────────

/// A PRD is blocked by every edge out of it whose prerequisite is drafted,
/// in flight, or not a PRD of the graph: such an edge is among its blockers
/// and puts it in the blocked list.  A blocker never leads to a shipped
/// PRD, and every blocked PRD is a PRD of the graph with a blocker.
pub proof fn law_blocked_by_unshipped(g: &Graph)
    ensures
        forall|i: int, e: Edge|
            0 <= i < g.prds@.len() && #[trigger] out_of(g, g.prds@[i].filename@).contains(e) && match find_prd(
                g,
                e.to@,
            ) {
                Some(q) => q.status == PrdStatus::Drafted || q.status == PrdStatus::InFlight,
                None => true,
            } ==> blocked_prds(g).contains(g.prds@[i]) && blockers(g, g.prds@[i]).contains(e),
        forall|p: PrdNode, e: Edge|
            #[trigger] blockers(g, p).contains(e) ==> out_of(g, p.filename@).contains(e) && !(find_prd(
                g,
                e.to@,
            ) matches Some(q) && q.status == PrdStatus::Shipped),
        forall|p: PrdNode|
            #[trigger] blocked_prds(g).contains(p) ==> g.prds@.contains(p) && blockers(g, p).len() > 0,
{
    broadcast use vstd::seq_lib::group_filter_ensures;

    let bp = |p: PrdNode| blockers(g, p).len() > 0;
    assert forall|i: int, e: Edge|
        0 <= i < g.prds@.len() && #[trigger] out_of(g, g.prds@[i].filename@).contains(e) && match find_prd(
            g,
            e.to@,
        ) {
            Some(q) => q.status == PrdStatus::Drafted || q.status == PrdStatus::InFlight,
            None => true,
        } implies blocked_prds(g).contains(g.prds@[i]) && blockers(g, g.prds@[i]).contains(e) by {
        let p = g.prds@[i];
        let os = out_of(g, p.filename@);
        let pred = |e: Edge| blocking(g, e);
        let k = choose|k: int| 0 <= k < os.len() && os[k] == e;
        assert(pred(os[k]));
        os.lemma_filter_contains(pred, k);
        assert(blockers(g, p).contains(e));
        assert(blockers(g, p).len() > 0);
        assert(bp(g.prds@[i]));
        g.prds@.lemma_filter_contains(bp, i);
    }
    assert forall|p: PrdNode, e: Edge| #[trigger] blockers(g, p).contains(e) implies out_of(
        g,
        p.filename@,
    ).contains(e) && !(find_prd(g, e.to@) matches Some(q) && q.status == PrdStatus::Shipped) by {
        let pred = |e: Edge| blocking(g, e);
        let os = out_of(g, p.filename@);
        os.lemma_filter_contains_rev(pred, e);
        let k = choose|k: int| 0 <= k < os.filter(pred).len() && os.filter(pred)[k] == e;
        assert(pred(os.filter(pred)[k]));
    }
    assert forall|p: PrdNode| #[trigger] blocked_prds(g).contains(p) implies g.prds@.contains(p) && blockers(
        g,
        p,
    ).len() > 0 by {
        g.prds@.lemma_filter_contains_rev(bp, p);
        let k = choose|k: int| 0 <= k < g.prds@.filter(bp).len() && g.prds@.filter(bp)[k] == p;
        assert(bp(g.prds@.filter(bp)[k]));
    }
}

} // verus!
