//! Rendering the atlas graph as Graphviz DOT, Mermaid, or a terminal tree.
//!
//! All renderers are pure functions over the in-memory graph — no I/O, no
//! corpus writes.  Output is deterministic: nodes are sorted by (vision slug,
//! prd filename) and edges by (from, to) before rendering.
use vstd::prelude::*;
use crate::edges::{law_index_selects_edges, pick};
use crate::graph::{
    find_prd, find_prd_index, find_vision, find_vision_index, lemma_find_prd_perm,
    index_matches, lemma_find_vision_perm, lemma_vision_pos_from, prd_pos_from, vision_known,
    vision_pos_from, distinct_names, edge_kinds_agree, Graph,
};
use crate::model::{copy_edge, Edge, EdgeKind, PrdNode, PrdStatus, VisionNode};
use crate::order::{
    isort, keys_lt, law_isort_by_sorts, lemma_filter_map_forall, lemma_filter_map_keeps,
    lemma_isort_map, lemma_row_isort_is_isort_by, lemma_sorted_set_contains, lemma_sorted_set_keeps,
    lemma_sorted_set_strict, lemma_sorted_set_uniform, lemma_text_isort_multiset, strictly_ascending,
    ascending, lemma_text_isort_sorted, Keyed, row_key, row_isort, rows, sort_keyed, sort_rows, sort_texts, sorted_set, sorted_set_of,
    text_isort,
};
use crate::perm::{
    lemma_concat_map_agree, lemma_concat_map_map, lemma_filter_is_filter_map, lemma_filter_map_perm,
    lemma_keys_sorted_unique, lemma_map_is_filter_map, lemma_row_isort_perm, lemma_sorted_set_perm,
    lemma_text_isort_perm,
};
use crate::text::{
    chars_eq, chars_of, concat_map, join, join_chars, lemma_concat_map_all, lemma_concat_map_empty,
    lemma_concat_map_step, push_chars, push_str, starts_with, ends_with, contains, occurs_at, lemma_find_from, strip_prefix, strip_prefix_chars, strip_suffix,
    strip_suffix_chars, texts, trim_start_matches, trim_start_matches_str,
};

verus! {

/// Render format requested by the caller.
#[derive(Clone, Copy, Debug, PartialEq, Eq, Structural)]
pub enum RenderFormat {
    /// Graphviz DOT digraph.
    Dot,
    /// Mermaid `graph TD` block.
    Mermaid,
    /// Terminal tree (no external tool required).
    Tree,
}

/// Options controlling what the renderer includes.
#[derive(Clone, Debug)]
pub struct RenderOptions {
    /// When `Some(slug)`, restrict output to this vision and its PRDs/repos.
    pub vision_filter: Option<String>,
    /// When `true`, only include `Shipped` PRDs (and their repos).
    pub shipped_only: bool,
}

impl Default for RenderOptions {
    fn default() -> (r: Self)
        ensures
            r.vision_filter is None,
            !r.shipped_only,
    {
        RenderOptions { vision_filter: None, shipped_only: false }
    }
}

// ── node-ID helpers ──────────────────────────────────────────────────────────

/// A character kept as it is in a node identifier.
pub open spec fn is_id_char(c: char) -> bool {
    ('0' <= c && c <= '9') || ('A' <= c && c <= 'Z') || ('a' <= c && c <= 'z') || c == '_'
}

/// `s` with every character other than an ASCII letter, digit or `_` replaced
/// by `_` (a safe DOT/Mermaid node identifier).
pub open spec fn safe_id_text(s: Seq<char>) -> Seq<char> {
    s.map_values(|c: char| if is_id_char(c) { c } else { '_' })
}

/// A text as a node identifier.
pub fn safe_id_chars(s: &Vec<char>) -> (r: Vec<char>)
    ensures
        r@ == safe_id_text(s@),
{
    let mut out: Vec<char> = Vec::new();
    let mut i: usize = 0;
    while i < s.len()
        invariant
            i <= s@.len(),
            out@ == safe_id_text(s@.take(i as int)),
        decreases s@.len() - i,
    {
        let c = s[i];
        let ok = ('0' <= c && c <= '9') || ('A' <= c && c <= 'Z') || ('a' <= c && c <= 'z') || c
            == '_';
        if ok {
            out.push(c);
        } else {
            out.push('_');
        }
        assert(safe_id_text(s@.take(i + 1)) =~= safe_id_text(s@.take(i as int)).push(
            if is_id_char(c) {
                c
            } else {
                '_'
            },
        ));
        i = i + 1;
    }
    assert(s@.take(s@.len() as int) =~= s@);
    out
}

/// Convert an arbitrary string to a safe DOT/Mermaid node identifier.
pub fn safe_id(s: &str) -> (r: String)
    ensures
        r@ == safe_id_text(s@),
{
    let v = chars_of(s);
    let r = safe_id_chars(&v);
    crate::text::string_of(&r)
}

/// A PRD's display label: its filename without `PRD-` and `.md`, when it has both.
pub open spec fn prd_label(f: Seq<char>) -> Seq<char> {
    match strip_prefix(f, "PRD-"@) {
        Some(rest) => match strip_suffix(rest, ".md"@) {
            Some(core) => core,
            None => f,
        },
        None => f,
    }
}

/// The label of a PRD node: its filename without `PRD-` and `.md`.
pub fn prd_label_chars(f: &Vec<char>) -> (r: Vec<char>)
    ensures
        r@ == prd_label(f@),
{
    let pre = chars_of("PRD-");
    let suf = chars_of(".md");
    match strip_prefix_chars(f, &pre) {
        Some(rest) => match strip_suffix_chars(&rest, &suf) {
            Some(core) => core,
            None => crate::text::copy_chars(f),
        },
        None => crate::text::copy_chars(f),
    }
}

/// A repo's display label: its URL without a leading `https://github.com/` or `https://`.
pub open spec fn repo_label(url: Seq<char>) -> Seq<char> {
    trim_start_matches(trim_start_matches(url, "https://github.com/"@), "https://"@)
}

/// The label of a repo node: its URL without the GitHub or `https://` prefix.
pub fn repo_label_chars(url: &Vec<char>) -> (r: Vec<char>)
    ensures
        r@ == repo_label(url@),
{
    let a = trim_start_matches_str(url, "https://github.com/");
    trim_start_matches_str(&a, "https://")
}

// ── status helpers ───────────────────────────────────────────────────────────

/// The DOT attributes of a PRD node with status `status`.
pub open spec fn prd_attrs_text(status: PrdStatus) -> Seq<char> {
    match status {
        PrdStatus::Drafted => "shape=box, style=filled, fillcolor=\"#eeeeee\""@,
        PrdStatus::InFlight => "shape=box, style=filled, fillcolor=\"#fff3cd\""@,
        PrdStatus::Shipped => "shape=box, style=filled, fillcolor=\"#d4edda\""@,
    }
}

fn dot_prd_attrs(status: PrdStatus) -> (r: &'static str)
    ensures
        r@ == prd_attrs_text(status),
{
    match status {
        PrdStatus::Drafted => "shape=box, style=filled, fillcolor=\"#eeeeee\"",
        PrdStatus::InFlight => "shape=box, style=filled, fillcolor=\"#fff3cd\"",
        PrdStatus::Shipped => "shape=box, style=filled, fillcolor=\"#d4edda\"",
    }
}

/// The DOT style suffix of a dependency edge of kind `kind`.
pub open spec fn edge_style_text(kind: EdgeKind) -> Seq<char> {
    match kind {
        EdgeKind::Frontmatter => ""@,
        EdgeKind::Gossip => " [style=dashed]"@,
    }
}

fn dot_edge_style(kind: EdgeKind) -> (r: &'static str)
    ensures
        r@ == edge_style_text(kind),
{
    match kind {
        EdgeKind::Frontmatter => "",
        EdgeKind::Gossip => " [style=dashed]",
    }
}

// ── scope ────────────────────────────────────────────────────────────────────

/// Whether the options select vision `v`.
pub open spec fn vision_selected(opts: &RenderOptions, v: VisionNode) -> bool {
    match opts.vision_filter {
        Some(f) => v.slug@ == f@,
        None => true,
    }
}

/// The slugs of the visions the options select, in graph order.
pub open spec fn selected_slugs(g: &Graph, opts: &RenderOptions) -> Seq<Seq<char>> {
    g.visions@.filter_map(
        |v: VisionNode|
            if vision_selected(opts, v) {
                Some(v.slug@)
            } else {
                None
            },
    )
}

/// The distinct selected vision slugs, ascending.
pub open spec fn scope_slugs(g: &Graph, opts: &RenderOptions) -> Seq<Seq<char>> {
    sorted_set(selected_slugs(g, opts))
}

/// Whether a PRD is drawn: owned by a selected vision (any PRD when no vision
/// filter is set), and shipped if only shipped PRDs are wanted.
pub open spec fn prd_in_scope(slugs: Seq<Seq<char>>, opts: &RenderOptions, p: PrdNode) -> bool {
    &&& (opts.vision_filter is None || slugs.contains(p.vision@))
    &&& (!opts.shipped_only || p.status == PrdStatus::Shipped)
}

/// `(vision, filename)` of every PRD drawn, sorted.
pub open spec fn scoped_rows(g: &Graph, opts: &RenderOptions) -> Seq<Seq<Seq<char>>> {
    row_isort(
        g.prds@.filter_map(
            |p: PrdNode|
                if prd_in_scope(scope_slugs(g, opts), opts, p) {
                    Some(seq![p.vision@, p.filename@])
                } else {
                    None
                },
        ),
    )
}

/// Whether the PRD named `f` is drawn.
pub open spec fn file_in_scope(g: &Graph, opts: &RenderOptions, f: Seq<char>) -> bool {
    exists|i: int| 0 <= i < scoped_rows(g, opts).len() && #[trigger] scoped_rows(g, opts)[i][1] == f
}

/// The repo URL drawn for the PRD named `f`: that of the first PRD of that
/// name, when it is shipped and has one.
pub open spec fn shipped_url(g: &Graph, f: Seq<char>) -> Option<Seq<char>> {
    match find_prd(g, f) {
        Some(p) => if p.status == PrdStatus::Shipped && p.repo_url@.len() > 0 {
            Some(p.repo_url@)
        } else {
            None
        },
        None => None,
    }
}

/// The distinct repo URLs drawn, ascending.
pub open spec fn scoped_repo_urls(g: &Graph, opts: &RenderOptions) -> Seq<Seq<char>> {
    sorted_set(scoped_rows(g, opts).filter_map(|r: Seq<Seq<char>>| shipped_url(g, r[1])))
}

/// `(filename, url)` of each row of `rs` whose PRD is drawn with a repo URL, in order.
pub open spec fn repo_rows(g: &Graph, rs: Seq<Seq<Seq<char>>>) -> Seq<Seq<Seq<char>>> {
    rs.filter_map(
        |r: Seq<Seq<char>>|
            match shipped_url(g, r[1]) {
                Some(u) => Some(seq![r[1], u]),
                None => None,
            },
    )
}

/// `(filename, url)` of every drawn shipped PRD with a repo URL, sorted.
pub open spec fn scoped_repo_edges(g: &Graph, opts: &RenderOptions) -> Seq<Seq<Seq<char>>> {
    row_isort(repo_rows(g, scoped_rows(g, opts)))
}

/// The filenames, sorted, of the drawn PRDs owned by the vision `slug`.
pub open spec fn owned_files(g: &Graph, opts: &RenderOptions, slug: Seq<char>) -> Seq<Seq<char>> {
    text_isort(
        g.prds@.filter_map(
            |p: PrdNode|
                if p.vision@ == slug && file_in_scope(g, opts, p.filename@) {
                    Some(p.filename@)
                } else {
                    None
                },
        ),
    )
}

/// The dependency edges with both ends drawn, stably sorted by `(from, to)`.
pub open spec fn scoped_dep_edges(g: &Graph, opts: &RenderOptions) -> Seq<Edge> {
    isort(
        g.edge_set.edges@.filter(
            |e: Edge| file_in_scope(g, opts, e.from@) && file_in_scope(g, opts, e.to@),
        ),
    )
}

// ── exec helpers for scope ───────────────────────────────────────────────────

proof fn lemma_filter_map_step<A, B>(xs: Seq<A>, f: spec_fn(A) -> Option<B>, i: int)
    requires
        0 <= i < xs.len(),
    ensures
        xs.take(i + 1).filter_map(f) == match f(xs[i]) {
            Some(b) => xs.take(i).filter_map(f).push(b),
            None => xs.take(i).filter_map(f),
        },
{
    assert(xs.take(i + 1).drop_last() =~= xs.take(i));
    assert(xs.take(i + 1).last() == xs[i]);
    match f(xs[i]) {
        Some(b) => {
            assert(xs.take(i).filter_map(f) + seq![b] =~= xs.take(i).filter_map(f).push(b));
        },
        None => {},
    }
}

proof fn lemma_filter_step<A>(xs: Seq<A>, p: spec_fn(A) -> bool, i: int)
    requires
        0 <= i < xs.len(),
    ensures
        xs.take(i + 1).filter(p) == if p(xs[i]) {
            xs.take(i).filter(p).push(xs[i])
        } else {
            xs.take(i).filter(p)
        },
{
    assert(xs.take(i + 1) =~= xs.take(i).push(xs[i]));
    xs.take(i).lemma_filter_push(xs[i], p);
}

fn is_selected(opts: &RenderOptions, v: &VisionNode) -> (r: bool)
    ensures
        r == vision_selected(opts, *v),
{
    match &opts.vision_filter {
        Some(f) => {
            let a = chars_of(v.slug.as_str());
            let b = chars_of(f.as_str());
            chars_eq(&a, &b)
        },
        None => true,
    }
}

/// The distinct selected vision slugs, ascending.
fn scope_slugs_exec(g: &Graph, opts: &RenderOptions) -> (r: Vec<Vec<char>>)
    ensures
        texts(r@) == scope_slugs(g, opts),
{
    let mut sel: Vec<Vec<char>> = Vec::new();
    let mut i: usize = 0;
    let ghost f = |v: VisionNode|
        if vision_selected(opts, v) {
            Some(v.slug@)
        } else {
            None
        };
    while i < g.visions.len()
        invariant
            f == (|v: VisionNode|
                if vision_selected(opts, v) {
                    Some(v.slug@)
                } else {
                    None
                }),
            i <= g.visions@.len(),
            texts(sel@) == g.visions@.take(i as int).filter_map(f),
        decreases g.visions@.len() - i,
    {
        proof {
            lemma_filter_map_step(g.visions@, f, i as int);
        }
        if is_selected(opts, &g.visions[i]) {
            let ghost before = sel@;
            sel.push(chars_of(g.visions[i].slug.as_str()));
            assert(texts(sel@) =~= texts(before).push(g.visions@[i as int].slug@));
        }
        i = i + 1;
    }
    assert(g.visions@.take(g.visions@.len() as int) =~= g.visions@);
    sorted_set_of(&sel)
}

fn in_scope_exec(slugs: &Vec<Vec<char>>, opts: &RenderOptions, p: &PrdNode) -> (r: bool)
    ensures
        r == prd_in_scope(texts(slugs@), opts, *p),
{
    let vis = chars_of(p.vision.as_str());
    let a = opts.vision_filter.is_none() || crate::order::texts_contain(slugs, &vis);
    let b = !opts.shipped_only || p.status.is_shipped();
    a && b
}

/// `(vision, filename)` of every PRD drawn, sorted.
fn scoped_rows_exec(g: &Graph, opts: &RenderOptions, slugs: &Vec<Vec<char>>) -> (r: Vec<
    Vec<Vec<char>>,
>)
    requires
        texts(slugs@) == scope_slugs(g, opts),
    ensures
        rows(r@) == scoped_rows(g, opts),
        forall|i: int| 0 <= i < r@.len() ==> (#[trigger] r@[i])@.len() == 2,
{
    let mut acc: Vec<Vec<Vec<char>>> = Vec::new();
    let ghost f = |p: PrdNode|
        if prd_in_scope(scope_slugs(g, opts), opts, p) {
            Some(seq![p.vision@, p.filename@])
        } else {
            None
        };
    let mut i: usize = 0;
    while i < g.prds.len()
        invariant
            f == (|p: PrdNode|
                if prd_in_scope(scope_slugs(g, opts), opts, p) {
                    Some(seq![p.vision@, p.filename@])
                } else {
                    None
                }),
            texts(slugs@) == scope_slugs(g, opts),
            i <= g.prds@.len(),
            rows(acc@) == g.prds@.take(i as int).filter_map(f),
            forall|j: int| 0 <= j < acc@.len() ==> (#[trigger] acc@[j])@.len() == 2,
        decreases g.prds@.len() - i,
    {
        proof {
            lemma_filter_map_step(g.prds@, f, i as int);
        }
        if in_scope_exec(slugs, opts, &g.prds[i]) {
            let row: Vec<Vec<char>> = vec![
                chars_of(g.prds[i].vision.as_str()),
                chars_of(g.prds[i].filename.as_str()),
            ];
            assert(texts(row@) =~= seq![g.prds@[i as int].vision@, g.prds@[i as int].filename@]);
            let ghost before = acc@;
            acc.push(row);
            assert(rows(acc@) =~= rows(before).push(texts(row@)));
        }
        i = i + 1;
    }
    assert(g.prds@.take(g.prds@.len() as int) =~= g.prds@);
    let r = sort_rows(acc);
    proof {
        crate::order::lemma_row_isort_lens(rows(acc@), 2);
    }
    assert forall|i: int| 0 <= i < r@.len() implies (#[trigger] r@[i])@.len() == 2 by {
        assert(rows(r@)[i].len() == 2);
    }
    r
}

/// Whether the PRD named `f` is drawn, given the drawn rows.
fn file_in_rows(rws: &Vec<Vec<Vec<char>>>, f: &Vec<char>) -> (r: bool)
    requires
        forall|i: int| 0 <= i < rws@.len() ==> (#[trigger] rws@[i])@.len() == 2,
    ensures
        r == exists|i: int| 0 <= i < rows(rws@).len() && #[trigger] rows(rws@)[i][1] == f@,
{
    let mut i: usize = 0;
    while i < rws.len()
        invariant
            i <= rws@.len(),
            forall|j: int| 0 <= j < rws@.len() ==> (#[trigger] rws@[j])@.len() == 2,
            forall|j: int| 0 <= j < i ==> #[trigger] rows(rws@)[j][1] != f@,
        decreases rws@.len() - i,
    {
        assert(rws@[i as int]@.len() == 2);
        if chars_eq(&rws[i][1], f) {
            assert(rows(rws@)[i as int][1] == f@);
            return true;
        }
        assert(rows(rws@)[i as int][1] == rws@[i as int]@[1]@);
        i = i + 1;
    }
    false
}

// ── DOT renderer ─────────────────────────────────────────────────────────────

/// The DOT declaration of the vision with slug `slug`.
pub open spec fn dot_vision_decl(g: &Graph, slug: Seq<char>) -> Seq<char> {
    match find_vision(g, slug) {
        Some(v) => "  vision_"@ + safe_id_text(v.slug@) + " [label=\""@ + v.slug@
            + "\", shape=ellipse, style=filled, fillcolor=\"#cce5ff\"];\n"@,
        None => Seq::empty(),
    }
}

/// The DOT declaration of the PRD named `f`.
pub open spec fn dot_prd_decl(g: &Graph, f: Seq<char>) -> Seq<char> {
    match find_prd(g, f) {
        Some(p) => "  prd_"@ + safe_id_text(p.filename@) + " ["@ + prd_attrs_text(p.status)
            + ", label=\""@ + prd_label(p.filename@) + "\"];\n"@,
        None => Seq::empty(),
    }
}

/// The DOT declaration of the repo at `url`.
pub open spec fn dot_repo_decl(url: Seq<char>) -> Seq<char> {
    "  repo_"@ + safe_id_text(url) + " [label=\""@ + repo_label(url)
        + "\", shape=cylinder, style=filled, fillcolor=\"#f8d7da\"];\n"@
}

/// The DOT edge from a vision to a PRD it owns.
pub open spec fn dot_owner_edge(slug: Seq<char>, f: Seq<char>) -> Seq<char> {
    "  vision_"@ + safe_id_text(slug) + " -> prd_"@ + safe_id_text(f) + " [style=dotted, color=blue];\n"@
}

/// The DOT edges from a vision to the PRDs it owns in scope.
pub open spec fn dot_owner_edges(g: &Graph, opts: &RenderOptions, slug: Seq<char>) -> Seq<char> {
    concat_map(owned_files(g, opts, slug), |f: Seq<char>| dot_owner_edge(slug, f))
}

/// The DOT line of a dependency edge.
pub open spec fn dot_dep_line(e: Edge) -> Seq<char> {
    "  prd_"@ + safe_id_text(e.from@) + " -> prd_"@ + safe_id_text(e.to@) + edge_style_text(e.kind) + ";\n"@
}

/// The DOT edge from a shipped PRD to its repo.
pub open spec fn dot_repo_edge(r: Seq<Seq<char>>) -> Seq<char> {
    "  prd_"@ + safe_id_text(r[0]) + " -> repo_"@ + safe_id_text(r[1]) + " [color=gray, arrowhead=open];\n"@
}

/// The DOT text of the graph under the options: a `digraph atlas` with a
/// section each for vision, PRD and repo nodes, then vision→PRD, PRD→PRD and
/// PRD→repo edges, every section sorted.
pub open spec fn dot_text(g: &Graph, opts: &RenderOptions) -> Seq<char> {
    let slugs = scope_slugs(g, opts);
    let rws = scoped_rows(g, opts);
    "digraph atlas {\n"@ + "  rankdir=TB;\n"@ + "  node [fontname=\"Helvetica\"];\n"@
        + "  edge [fontname=\"Helvetica\"];\n"@ + "\n"@ + "  // Vision nodes\n"@ + concat_map(
        slugs,
        |s: Seq<char>| dot_vision_decl(g, s),
    ) + "\n"@ + "  // PRD nodes\n"@ + concat_map(rws, |r: Seq<Seq<char>>| dot_prd_decl(g, r[1]))
        + "\n"@ + "  // Repo nodes\n"@ + concat_map(
        scoped_repo_urls(g, opts),
        |u: Seq<char>| dot_repo_decl(u),
    ) + "\n"@ + "  // Vision → PRD edges\n"@ + concat_map(
        slugs,
        |s: Seq<char>| dot_owner_edges(g, opts, s),
    ) + "\n"@ + "  // PRD → PRD dependency edges\n"@ + concat_map(
        scoped_dep_edges(g, opts),
        |e: Edge| dot_dep_line(e),
    ) + "\n"@ + "  // Shipped PRD → Repo edges\n"@ + concat_map(
        scoped_repo_edges(g, opts),
        |r: Seq<Seq<char>>| dot_repo_edge(r),
    ) + "\n"@ + "}\n"@
}

fn push_dot_vision_decl(out: &mut Vec<char>, g: &Graph, slug: &Vec<char>)
    ensures
        final(out)@ == old(out)@ + dot_vision_decl(g, slug@),
{
    match find_vision_index(g, slug) {
        Some(k) => {
            let s = chars_of(g.visions[k].slug.as_str());
            let id = safe_id_chars(&s);
            push_str(out, "  vision_");
            push_chars(out, &id);
            push_str(out, " [label=\"");
            push_chars(out, &s);
            push_str(out, "\", shape=ellipse, style=filled, fillcolor=\"#cce5ff\"];\n");
            assert(out@ =~= old(out)@ + dot_vision_decl(g, slug@));
        },
        None => {
            assert(out@ =~= old(out)@ + dot_vision_decl(g, slug@));
        },
    }
}

fn push_dot_prd_decl(out: &mut Vec<char>, g: &Graph, f: &Vec<char>)
    ensures
        final(out)@ == old(out)@ + dot_prd_decl(g, f@),
{
    match find_prd_index(g, f) {
        Some(k) => {
            let name = chars_of(g.prds[k].filename.as_str());
            let id = safe_id_chars(&name);
            let label = prd_label_chars(&name);
            push_str(out, "  prd_");
            push_chars(out, &id);
            push_str(out, " [");
            push_str(out, dot_prd_attrs(g.prds[k].status));
            push_str(out, ", label=\"");
            push_chars(out, &label);
            push_str(out, "\"];\n");
            assert(out@ =~= old(out)@ + dot_prd_decl(g, f@));
        },
        None => {
            assert(out@ =~= old(out)@ + dot_prd_decl(g, f@));
        },
    }
}

/// The repo URL drawn for the PRD named `f`.
fn shipped_url_exec(g: &Graph, f: &Vec<char>) -> (r: Option<Vec<char>>)
    ensures
        match r {
            Some(u) => shipped_url(g, f@) == Some(u@),
            None => shipped_url(g, f@) is None,
        },
{
    match find_prd_index(g, f) {
        Some(k) => {
            let u = chars_of(g.prds[k].repo_url.as_str());
            if g.prds[k].status.is_shipped() && u.len() > 0 {
                Some(u)
            } else {
                None
            }
        },
        None => None,
    }
}

proof fn lemma_repo_edge_rows(g: &Graph, rs: Seq<Seq<Seq<char>>>)
    ensures
        forall|i: int| 0 <= i < repo_rows(g, rs).len() ==> (#[trigger] repo_rows(g, rs)[i]).len() == 2,
    decreases rs.len(),
{
    if rs.len() > 0 {
        lemma_repo_edge_rows(g, rs.drop_last());
        assert(rs.drop_last().filter_map(
            |r: Seq<Seq<char>>|
                match shipped_url(g, r[1]) {
                    Some(u) => Some(seq![r[1], u]),
                    None => None,
                },
        ) == repo_rows(g, rs.drop_last()));
    }
}

/// The distinct repo URLs drawn, ascending.
fn scoped_repo_urls_exec(g: &Graph, opts: &RenderOptions, rws: &Vec<Vec<Vec<char>>>) -> (r: Vec<
    Vec<char>,
>)
    requires
        rows(rws@) == scoped_rows(g, opts),
        forall|i: int| 0 <= i < rws@.len() ==> (#[trigger] rws@[i])@.len() == 2,
    ensures
        texts(r@) == scoped_repo_urls(g, opts),
{
    let ghost f = |r: Seq<Seq<char>>| shipped_url(g, r[1]);
    let mut acc: Vec<Vec<char>> = Vec::new();
    let mut i: usize = 0;
    while i < rws.len()
        invariant
            f == (|r: Seq<Seq<char>>| shipped_url(g, r[1])),
            i <= rws@.len(),
            forall|j: int| 0 <= j < rws@.len() ==> (#[trigger] rws@[j])@.len() == 2,
            texts(acc@) == rows(rws@).take(i as int).filter_map(f),
        decreases rws@.len() - i,
    {
        proof {
            lemma_filter_map_step(rows(rws@), f, i as int);
        }
        assert(rws@[i as int]@.len() == 2);
        assert(rows(rws@)[i as int][1] == rws@[i as int]@[1]@);
        match shipped_url_exec(g, &rws[i][1]) {
            Some(u) => {
                let ghost before = acc@;
                acc.push(u);
                assert(texts(acc@) =~= texts(before).push(u@));
            },
            None => {},
        }
        i = i + 1;
    }
    assert(rows(rws@).take(rws@.len() as int) =~= rows(rws@));
    sorted_set_of(&acc)
}

/// `(filename, url)` of every drawn shipped PRD with a repo URL, sorted.
fn scoped_repo_edges_exec(g: &Graph, opts: &RenderOptions, rws: &Vec<Vec<Vec<char>>>) -> (r: Vec<
    Vec<Vec<char>>,
>)
    requires
        rows(rws@) == scoped_rows(g, opts),
        forall|i: int| 0 <= i < rws@.len() ==> (#[trigger] rws@[i])@.len() == 2,
    ensures
        rows(r@) == scoped_repo_edges(g, opts),
{
    assert(scoped_repo_edges(g, opts) == row_isort(rows(rws@).filter_map(
            |r: Seq<Seq<char>>|
                match shipped_url(g, r[1]) {
                    Some(u) => Some(seq![r[1], u]),
                    None => None,
                },
    )));
    let ghost f = |r: Seq<Seq<char>>|
        match shipped_url(g, r[1]) {
            Some(u) => Some(seq![r[1], u]),
            None => None,
        };
    let mut acc: Vec<Vec<Vec<char>>> = Vec::new();
    let mut i: usize = 0;
    while i < rws.len()
        invariant
            f == (|r: Seq<Seq<char>>|
                match shipped_url(g, r[1]) {
                    Some(u) => Some(seq![r[1], u]),
                    None => None,
                }),
            i <= rws@.len(),
            forall|j: int| 0 <= j < rws@.len() ==> (#[trigger] rws@[j])@.len() == 2,
            rows(acc@) == rows(rws@).take(i as int).filter_map(f),
        decreases rws@.len() - i,
    {
        proof {
            lemma_filter_map_step(rows(rws@), f, i as int);
        }
        assert(rws@[i as int]@.len() == 2);
        assert(rows(rws@)[i as int][1] == rws@[i as int]@[1]@);
        match shipped_url_exec(g, &rws[i][1]) {
            Some(u) => {
                let name = crate::text::copy_chars(&rws[i][1]);
                let row: Vec<Vec<char>> = vec![name, u];
                assert(texts(row@) =~= seq![rows(rws@)[i as int][1], u@]);
                let ghost before = acc@;
                acc.push(row);
                assert(rows(acc@) =~= rows(before).push(texts(row@)));
            },
            None => {},
        }
        i = i + 1;
    }
    assert(rows(rws@).take(rws@.len() as int) =~= rows(rws@));
    sort_rows(acc)
}

/// The filenames, sorted, of the drawn PRDs owned by the vision `slug`.
fn owned_files_exec(g: &Graph, opts: &RenderOptions, rws: &Vec<Vec<Vec<char>>>, slug: &Vec<char>) -> (r:
    Vec<Vec<char>>)
    requires
        rows(rws@) == scoped_rows(g, opts),
        forall|i: int| 0 <= i < rws@.len() ==> (#[trigger] rws@[i])@.len() == 2,
    ensures
        texts(r@) == owned_files(g, opts, slug@),
{
    let ghost f = |p: PrdNode|
        if p.vision@ == slug@ && file_in_scope(g, opts, p.filename@) {
            Some(p.filename@)
        } else {
            None
        };
    let mut acc: Vec<Vec<char>> = Vec::new();
    let mut i: usize = 0;
    while i < g.prds.len()
        invariant
            f == (|p: PrdNode|
                if p.vision@ == slug@ && file_in_scope(g, opts, p.filename@) {
                    Some(p.filename@)
                } else {
                    None
                }),
            rows(rws@) == scoped_rows(g, opts),
            forall|j: int| 0 <= j < rws@.len() ==> (#[trigger] rws@[j])@.len() == 2,
            i <= g.prds@.len(),
            texts(acc@) == g.prds@.take(i as int).filter_map(f),
        decreases g.prds@.len() - i,
    {
        proof {
            lemma_filter_map_step(g.prds@, f, i as int);
        }
        let v = chars_of(g.prds[i].vision.as_str());
        let name = chars_of(g.prds[i].filename.as_str());
        if chars_eq(&v, slug) && file_in_rows(rws, &name) {
            let ghost before = acc@;
            acc.push(name);
            assert(texts(acc@) =~= texts(before).push(g.prds@[i as int].filename@));
        }
        i = i + 1;
    }
    assert(g.prds@.take(g.prds@.len() as int) =~= g.prds@);
    sort_texts(acc)
}

/// The dependency edges with both ends drawn, stably sorted by `(from, to)`.
fn scoped_dep_edges_exec(g: &Graph, opts: &RenderOptions, rws: &Vec<Vec<Vec<char>>>) -> (r: Vec<Edge>)
    requires
        rows(rws@) == scoped_rows(g, opts),
        forall|i: int| 0 <= i < rws@.len() ==> (#[trigger] rws@[i])@.len() == 2,
    ensures
        r@ == scoped_dep_edges(g, opts),
{
    let ghost p = |e: Edge| file_in_scope(g, opts, e.from@) && file_in_scope(g, opts, e.to@);
    let es = &g.edge_set.edges;
    let mut acc: Vec<Edge> = Vec::new();
    let mut i: usize = 0;
    while i < es.len()
        invariant
            p == (|e: Edge| file_in_scope(g, opts, e.from@) && file_in_scope(g, opts, e.to@)),
            es == &g.edge_set.edges,
            rows(rws@) == scoped_rows(g, opts),
            forall|j: int| 0 <= j < rws@.len() ==> (#[trigger] rws@[j])@.len() == 2,
            i <= es@.len(),
            acc@ == es@.take(i as int).filter(p),
        decreases es@.len() - i,
    {
        proof {
            lemma_filter_step(es@, p, i as int);
        }
        let from = chars_of(es[i].from.as_str());
        let to = chars_of(es[i].to.as_str());
        if file_in_rows(rws, &from) && file_in_rows(rws, &to) {
            acc.push(copy_edge(&es[i]));
        }
        i = i + 1;
    }
    assert(es@.take(es@.len() as int) =~= es@);
    sort_keyed(acc)
}

fn push_dot_repo_decl(out: &mut Vec<char>, url: &Vec<char>)
    ensures
        final(out)@ == old(out)@ + dot_repo_decl(url@),
{
    let id = safe_id_chars(url);
    let label = repo_label_chars(url);
    push_str(out, "  repo_");
    push_chars(out, &id);
    push_str(out, " [label=\"");
    push_chars(out, &label);
    push_str(out, "\", shape=cylinder, style=filled, fillcolor=\"#f8d7da\"];\n");
    assert(out@ =~= old(out)@ + dot_repo_decl(url@));
}

fn push_dot_owner_edges(
    out: &mut Vec<char>,
    g: &Graph,
    opts: &RenderOptions,
    rws: &Vec<Vec<Vec<char>>>,
    slug: &Vec<char>,
)
    requires
        rows(rws@) == scoped_rows(g, opts),
        forall|i: int| 0 <= i < rws@.len() ==> (#[trigger] rws@[i])@.len() == 2,
    ensures
        final(out)@ == old(out)@ + dot_owner_edges(g, opts, slug@),
{
    let files = owned_files_exec(g, opts, rws, slug);
    let vid = safe_id_chars(slug);
    let ghost fl = |f: Seq<char>| dot_owner_edge(slug@, f);
    let ghost base = out@;
    let mut i: usize = 0;
    proof {
        lemma_concat_map_empty(texts(files@), fl);
    }
    while i < files.len()
        invariant
            fl == (|f: Seq<char>| dot_owner_edge(slug@, f)),
            vid@ == safe_id_text(slug@),
            i <= files@.len(),
            out@ == base + concat_map(texts(files@).take(i as int), fl),
        decreases files@.len() - i,
    {
        proof {
            lemma_concat_map_step(texts(files@), fl, i as int);
        }
        let pid = safe_id_chars(&files[i]);
        let ghost before = out@;
        push_str(out, "  vision_");
        push_chars(out, &vid);
        push_str(out, " -> prd_");
        push_chars(out, &pid);
        push_str(out, " [style=dotted, color=blue];\n");
        assert(out@ =~= before + dot_owner_edge(slug@, texts(files@)[i as int]));
        i = i + 1;
    }
    proof {
        lemma_concat_map_all(texts(files@), fl);
    }
    assert(out@ =~= old(out)@ + dot_owner_edges(g, opts, slug@));
}

fn push_dot_dep_line(out: &mut Vec<char>, e: &Edge)
    ensures
        final(out)@ == old(out)@ + dot_dep_line(*e),
{
    let from = chars_of(e.from.as_str());
    let to = chars_of(e.to.as_str());
    let fid = safe_id_chars(&from);
    let tid = safe_id_chars(&to);
    push_str(out, "  prd_");
    push_chars(out, &fid);
    push_str(out, " -> prd_");
    push_chars(out, &tid);
    push_str(out, dot_edge_style(e.kind));
    push_str(out, ";\n");
    assert(out@ =~= old(out)@ + dot_dep_line(*e));
}

fn push_dot_repo_edge(out: &mut Vec<char>, r: &Vec<Vec<char>>)
    requires
        r@.len() == 2,
    ensures
        final(out)@ == old(out)@ + dot_repo_edge(texts(r@)),
{
    let a = safe_id_chars(&r[0]);
    let b = safe_id_chars(&r[1]);
    push_str(out, "  prd_");
    push_chars(out, &a);
    push_str(out, " -> repo_");
    push_chars(out, &b);
    push_str(out, " [color=gray, arrowhead=open];\n");
    assert(out@ =~= old(out)@ + dot_repo_edge(texts(r@)));
}

/// Render the graph as a Graphviz DOT digraph.
pub fn render_dot(graph: &Graph, opts: &RenderOptions) -> (r: String)
    ensures
        r@ == dot_text(graph, opts),
{
    let g = graph;
    let slugs = scope_slugs_exec(g, opts);
    let rws = scoped_rows_exec(g, opts, &slugs);
    let mut out: Vec<char> = Vec::new();
    push_str(&mut out, "digraph atlas {\n");
    push_str(&mut out, "  rankdir=TB;\n");
    push_str(&mut out, "  node [fontname=\"Helvetica\"];\n");
    push_str(&mut out, "  edge [fontname=\"Helvetica\"];\n");
    push_str(&mut out, "\n");
    push_str(&mut out, "  // Vision nodes\n");
    let ghost s0 = out@;
    // Vision nodes.
    let ghost f1 = |s: Seq<char>| dot_vision_decl(g, s);
    proof {
        lemma_concat_map_empty(texts(slugs@), f1);
    }
    let mut i: usize = 0;
    while i < slugs.len()
        invariant
            f1 == (|s: Seq<char>| dot_vision_decl(g, s)),
            i <= slugs@.len(),
            out@ == s0 + concat_map(texts(slugs@).take(i as int), f1),
        decreases slugs@.len() - i,
    {
        proof {
            lemma_concat_map_step(texts(slugs@), f1, i as int);
        }
        push_dot_vision_decl(&mut out, g, &slugs[i]);
        i = i + 1;
    }
    proof {
        lemma_concat_map_all(texts(slugs@), f1);
    }
    push_str(&mut out, "\n");
    push_str(&mut out, "  // PRD nodes\n");
    let ghost s1 = out@;
    // PRD nodes.
    let ghost f2 = |r: Seq<Seq<char>>| dot_prd_decl(g, r[1]);
    proof {
        lemma_concat_map_empty(rows(rws@), f2);
    }
    let mut i: usize = 0;
    while i < rws.len()
        invariant
            f2 == (|r: Seq<Seq<char>>| dot_prd_decl(g, r[1])),
            forall|j: int| 0 <= j < rws@.len() ==> (#[trigger] rws@[j])@.len() == 2,
            i <= rws@.len(),
            out@ == s1 + concat_map(rows(rws@).take(i as int), f2),
        decreases rws@.len() - i,
    {
        proof {
            lemma_concat_map_step(rows(rws@), f2, i as int);
        }
        assert(rws@[i as int]@.len() == 2);
        assert(rows(rws@)[i as int][1] == rws@[i as int]@[1]@);
        push_dot_prd_decl(&mut out, g, &rws[i][1]);
        i = i + 1;
    }
    proof {
        lemma_concat_map_all(rows(rws@), f2);
    }
    push_str(&mut out, "\n");
    push_str(&mut out, "  // Repo nodes\n");
    let ghost s2 = out@;
    // Repo nodes.
    let urls = scoped_repo_urls_exec(g, opts, &rws);
    let ghost f3 = |u: Seq<char>| dot_repo_decl(u);
    proof {
        lemma_concat_map_empty(texts(urls@), f3);
    }
    let mut i: usize = 0;
    while i < urls.len()
        invariant
            f3 == (|u: Seq<char>| dot_repo_decl(u)),
            i <= urls@.len(),
            out@ == s2 + concat_map(texts(urls@).take(i as int), f3),
        decreases urls@.len() - i,
    {
        proof {
            lemma_concat_map_step(texts(urls@), f3, i as int);
        }
        push_dot_repo_decl(&mut out, &urls[i]);
        i = i + 1;
    }
    proof {
        lemma_concat_map_all(texts(urls@), f3);
    }
    push_str(&mut out, "\n");
    push_str(&mut out, "  // Vision → PRD edges\n");
    let ghost s3 = out@;
    // Vision → PRD edges.
    let ghost f4 = |s: Seq<char>| dot_owner_edges(g, opts, s);
    proof {
        lemma_concat_map_empty(texts(slugs@), f4);
    }
    let mut i: usize = 0;
    while i < slugs.len()
        invariant
            f4 == (|s: Seq<char>| dot_owner_edges(g, opts, s)),
            rows(rws@) == scoped_rows(g, opts),
            forall|j: int| 0 <= j < rws@.len() ==> (#[trigger] rws@[j])@.len() == 2,
            i <= slugs@.len(),
            out@ == s3 + concat_map(texts(slugs@).take(i as int), f4),
        decreases slugs@.len() - i,
    {
        proof {
            lemma_concat_map_step(texts(slugs@), f4, i as int);
        }
        push_dot_owner_edges(&mut out, g, opts, &rws, &slugs[i]);
        i = i + 1;
    }
    proof {
        lemma_concat_map_all(texts(slugs@), f4);
    }
    push_str(&mut out, "\n");
    push_str(&mut out, "  // PRD → PRD dependency edges\n");
    let ghost s4 = out@;
    // PRD → PRD dependency edges.
    let deps = scoped_dep_edges_exec(g, opts, &rws);
    let ghost f5 = |e: Edge| dot_dep_line(e);
    proof {
        lemma_concat_map_empty(deps@, f5);
    }
    let mut i: usize = 0;
    while i < deps.len()
        invariant
            f5 == (|e: Edge| dot_dep_line(e)),
            i <= deps@.len(),
            out@ == s4 + concat_map(deps@.take(i as int), f5),
        decreases deps@.len() - i,
    {
        proof {
            lemma_concat_map_step(deps@, f5, i as int);
        }
        push_dot_dep_line(&mut out, &deps[i]);
        i = i + 1;
    }
    proof {
        lemma_concat_map_all(deps@, f5);
    }
    push_str(&mut out, "\n");
    push_str(&mut out, "  // Shipped PRD → Repo edges\n");
    let ghost s5 = out@;
    // Shipped PRD → Repo edges.
    let redges = scoped_repo_edges_exec(g, opts, &rws);
    proof {
        lemma_repo_edge_rows(g, scoped_rows(g, opts));
        crate::order::lemma_row_isort_lens(repo_rows(g, scoped_rows(g, opts)), 2);
    }
    let ghost f6 = |r: Seq<Seq<char>>| dot_repo_edge(r);
    proof {
        lemma_concat_map_empty(rows(redges@), f6);
    }
    let mut i: usize = 0;
    while i < redges.len()
        invariant
            f6 == (|r: Seq<Seq<char>>| dot_repo_edge(r)),
            forall|j: int| 0 <= j < redges@.len() ==> (#[trigger] rows(redges@)[j]).len() == 2,
            i <= redges@.len(),
            out@ == s5 + concat_map(rows(redges@).take(i as int), f6),
        decreases redges@.len() - i,
    {
        proof {
            lemma_concat_map_step(rows(redges@), f6, i as int);
        }
        assert(rows(redges@)[i as int].len() == 2);
        push_dot_repo_edge(&mut out, &redges[i]);
        i = i + 1;
    }
    proof {
        lemma_concat_map_all(rows(redges@), f6);
    }
    push_str(&mut out, "\n");
    push_str(&mut out, "}\n");
    assert(out@ =~= dot_text(g, opts));
    crate::text::string_of(&out)
}

// ── Mermaid renderer ─────────────────────────────────────────────────────────

/// The Mermaid declaration of the vision with slug `slug`.
pub open spec fn mermaid_vision_decl(slug: Seq<char>) -> Seq<char> {
    "  vision_"@ + safe_id_text(slug) + "((\""@ + slug + "\"))\n"@
}

/// A PRD node: a box `[..]` when drafted or in flight, a stadium `([..])` when shipped.
pub open spec fn mermaid_prd_shape(status: PrdStatus, id: Seq<char>, label: Seq<char>) -> Seq<char> {
    match status {
        PrdStatus::Shipped => id + "([\""@ + label + "\"])"@,
        _ => id + "[\""@ + label + "\"]"@,
    }
}

/// The Mermaid declaration of the PRD named `f`.
pub open spec fn mermaid_prd_decl(g: &Graph, f: Seq<char>) -> Seq<char> {
    match find_prd(g, f) {
        Some(p) => "  "@ + mermaid_prd_shape(
            p.status,
            "prd_"@ + safe_id_text(p.filename@),
            prd_label(p.filename@),
        ) + "\n"@,
        None => Seq::empty(),
    }
}

/// The Mermaid declaration of the repo at `url`.
pub open spec fn mermaid_repo_decl(url: Seq<char>) -> Seq<char> {
    "  repo_"@ + safe_id_text(url) + "[(\""@ + repo_label(url) + "\")]\n"@
}

/// The Mermaid edge from a vision to a PRD it owns.
pub open spec fn mermaid_owner_edge(slug: Seq<char>, f: Seq<char>) -> Seq<char> {
    "  vision_"@ + safe_id_text(slug) + " --> prd_"@ + safe_id_text(f) + "\n"@
}

/// The Mermaid edges from a vision to the PRDs it owns in scope.
pub open spec fn mermaid_owner_edges(g: &Graph, opts: &RenderOptions, slug: Seq<char>) -> Seq<
    char,
> {
    concat_map(owned_files(g, opts, slug), |f: Seq<char>| mermaid_owner_edge(slug, f))
}

/// The Mermaid arrow of a dependency edge of kind `kind`.
pub open spec fn mermaid_arrow(kind: EdgeKind) -> Seq<char> {
    match kind {
        EdgeKind::Frontmatter => "-->"@,
        EdgeKind::Gossip => "-.->"@,
    }
}

/// The Mermaid line of a dependency edge.
pub open spec fn mermaid_dep_line(e: Edge) -> Seq<char> {
    "  prd_"@ + safe_id_text(e.from@) + " "@ + mermaid_arrow(e.kind) + " prd_"@ + safe_id_text(e.to@)
        + "\n"@
}

/// The Mermaid edge from a shipped PRD to its repo.
pub open spec fn mermaid_repo_edge(r: Seq<Seq<char>>) -> Seq<char> {
    "  prd_"@ + safe_id_text(r[0]) + " --> repo_"@ + safe_id_text(r[1]) + "\n"@
}

/// The Mermaid text of the graph under the options: a `graph TD` block with
/// the same nodes and edges, in the same order, as the DOT text.
pub open spec fn mermaid_text(g: &Graph, opts: &RenderOptions) -> Seq<char> {
    let slugs = scope_slugs(g, opts);
    "graph TD\n"@ + "  %% Vision nodes\n"@ + concat_map(slugs, |s: Seq<char>| mermaid_vision_decl(s))
        + "  %% PRD nodes\n"@ + concat_map(
        scoped_rows(g, opts),
        |r: Seq<Seq<char>>| mermaid_prd_decl(g, r[1]),
    ) + "  %% Repo nodes\n"@ + concat_map(
        scoped_repo_urls(g, opts),
        |u: Seq<char>| mermaid_repo_decl(u),
    ) + "  %% Vision to PRD edges\n"@ + concat_map(
        slugs,
        |s: Seq<char>| mermaid_owner_edges(g, opts, s),
    ) + "  %% PRD dependency edges\n"@ + concat_map(
        scoped_dep_edges(g, opts),
        |e: Edge| mermaid_dep_line(e),
    ) + "  %% Shipped PRD to Repo edges\n"@ + concat_map(
        scoped_repo_edges(g, opts),
        |r: Seq<Seq<char>>| mermaid_repo_edge(r),
    )
}

/// Mermaid node ID (no hyphens allowed in bare identifiers).
fn mermaid_id(s: &Vec<char>) -> (r: Vec<char>)
    ensures
        r@ == safe_id_text(s@),
{
    safe_id_chars(s)
}

fn push_mermaid_prd_decl(out: &mut Vec<char>, g: &Graph, f: &Vec<char>)
    ensures
        final(out)@ == old(out)@ + mermaid_prd_decl(g, f@),
{
    match find_prd_index(g, f) {
        Some(k) => {
            let name = chars_of(g.prds[k].filename.as_str());
            let id = mermaid_id(&name);
            let label = prd_label_chars(&name);
            push_str(out, "  ");
            push_str(out, "prd_");
            push_chars(out, &id);
            match g.prds[k].status {
                PrdStatus::Shipped => {
                    push_str(out, "([\"");
                    push_chars(out, &label);
                    push_str(out, "\"])");
                },
                _ => {
                    push_str(out, "[\"");
                    push_chars(out, &label);
                    push_str(out, "\"]");
                },
            }
            push_str(out, "\n");
            assert(out@ =~= old(out)@ + mermaid_prd_decl(g, f@));
        },
        None => {
            assert(out@ =~= old(out)@ + mermaid_prd_decl(g, f@));
        },
    }
}

fn push_mermaid_owner_edges(
    out: &mut Vec<char>,
    g: &Graph,
    opts: &RenderOptions,
    rws: &Vec<Vec<Vec<char>>>,
    slug: &Vec<char>,
)
    requires
        rows(rws@) == scoped_rows(g, opts),
        forall|i: int| 0 <= i < rws@.len() ==> (#[trigger] rws@[i])@.len() == 2,
    ensures
        final(out)@ == old(out)@ + mermaid_owner_edges(g, opts, slug@),
{
    let files = owned_files_exec(g, opts, rws, slug);
    let vid = mermaid_id(slug);
    let ghost fl = |f: Seq<char>| mermaid_owner_edge(slug@, f);
    let ghost base = out@;
    let mut i: usize = 0;
    proof {
        lemma_concat_map_empty(texts(files@), fl);
    }
    while i < files.len()
        invariant
            fl == (|f: Seq<char>| mermaid_owner_edge(slug@, f)),
            vid@ == safe_id_text(slug@),
            i <= files@.len(),
            out@ == base + concat_map(texts(files@).take(i as int), fl),
        decreases files@.len() - i,
    {
        proof {
            lemma_concat_map_step(texts(files@), fl, i as int);
        }
        let pid = mermaid_id(&files[i]);
        let ghost before = out@;
        push_str(out, "  vision_");
        push_chars(out, &vid);
        push_str(out, " --> prd_");
        push_chars(out, &pid);
        push_str(out, "\n");
        assert(out@ =~= before + mermaid_owner_edge(slug@, texts(files@)[i as int]));
        i = i + 1;
    }
    proof {
        lemma_concat_map_all(texts(files@), fl);
    }
    assert(out@ =~= old(out)@ + mermaid_owner_edges(g, opts, slug@));
}

fn push_mermaid_dep_line(out: &mut Vec<char>, e: &Edge)
    ensures
        final(out)@ == old(out)@ + mermaid_dep_line(*e),
{
    let from = chars_of(e.from.as_str());
    let to = chars_of(e.to.as_str());
    let fid = mermaid_id(&from);
    let tid = mermaid_id(&to);
    push_str(out, "  prd_");
    push_chars(out, &fid);
    push_str(out, " ");
    match e.kind {
        EdgeKind::Frontmatter => push_str(out, "-->"),
        EdgeKind::Gossip => push_str(out, "-.->"),
    }
    push_str(out, " prd_");
    push_chars(out, &tid);
    push_str(out, "\n");
    assert(out@ =~= old(out)@ + mermaid_dep_line(*e));
}

/// Render the graph as a Mermaid `graph TD` block.
pub fn render_mermaid(graph: &Graph, opts: &RenderOptions) -> (r: String)
    ensures
        r@ == mermaid_text(graph, opts),
{
    let g = graph;
    let slugs = scope_slugs_exec(g, opts);
    let rws = scoped_rows_exec(g, opts, &slugs);
    let mut out: Vec<char> = Vec::new();
    push_str(&mut out, "graph TD\n");
    push_str(&mut out, "  %% Vision nodes\n");
    let ghost s0 = out@;
    let ghost f1 = |s: Seq<char>| mermaid_vision_decl(s);
    proof {
        lemma_concat_map_empty(texts(slugs@), f1);
    }
    let mut i: usize = 0;
    while i < slugs.len()
        invariant
            f1 == (|s: Seq<char>| mermaid_vision_decl(s)),
            i <= slugs@.len(),
            out@ == s0 + concat_map(texts(slugs@).take(i as int), f1),
        decreases slugs@.len() - i,
    {
        proof {
            lemma_concat_map_step(texts(slugs@), f1, i as int);
        }
        let id = mermaid_id(&slugs[i]);
        let ghost before = out@;
        push_str(&mut out, "  vision_");
        push_chars(&mut out, &id);
        push_str(&mut out, "((\"");
        push_chars(&mut out, &slugs[i]);
        push_str(&mut out, "\"))\n");
        assert(out@ =~= before + mermaid_vision_decl(texts(slugs@)[i as int]));
        i = i + 1;
    }
    proof {
        lemma_concat_map_all(texts(slugs@), f1);
    }
    push_str(&mut out, "  %% PRD nodes\n");
    let ghost s1 = out@;
    let ghost f2 = |r: Seq<Seq<char>>| mermaid_prd_decl(g, r[1]);
    proof {
        lemma_concat_map_empty(rows(rws@), f2);
    }
    let mut i: usize = 0;
    while i < rws.len()
        invariant
            f2 == (|r: Seq<Seq<char>>| mermaid_prd_decl(g, r[1])),
            forall|j: int| 0 <= j < rws@.len() ==> (#[trigger] rws@[j])@.len() == 2,
            i <= rws@.len(),
            out@ == s1 + concat_map(rows(rws@).take(i as int), f2),
        decreases rws@.len() - i,
    {
        proof {
            lemma_concat_map_step(rows(rws@), f2, i as int);
        }
        assert(rws@[i as int]@.len() == 2);
        assert(rows(rws@)[i as int][1] == rws@[i as int]@[1]@);
        push_mermaid_prd_decl(&mut out, g, &rws[i][1]);
        i = i + 1;
    }
    proof {
        lemma_concat_map_all(rows(rws@), f2);
    }
    push_str(&mut out, "  %% Repo nodes\n");
    let ghost s2 = out@;
    let urls = scoped_repo_urls_exec(g, opts, &rws);
    let ghost f3 = |u: Seq<char>| mermaid_repo_decl(u);
    proof {
        lemma_concat_map_empty(texts(urls@), f3);
    }
    let mut i: usize = 0;
    while i < urls.len()
        invariant
            f3 == (|u: Seq<char>| mermaid_repo_decl(u)),
            i <= urls@.len(),
            out@ == s2 + concat_map(texts(urls@).take(i as int), f3),
        decreases urls@.len() - i,
    {
        proof {
            lemma_concat_map_step(texts(urls@), f3, i as int);
        }
        let id = mermaid_id(&urls[i]);
        let label = repo_label_chars(&urls[i]);
        let ghost before = out@;
        push_str(&mut out, "  repo_");
        push_chars(&mut out, &id);
        push_str(&mut out, "[(\"");
        push_chars(&mut out, &label);
        push_str(&mut out, "\")]\n");
        assert(out@ =~= before + mermaid_repo_decl(texts(urls@)[i as int]));
        i = i + 1;
    }
    proof {
        lemma_concat_map_all(texts(urls@), f3);
    }
    push_str(&mut out, "  %% Vision to PRD edges\n");
    let ghost s3 = out@;
    let ghost f4 = |s: Seq<char>| mermaid_owner_edges(g, opts, s);
    proof {
        lemma_concat_map_empty(texts(slugs@), f4);
    }
    let mut i: usize = 0;
    while i < slugs.len()
        invariant
            f4 == (|s: Seq<char>| mermaid_owner_edges(g, opts, s)),
            rows(rws@) == scoped_rows(g, opts),
            forall|j: int| 0 <= j < rws@.len() ==> (#[trigger] rws@[j])@.len() == 2,
            i <= slugs@.len(),
            out@ == s3 + concat_map(texts(slugs@).take(i as int), f4),
        decreases slugs@.len() - i,
    {
        proof {
            lemma_concat_map_step(texts(slugs@), f4, i as int);
        }
        push_mermaid_owner_edges(&mut out, g, opts, &rws, &slugs[i]);
        i = i + 1;
    }
    proof {
        lemma_concat_map_all(texts(slugs@), f4);
    }
    push_str(&mut out, "  %% PRD dependency edges\n");
    let ghost s4 = out@;
    let deps = scoped_dep_edges_exec(g, opts, &rws);
    let ghost f5 = |e: Edge| mermaid_dep_line(e);
    proof {
        lemma_concat_map_empty(deps@, f5);
    }
    let mut i: usize = 0;
    while i < deps.len()
        invariant
            f5 == (|e: Edge| mermaid_dep_line(e)),
            i <= deps@.len(),
            out@ == s4 + concat_map(deps@.take(i as int), f5),
        decreases deps@.len() - i,
    {
        proof {
            lemma_concat_map_step(deps@, f5, i as int);
        }
        push_mermaid_dep_line(&mut out, &deps[i]);
        i = i + 1;
    }
    proof {
        lemma_concat_map_all(deps@, f5);
    }
    push_str(&mut out, "  %% Shipped PRD to Repo edges\n");
    let ghost s5 = out@;
    let redges = scoped_repo_edges_exec(g, opts, &rws);
    proof {
        lemma_repo_edge_rows(g, scoped_rows(g, opts));
        crate::order::lemma_row_isort_lens(repo_rows(g, scoped_rows(g, opts)), 2);
    }
    let ghost f6 = |r: Seq<Seq<char>>| mermaid_repo_edge(r);
    proof {
        lemma_concat_map_empty(rows(redges@), f6);
    }
    let mut i: usize = 0;
    while i < redges.len()
        invariant
            f6 == (|r: Seq<Seq<char>>| mermaid_repo_edge(r)),
            forall|j: int| 0 <= j < redges@.len() ==> (#[trigger] rows(redges@)[j]).len() == 2,
            i <= redges@.len(),
            out@ == s5 + concat_map(rows(redges@).take(i as int), f6),
        decreases redges@.len() - i,
    {
        proof {
            lemma_concat_map_step(rows(redges@), f6, i as int);
        }
        assert(rows(redges@)[i as int].len() == 2);
        let a = mermaid_id(&redges[i][0]);
        let b = mermaid_id(&redges[i][1]);
        let ghost before = out@;
        push_str(&mut out, "  prd_");
        push_chars(&mut out, &a);
        push_str(&mut out, " --> repo_");
        push_chars(&mut out, &b);
        push_str(&mut out, "\n");
        assert(out@ =~= before + mermaid_repo_edge(rows(redges@)[i as int]));
        i = i + 1;
    }
    proof {
        lemma_concat_map_all(rows(redges@), f6);
    }
    assert(out@ =~= mermaid_text(g, opts));
    crate::text::string_of(&out)
}

// ── Tree renderer ─────────────────────────────────────────────────────────────

/// The selected vision slugs, sorted (repeats kept).
pub open spec fn tree_slugs(g: &Graph, opts: &RenderOptions) -> Seq<Seq<char>> {
    text_isort(selected_slugs(g, opts))
}

/// Whether the tree shows a PRD at all.
pub open spec fn tree_shown(opts: &RenderOptions, p: PrdNode) -> bool {
    !opts.shipped_only || p.status == PrdStatus::Shipped
}

/// The filenames, sorted, of shown PRDs whose vision names no vision of the graph.
pub open spec fn unfiled_files(g: &Graph, opts: &RenderOptions) -> Seq<Seq<char>> {
    text_isort(
        g.prds@.filter_map(
            |p: PrdNode|
                if tree_shown(opts, p) && p.vision@.len() > 0 && !vision_known(g, p.vision@) {
                    Some(p.filename@)
                } else {
                    None
                },
        ),
    )
}

/// The filename of `p` when it is shown and its vision is `slug`.
pub open spec fn tree_pick(opts: &RenderOptions, slug: Seq<char>, p: PrdNode) -> Option<Seq<char>> {
    if tree_shown(opts, p) && p.vision@ == slug {
        Some(p.filename@)
    } else {
        None
    }
}

/// The filenames, sorted, of shown PRDs whose vision is `slug`.
pub open spec fn tree_files(g: &Graph, opts: &RenderOptions, slug: Seq<char>) -> Seq<Seq<char>> {
    text_isort(g.prds@.filter_map(|p: PrdNode| tree_pick(opts, slug, p)))
}

/// The roots of the tree: the selected slugs, then `(unfiled)` when no vision
/// filter is set and some shown PRD has an unknown vision.
pub open spec fn tree_roots(g: &Graph, opts: &RenderOptions) -> Seq<Seq<char>> {
    if opts.vision_filter is None && unfiled_files(g, opts).len() > 0 {
        tree_slugs(g, opts).push("(unfiled)"@)
    } else {
        tree_slugs(g, opts)
    }
}

/// The status glyph as text.
pub open spec fn glyph_text(status: PrdStatus) -> Seq<char> {
    match status {
        PrdStatus::Drafted => seq!['\u{25cb}'],
        PrdStatus::InFlight => seq!['\u{25d1}'],
        PrdStatus::Shipped => seq!['\u{25cf}'],
    }
}

/// The status glyph of a PRD: `○` drafted, `◑` in flight, `●` shipped.
pub fn status_glyph(status: &PrdStatus) -> (c: char)
    ensures
        seq![c] == glyph_text(*status),
{
    match status {
        PrdStatus::Drafted => '\u{25cb}',
        PrdStatus::InFlight => '\u{25d1}',
        PrdStatus::Shipped => '\u{25cf}',
    }
}

/// The dependency note of the PRD named `f`: the labels of what its indexed
/// out-edges point at, sorted, after `  ← needs: `; empty when it has none.
pub open spec fn deps_text(g: &Graph, f: Seq<char>) -> Seq<char> {
    let es = pick(g.edge_set.edges@, g.edge_index.out_positions(f));
    if es.len() == 0 {
        Seq::empty()
    } else {
        "  \u{2190} needs: "@ + join(
            text_isort(es.map_values(|e: Edge| e.to@)).map_values(|d: Seq<char>| prd_label(d)),
            ", "@,
        )
    }
}

/// The repo note of a tree item: `  → <url>` when the PRD records a URL.
pub open spec fn repo_text(p: PrdNode) -> Seq<char> {
    if p.repo_url@.len() == 0 {
        Seq::empty()
    } else {
        "  \u{2192} "@ + p.repo_url@
    }
}

/// The tree line of the `i`-th of `files`.
pub open spec fn tree_item(g: &Graph, files: Seq<Seq<char>>, i: int, with_deps: bool) -> Seq<char> {
    match find_prd(g, files[i]) {
        Some(p) => "  "@ + (if i + 1 == files.len() {
            "\u{2514}\u{2500}\u{2500}"@
        } else {
            "\u{251c}\u{2500}\u{2500}"@
        }) + " "@ + glyph_text(p.status) + " "@ + prd_label(p.filename@) + (if with_deps {
            deps_text(g, p.filename@)
        } else {
            Seq::empty()
        }) + repo_text(p) + "\n"@,
        None => Seq::empty(),
    }
}

/// The tree lines of the first `k` of `files`.
pub open spec fn tree_items(g: &Graph, files: Seq<Seq<char>>, k: int, with_deps: bool) -> Seq<char>
    decreases k,
{
    if k <= 0 {
        Seq::empty()
    } else {
        tree_items(g, files, k - 1, with_deps) + tree_item(g, files, k - 1, with_deps)
    }
}

/// The header line of the tree block of vision `slug`.
pub open spec fn tree_header(g: &Graph, slug: Seq<char>) -> Seq<char> {
    match find_vision(g, slug) {
        Some(v) => "vision: "@ + slug + "  ["@ + v.status@ + "]\n"@,
        None => "vision: "@ + slug + "\n"@,
    }
}

/// The block of one tree root: its header, its PRD lines, a blank line.
pub open spec fn tree_block(g: &Graph, opts: &RenderOptions, slug: Seq<char>) -> Seq<char> {
    if slug == "(unfiled)"@ {
        let fs = unfiled_files(g, opts);
        "vision: (unfiled)  [orphan-vision PRDs]\n"@ + tree_items(g, fs, fs.len() as int, false)
            + "\n"@
    } else {
        let fs = tree_files(g, opts, slug);
        tree_header(g, slug) + tree_items(g, fs, fs.len() as int, true) + "\n"@
    }
}

/// The tree text of the graph under the options: one block per root.
pub open spec fn tree_text(g: &Graph, opts: &RenderOptions) -> Seq<char> {
    concat_map(tree_roots(g, opts), |s: Seq<char>| tree_block(g, opts, s))
}

fn tree_files_exec(g: &Graph, opts: &RenderOptions, slug: &Vec<char>, unfiled: bool) -> (r: Vec<
    Vec<char>,
>)
    ensures
        unfiled ==> texts(r@) == unfiled_files(g, opts),
        !unfiled ==> texts(r@) == tree_files(g, opts, slug@),
{
    let ghost f = |p: PrdNode|
        if unfiled {
            if tree_shown(opts, p) && p.vision@.len() > 0 && !vision_known(g, p.vision@) {
                Some(p.filename@)
            } else {
                None
            }
        } else {
            if tree_shown(opts, p) && p.vision@ == slug@ {
                Some(p.filename@)
            } else {
                None
            }
        };
    let mut acc: Vec<Vec<char>> = Vec::new();
    let mut i: usize = 0;
    while i < g.prds.len()
        invariant
            f == (|p: PrdNode|
                if unfiled {
                    if tree_shown(opts, p) && p.vision@.len() > 0 && !vision_known(g, p.vision@) {
                        Some(p.filename@)
                    } else {
                        None
                    }
                } else {
                    if tree_shown(opts, p) && p.vision@ == slug@ {
                        Some(p.filename@)
                    } else {
                        None
                    }
                }),
            i <= g.prds@.len(),
            texts(acc@) == g.prds@.take(i as int).filter_map(f),
        decreases g.prds@.len() - i,
    {
        proof {
            lemma_filter_map_step(g.prds@, f, i as int);
        }
        let p = &g.prds[i];
        let shown = !opts.shipped_only || p.status.is_shipped();
        let v = chars_of(p.vision.as_str());
        let take = if unfiled {
            shown && v.len() > 0 && find_vision_index(g, &v).is_none()
        } else {
            shown && chars_eq(&v, slug)
        };
        if take {
            let ghost before = acc@;
            acc.push(chars_of(p.filename.as_str()));
            assert(texts(acc@) =~= texts(before).push(g.prds@[i as int].filename@));
        }
        i = i + 1;
    }
    assert(g.prds@.take(g.prds@.len() as int) =~= g.prds@);
    proof {
        if unfiled {
            assert(f =~= (
                |p: PrdNode|
                    if tree_shown(opts, p) && p.vision@.len() > 0 && !vision_known(g, p.vision@) {
                        Some(p.filename@)
                    } else {
                        None
                    }
            ));
        } else {
            assert(f =~= (|p: PrdNode| tree_pick(opts, slug@, p)));
        }
    }
    sort_texts(acc)
}

fn push_deps_text(out: &mut Vec<char>, g: &Graph, f: &String)
    ensures
        final(out)@ == old(out)@ + deps_text(g, f@),
{
    let es = g.edge_index.out_edges(g.edge_set.edges.as_slice(), f.as_str());
    let ghost ev = es@.map_values(|e: &Edge| *e);
    assert(ev == pick(g.edge_set.edges@, g.edge_index.out_positions(f@)));
    if es.len() == 0 {
        assert(out@ =~= old(out)@ + deps_text(g, f@));
        return;
    }
    let mut tos: Vec<Vec<char>> = Vec::new();
    let mut i: usize = 0;
    while i < es.len()
        invariant
            ev == es@.map_values(|e: &Edge| *e),
            i <= es@.len(),
            texts(tos@) == ev.take(i as int).map_values(|e: Edge| e.to@),
        decreases es@.len() - i,
    {
        let ghost before = tos@;
        tos.push(chars_of(es[i].to.as_str()));
        assert(ev.take(i + 1).map_values(|e: Edge| e.to@) =~= ev.take(i as int).map_values(
            |e: Edge| e.to@,
        ).push(ev[i as int].to@));
        assert(texts(tos@) =~= texts(before).push(ev[i as int].to@));
        i = i + 1;
    }
    assert(ev.take(ev.len() as int) =~= ev);
    let sorted = sort_texts(tos);
    let mut labels: Vec<Vec<char>> = Vec::new();
    let mut j: usize = 0;
    while j < sorted.len()
        invariant
            j <= sorted@.len(),
            texts(labels@) == texts(sorted@).take(j as int).map_values(
                |d: Seq<char>| prd_label(d),
            ),
        decreases sorted@.len() - j,
    {
        let ghost before = labels@;
        labels.push(prd_label_chars(&sorted[j]));
        assert(texts(sorted@).take(j + 1).map_values(|d: Seq<char>| prd_label(d)) =~= texts(
            sorted@,
        ).take(j as int).map_values(|d: Seq<char>| prd_label(d)).push(
            prd_label(texts(sorted@)[j as int]),
        ));
        assert(texts(labels@) =~= texts(before).push(prd_label(sorted@[j as int]@)));
        j = j + 1;
    }
    assert(texts(sorted@).take(sorted@.len() as int) =~= texts(sorted@));
    let joined = join_chars(&labels, ", ");
    push_str(out, "  \u{2190} needs: ");
    push_chars(out, &joined);
    assert(out@ =~= old(out)@ + deps_text(g, f@));
}

#[verifier::rlimit(60)]
fn push_tree_item(out: &mut Vec<char>, g: &Graph, files: &Vec<Vec<char>>, i: usize, with_deps: bool)
    requires
        i < files@.len(),
    ensures
        final(out)@ == old(out)@ + tree_item(g, texts(files@), i as int, with_deps),
{
    let ghost fs = texts(files@);
    assert(fs[i as int] == files@[i as int]@);
    match find_prd_index(g, &files[i]) {
        Some(k) => {
            let p = &g.prds[k];
            let name = chars_of(p.filename.as_str());
            let label = prd_label_chars(&name);
            push_str(out, "  ");
            if i == files.len() - 1 {
                push_str(out, "\u{2514}\u{2500}\u{2500}");
            } else {
                push_str(out, "\u{251c}\u{2500}\u{2500}");
            }
            push_str(out, " ");
            let c = status_glyph(&p.status);
            out.push(c);
            push_str(out, " ");
            push_chars(out, &label);
            let ghost mid = out@;
            let ghost branch = if i + 1 == fs.len() {
                "\u{2514}\u{2500}\u{2500}"@
            } else {
                "\u{251c}\u{2500}\u{2500}"@
            };
            assert(mid =~= old(out)@ + ("  "@ + branch + " "@ + glyph_text(p.status) + " "@
                + prd_label(p.filename@)));
            if with_deps {
                push_deps_text(out, g, &p.filename);
            } else {
                assert(out@ =~= mid + Seq::<char>::empty());
            }
            let ghost mid2 = out@;
            let url = chars_of(p.repo_url.as_str());
            if url.len() > 0 {
                push_str(out, "  \u{2192} ");
                push_chars(out, &url);
            }
            assert(out@ =~= mid2 + repo_text(g.prds@[k as int]));
            push_str(out, "\n");
            assert(out@ =~= old(out)@ + tree_item(g, fs, i as int, with_deps));
        },
        None => {
            assert(out@ =~= old(out)@ + tree_item(g, fs, i as int, with_deps));
        },
    }
}

fn push_tree_items(out: &mut Vec<char>, g: &Graph, files: &Vec<Vec<char>>, with_deps: bool)
    ensures
        final(out)@ == old(out)@ + tree_items(g, texts(files@), files@.len() as int, with_deps),
{
    let ghost fs = texts(files@);
    let ghost base = out@;
    let n = files.len();
    let mut i: usize = 0;
    assert(out@ =~= base + tree_items(g, fs, 0, with_deps));
    while i < n
        invariant
            fs == texts(files@),
            n == files@.len(),
            i <= n,
            out@ == base + tree_items(g, fs, i as int, with_deps),
        decreases n - i,
    {
        push_tree_item(out, g, files, i, with_deps);
        i = i + 1;
    }
}

fn push_tree_block(out: &mut Vec<char>, g: &Graph, opts: &RenderOptions, slug: &Vec<char>)
    ensures
        final(out)@ == old(out)@ + tree_block(g, opts, slug@),
{
    let unf = chars_of("(unfiled)");
    if chars_eq(slug, &unf) {
        let fs = tree_files_exec(g, opts, slug, true);
        push_str(out, "vision: (unfiled)  [orphan-vision PRDs]\n");
        push_tree_items(out, g, &fs, false);
        push_str(out, "\n");
        assert(out@ =~= old(out)@ + tree_block(g, opts, slug@));
    } else {
        let fs = tree_files_exec(g, opts, slug, false);
        match find_vision_index(g, slug) {
            Some(k) => {
                let st = chars_of(g.visions[k].status.as_str());
                push_str(out, "vision: ");
                push_chars(out, slug);
                push_str(out, "  [");
                push_chars(out, &st);
                push_str(out, "]\n");
            },
            None => {
                push_str(out, "vision: ");
                push_chars(out, slug);
                push_str(out, "\n");
            },
        }
        assert(out@ =~= old(out)@ + tree_header(g, slug@));
        push_tree_items(out, g, &fs, true);
        push_str(out, "\n");
        assert(out@ =~= old(out)@ + tree_block(g, opts, slug@));
    }
}

/// Render the graph as a terminal tree: vision as root, PRDs indented.
///
/// Dependency arrows noted inline.
pub fn render_tree(graph: &Graph, opts: &RenderOptions) -> (r: String)
    ensures
        r@ == tree_text(graph, opts),
{
    let g = graph;
    // Build sorted list of relevant vision slugs.
    let mut sel: Vec<Vec<char>> = Vec::new();
    let ghost f = |v: VisionNode|
        if vision_selected(opts, v) {
            Some(v.slug@)
        } else {
            None
        };
    let mut i: usize = 0;
    while i < g.visions.len()
        invariant
            f == (|v: VisionNode|
                if vision_selected(opts, v) {
                    Some(v.slug@)
                } else {
                    None
                }),
            i <= g.visions@.len(),
            texts(sel@) == g.visions@.take(i as int).filter_map(f),
        decreases g.visions@.len() - i,
    {
        proof {
            lemma_filter_map_step(g.visions@, f, i as int);
        }
        if is_selected(opts, &g.visions[i]) {
            let ghost before = sel@;
            sel.push(chars_of(g.visions[i].slug.as_str()));
            assert(texts(sel@) =~= texts(before).push(g.visions@[i as int].slug@));
        }
        i = i + 1;
    }
    assert(g.visions@.take(g.visions@.len() as int) =~= g.visions@);
    let mut roots = sort_texts(sel);
    let none: Vec<char> = Vec::new();
    let unfiled = tree_files_exec(g, opts, &none, true);
    if opts.vision_filter.is_none() && unfiled.len() > 0 {
        let ghost before = roots@;
        roots.push(chars_of("(unfiled)"));
        assert(texts(roots@) =~= texts(before).push("(unfiled)"@));
    }
    assert(texts(roots@) == tree_roots(g, opts));
    let mut out: Vec<char> = Vec::new();
    let ghost fb = |s: Seq<char>| tree_block(g, opts, s);
    proof {
        lemma_concat_map_empty(texts(roots@), fb);
    }
    let mut i: usize = 0;
    while i < roots.len()
        invariant
            fb == (|s: Seq<char>| tree_block(g, opts, s)),
            i <= roots@.len(),
            out@ == concat_map(texts(roots@).take(i as int), fb),
        decreases roots@.len() - i,
    {
        proof {
            lemma_concat_map_step(texts(roots@), fb, i as int);
        }
        push_tree_block(&mut out, g, opts, &roots[i]);
        i = i + 1;
    }
    proof {
        lemma_concat_map_all(texts(roots@), fb);
    }
    crate::text::string_of(&out)
}

// ── Laws ─────────────────────────────────────────────────────────────────────

/// Every PRD row the renderers draw comes from a PRD of the graph that the
/// options admit: under a vision filter `s` a PRD of vision `s`, and under
/// `shipped_only` a shipped one.
pub proof fn law_drawn_prds_admitted(g: &Graph, opts: &RenderOptions, r: Seq<Seq<char>>)
    requires
        scoped_rows(g, opts).contains(r),
    ensures
        exists|p: PrdNode|
            #![trigger g.prds@.contains(p)]
            g.prds@.contains(p) && r == seq![p.vision@, p.filename@] && (opts.vision_filter matches Some(
                s,
            ) ==> p.vision@ == s@) && (opts.shipped_only ==> p.status == PrdStatus::Shipped),
{
    broadcast use vstd::seq_lib::group_to_multiset_ensures;

    let f = |p: PrdNode|
        if prd_in_scope(scope_slugs(g, opts), opts, p) {
            Some(seq![p.vision@, p.filename@])
        } else {
            None
        };
    let pre = g.prds@.filter_map(f);
    assert(scoped_rows(g, opts) == row_isort(pre));
    lemma_row_isort_is_isort_by(pre);
    law_isort_by_sorts(pre, |x: Seq<Seq<char>>| row_key(x));
    assert(row_isort(pre).to_multiset().count(r) > 0);
    assert(pre.contains(r));
    g.prds@.lemma_filter_map_contains(f, r);
    let p = choose|t: PrdNode| #[trigger] g.prds@.contains(t) && f(t) == Some(r);
    assert(prd_in_scope(scope_slugs(g, opts), opts, p));
    match opts.vision_filter {
        Some(s) => {
            let sel = selected_slugs(g, opts);
            lemma_sorted_set_contains(sel);
            assert(scope_slugs(g, opts).contains(p.vision@));
            assert(sel.contains(p.vision@));
            let fs = |v: VisionNode|
                if vision_selected(opts, v) {
                    Some(v.slug@)
                } else {
                    None
                };
            let is_s = |y: Seq<char>| y == s@;
            assert forall|i: int| 0 <= i < g.visions@.len() implies (fs(#[trigger] g.visions@[i]) matches Some(
                b,
            ) ==> is_s(b)) by {}
            lemma_filter_map_forall(g.visions@, fs, is_s);
            let j = choose|j: int| 0 <= j < sel.len() && sel[j] == p.vision@;
            assert(is_s(sel[j]));
        },
        None => {},
    }
}

/// With no vision filter and not only shipped PRDs, every PRD of the graph is
/// drawn: the drawn rows are one per PRD.
pub proof fn law_unfiltered_draws_every_prd(g: &Graph, opts: &RenderOptions)
    requires
        opts.vision_filter is None,
        !opts.shipped_only,
    ensures
        scoped_rows(g, opts).len() == g.prds@.len(),
        forall|i: int|
            0 <= i < g.prds@.len() ==> scoped_rows(g, opts).contains(
                seq![(#[trigger] g.prds@[i]).vision@, g.prds@[i].filename@],
            ),
{
    broadcast use vstd::seq_lib::group_to_multiset_ensures;

    let f = |p: PrdNode|
        if prd_in_scope(scope_slugs(g, opts), opts, p) {
            Some(seq![p.vision@, p.filename@])
        } else {
            None
        };
    let h = |p: PrdNode| seq![p.vision@, p.filename@];
    let pre = g.prds@.filter_map(f);
    assert(pre == g.prds@.map_values(h)) by {
        lemma_filter_map_all_some(g.prds@, f, h);
    }
    lemma_row_isort_is_isort_by(pre);
    law_isort_by_sorts(pre, |x: Seq<Seq<char>>| row_key(x));
    assert(scoped_rows(g, opts) == row_isort(pre));
    assert(row_isort(pre).len() == row_isort(pre).to_multiset().len());
    assert(pre.len() == pre.to_multiset().len());
    assert(pre.len() == g.prds@.len());
    assert forall|i: int| 0 <= i < g.prds@.len() implies scoped_rows(g, opts).contains(
        seq![(#[trigger] g.prds@[i]).vision@, g.prds@[i].filename@],
    ) by {
        assert(pre[i] == h(g.prds@[i]));
        assert(pre.contains(pre[i]));
        assert(pre.to_multiset().count(pre[i]) > 0);
    }
}

proof fn lemma_filter_map_all_some<A, B>(xs: Seq<A>, f: spec_fn(A) -> Option<B>, h: spec_fn(A) -> B)
    requires
        forall|x: A| #[trigger] f(x) == Some(h(x)),
    ensures
        xs.filter_map(f) == xs.map_values(h),
    decreases xs.len(),
{
    if xs.len() > 0 {
        lemma_filter_map_all_some(xs.drop_last(), f, h);
        assert(xs.map_values(h) =~= xs.drop_last().map_values(h).push(h(xs.last())));
        assert(f(xs.last()) == Some(h(xs.last())));
        assert(xs.filter_map(f) =~= xs.drop_last().filter_map(f) + seq![h(xs.last())]);
    } else {
        assert(xs.map_values(h) =~= Seq::<B>::empty());
    }
}


/// Under a vision filter `s` the renderers draw the one vision `s`: the
/// scope is `s` alone when the graph has a vision of that slug and empty
/// otherwise, every root of the tree is `s`, and the tree has no
/// `(unfiled)` root.
pub proof fn law_vision_filter_draws_one_vision(g: &Graph, opts: &RenderOptions)
    requires
        opts.vision_filter is Some,
    ensures
        scope_slugs(g, opts) == (if exists|j: int|
            0 <= j < g.visions@.len() && #[trigger] g.visions@[j].slug@ == opts.vision_filter->0@ {
            seq![opts.vision_filter->0@]
        } else {
            Seq::<Seq<char>>::empty()
        }),
        tree_roots(g, opts) == tree_slugs(g, opts),
        forall|i: int|
            0 <= i < tree_roots(g, opts).len() ==> #[trigger] tree_roots(g, opts)[i] == opts.vision_filter->0@,
{
    broadcast use vstd::seq_lib::group_to_multiset_ensures;

    let s = opts.vision_filter->0@;
    let fs = |v: VisionNode|
        if vision_selected(opts, v) {
            Some(v.slug@)
        } else {
            None
        };
    let sel = g.visions@.filter_map(fs);
    assert(sel == selected_slugs(g, opts));
    let is_s = |y: Seq<char>| y == s;
    assert forall|i: int| 0 <= i < g.visions@.len() implies (fs(#[trigger] g.visions@[i]) matches Some(
        b,
    ) ==> is_s(b)) by {}
    lemma_filter_map_forall(g.visions@, fs, is_s);
    assert forall|i: int| 0 <= i < sel.len() implies #[trigger] sel[i] == s by {
        assert(is_s(sel[i]));
    }
    lemma_sorted_set_uniform(sel, s);
    if exists|j: int| 0 <= j < g.visions@.len() && #[trigger] g.visions@[j].slug@ == s {
        let j = choose|j: int| 0 <= j < g.visions@.len() && #[trigger] g.visions@[j].slug@ == s;
        lemma_filter_map_keeps(g.visions@, fs, j);
        assert(sel.len() > 0);
    } else if sel.len() > 0 {
        assert(sel.contains(sel[0]));
        g.visions@.lemma_filter_map_contains(fs, sel[0]);
        let t = choose|t: VisionNode| #[trigger] g.visions@.contains(t) && fs(t) == Some(sel[0]);
        let j = choose|j: int| 0 <= j < g.visions@.len() && g.visions@[j] == t;
        assert(g.visions@[j].slug@ == s);
    }
    lemma_text_isort_multiset(sel);
    assert forall|i: int| 0 <= i < tree_roots(g, opts).len() implies #[trigger] tree_roots(g, opts)[i] == s by {
        let y = tree_slugs(g, opts)[i];
        assert(tree_slugs(g, opts).contains(y));
        assert(tree_slugs(g, opts).to_multiset().count(y) > 0);
        assert(sel.to_multiset().count(y) > 0);
        assert(sel.contains(y));
    }
}

/// Every repo the renderers draw is the repo URL of a drawn PRD that is
/// shipped (see `shipped_url`), and every drawn shipped PRD with a repo URL
/// has its repo and its PRD→repo edge drawn.
pub proof fn law_drawn_repos_are_shipped(g: &Graph, opts: &RenderOptions)
    ensures
        forall|u: Seq<char>|
            #[trigger] scoped_repo_urls(g, opts).contains(u) ==> exists|r: Seq<Seq<char>>|
                #[trigger] scoped_rows(g, opts).contains(r) && shipped_url(g, r[1]) == Some(u),
        forall|r: Seq<Seq<char>>|
            #[trigger] scoped_rows(g, opts).contains(r) && shipped_url(g, r[1]) is Some ==> scoped_repo_urls(
                g,
                opts,
            ).contains(shipped_url(g, r[1])->0) && scoped_repo_edges(g, opts).contains(
                seq![r[1], shipped_url(g, r[1])->0],
            ),
{
    broadcast use vstd::seq_lib::group_to_multiset_ensures;

    let rws = scoped_rows(g, opts);
    let su = |r: Seq<Seq<char>>| shipped_url(g, r[1]);
    let urls = rws.filter_map(su);
    assert(scoped_repo_urls(g, opts) == sorted_set(urls));
    lemma_sorted_set_contains(urls);
    lemma_sorted_set_keeps(urls);
    assert forall|u: Seq<char>| #[trigger] scoped_repo_urls(g, opts).contains(u) implies exists|
        r: Seq<Seq<char>>,
    | #[trigger] scoped_rows(g, opts).contains(r) && shipped_url(g, r[1]) == Some(u) by {
        assert(urls.contains(u));
        rws.lemma_filter_map_contains(su, u);
        let t = choose|t: Seq<Seq<char>>| #[trigger] rws.contains(t) && su(t) == Some(u);
        assert(scoped_rows(g, opts).contains(t) && shipped_url(g, t[1]) == Some(u));
    }
    let h = |r: Seq<Seq<char>>|
        match shipped_url(g, r[1]) {
            Some(u) => Some(seq![r[1], u]),
            None => None,
        };
    let rr = rws.filter_map(h);
    assert(repo_rows(g, rws) == rr);
    lemma_row_isort_is_isort_by(rr);
    law_isort_by_sorts(rr, |x: Seq<Seq<char>>| row_key(x));
    assert forall|r: Seq<Seq<char>>| #[trigger] scoped_rows(g, opts).contains(r) && shipped_url(
        g,
        r[1],
    ) is Some implies scoped_repo_urls(g, opts).contains(shipped_url(g, r[1])->0)
        && scoped_repo_edges(g, opts).contains(seq![r[1], shipped_url(g, r[1])->0]) by {
        let k = choose|k: int| 0 <= k < rws.len() && rws[k] == r;
        lemma_filter_map_keeps(rws, su, k);
        assert(urls.contains(shipped_url(g, r[1])->0));
        lemma_filter_map_keeps(rws, h, k);
        let e = seq![r[1], shipped_url(g, r[1])->0];
        assert(rr.contains(e));
        assert(rr.to_multiset().count(e) > 0);
        assert(row_isort(rr).to_multiset().count(e) > 0);
    }
}

/// Every edge the renderers draw joins nodes they draw: a dependency edge
/// joins two drawn PRDs, an owner edge ends at a drawn PRD, and a PRD→repo
/// edge starts at a drawn PRD and ends at a drawn repo.  The dependency
/// edges drawn are the graph's edges between drawn PRDs, each as many times
/// as the graph holds it.
pub proof fn law_drawn_edges_join_drawn_nodes(g: &Graph, opts: &RenderOptions)
    ensures
        scoped_dep_edges(g, opts).to_multiset() == g.edge_set.edges@.filter(
            |e: Edge| file_in_scope(g, opts, e.from@) && file_in_scope(g, opts, e.to@),
        ).to_multiset(),
        forall|i: int|
            0 <= i < scoped_dep_edges(g, opts).len() ==> file_in_scope(
                g,
                opts,
                (#[trigger] scoped_dep_edges(g, opts)[i]).from@,
            ) && file_in_scope(g, opts, scoped_dep_edges(g, opts)[i].to@),
        forall|slug: Seq<char>, i: int|
            0 <= i < owned_files(g, opts, slug).len() ==> file_in_scope(
                g,
                opts,
                #[trigger] owned_files(g, opts, slug)[i],
            ),
        forall|i: int|
            0 <= i < scoped_repo_edges(g, opts).len() ==> file_in_scope(
                g,
                opts,
                (#[trigger] scoped_repo_edges(g, opts)[i])[0],
            ) && scoped_repo_urls(g, opts).contains(scoped_repo_edges(g, opts)[i][1]),
{
    broadcast use vstd::seq_lib::group_to_multiset_ensures;
    broadcast use vstd::seq_lib::group_filter_ensures;

    // dependency edges
    let pd = |e: Edge| file_in_scope(g, opts, e.from@) && file_in_scope(g, opts, e.to@);
    let es = g.edge_set.edges@.filter(pd);
    let id = |e: Edge| e;
    let k = |e: Edge| e.key();
    assert forall|y: Edge| #[trigger] k(id(y)) == y.key() by {}
    lemma_isort_map(es, id, k);
    assert(isort(es).map_values(id) =~= isort(es));
    assert(es.map_values(id) =~= es);
    law_isort_by_sorts(es, k);
    assert(scoped_dep_edges(g, opts) == isort(es));
    assert forall|i: int| 0 <= i < scoped_dep_edges(g, opts).len() implies file_in_scope(
        g,
        opts,
        (#[trigger] scoped_dep_edges(g, opts)[i]).from@,
    ) && file_in_scope(g, opts, scoped_dep_edges(g, opts)[i].to@) by {
        let x = isort(es)[i];
        assert(isort(es).contains(x));
        assert(isort(es).to_multiset().count(x) > 0);
        assert(es.contains(x));
        let j = choose|j: int| 0 <= j < es.len() && es[j] == x;
        assert(pd(es[j]));
    }
    // owner edges
    assert forall|slug: Seq<char>, i: int| 0 <= i < owned_files(g, opts, slug).len() implies file_in_scope(
        g,
        opts,
        #[trigger] owned_files(g, opts, slug)[i],
    ) by {
        let fo = |p: PrdNode|
            if p.vision@ == slug && file_in_scope(g, opts, p.filename@) {
                Some(p.filename@)
            } else {
                None
            };
        let fl = g.prds@.filter_map(fo);
        assert(owned_files(g, opts, slug) == text_isort(fl));
        lemma_text_isort_multiset(fl);
        let y = owned_files(g, opts, slug)[i];
        assert(text_isort(fl).contains(y));
        assert(fl.to_multiset().count(y) > 0);
        assert(fl.contains(y));
        g.prds@.lemma_filter_map_contains(fo, y);
    }
    // PRD→repo edges
    law_drawn_repos_are_shipped(g, opts);
    let rws = scoped_rows(g, opts);
    let h = |r: Seq<Seq<char>>|
        match shipped_url(g, r[1]) {
            Some(u) => Some(seq![r[1], u]),
            None => None,
        };
    let rr = rws.filter_map(h);
    assert(repo_rows(g, rws) == rr);
    lemma_row_isort_is_isort_by(rr);
    law_isort_by_sorts(rr, |x: Seq<Seq<char>>| row_key(x));
    assert forall|i: int| 0 <= i < scoped_repo_edges(g, opts).len() implies file_in_scope(
        g,
        opts,
        (#[trigger] scoped_repo_edges(g, opts)[i])[0],
    ) && scoped_repo_urls(g, opts).contains(scoped_repo_edges(g, opts)[i][1]) by {
        let x = scoped_repo_edges(g, opts)[i];
        assert(row_isort(rr).contains(x));
        assert(rr.to_multiset().count(x) > 0);
        assert(rr.contains(x));
        rws.lemma_filter_map_contains(h, x);
        let t = choose|t: Seq<Seq<char>>| #[trigger] rws.contains(t) && h(t) == Some(x);
        let j = choose|j: int| 0 <= j < rws.len() && rws[j] == t;
        assert(scoped_rows(g, opts)[j][1] == x[0]);
        assert(scoped_rows(g, opts).contains(t) && shipped_url(g, t[1]) is Some);
    }
}

/// The DOT text is one `digraph atlas { .. }` block and the Mermaid text
/// starts with `graph TD`, for every graph and options, the empty graph
/// included.
pub proof fn law_render_frames(g: &Graph, opts: &RenderOptions)
    ensures
        starts_with(dot_text(g, opts), "digraph atlas {\n"@),
        ends_with(dot_text(g, opts), "}\n"@),
        starts_with(mermaid_text(g, opts), "graph TD\n"@),
{
    assert forall|x: Seq<char>, y: Seq<char>, p: Seq<char>| starts_with(x, p) implies #[trigger] starts_with(
        x + y,
        p,
    ) by {
        assert((x + y).take(p.len() as int) =~= x.take(p.len() as int));
    }
    let d = dot_text(g, opts);
    assert(starts_with("digraph atlas {\n"@, "digraph atlas {\n"@)) by {
        assert("digraph atlas {\n"@.take("digraph atlas {\n"@.len() as int) =~= "digraph atlas {\n"@);
    }
    reveal_strlit("}\n");
    assert(d.skip(d.len() - 2) =~= "}\n"@);
    assert(starts_with("graph TD\n"@, "graph TD\n"@)) by {
        assert("graph TD\n"@.take("graph TD\n"@.len() as int) =~= "graph TD\n"@);
    }
}

proof fn lemma_tree_files_keeps(g: &Graph, opts: &RenderOptions, v: Seq<char>, i: int)
    requires
        0 <= i < g.prds@.len(),
        tree_shown(opts, g.prds@[i]),
        g.prds@[i].vision@ == v,
    ensures
        tree_files(g, opts, v).contains(g.prds@[i].filename@),
{
    broadcast use vstd::seq_lib::group_to_multiset_ensures;

    let ft = |p: PrdNode| tree_pick(opts, v, p);
    let tl = g.prds@.filter_map(ft);
    assert(tree_files(g, opts, v) == text_isort(tl));
    lemma_text_isort_multiset(tl);
    lemma_filter_map_keeps(g.prds@, ft, i);
    assert(tl.to_multiset().count(g.prds@[i].filename@) > 0);
}

/// With no vision filter the tree has one root per vision of the graph, in
/// slug order, then `(unfiled)` exactly when some shown PRD names a vision
/// the graph lacks; every shown PRD with a vision is listed under the root
/// of its vision, or under `(unfiled)` when the graph lacks that vision.
pub proof fn law_unfiltered_tree(g: &Graph, opts: &RenderOptions)
    requires
        opts.vision_filter is None,
    ensures
        tree_slugs(g, opts) == text_isort(g.visions@.map_values(|v: VisionNode| v.slug@)),
        tree_roots(g, opts) == (if exists|i: int|
            0 <= i < g.prds@.len() && tree_shown(opts, #[trigger] g.prds@[i]) && g.prds@[i].vision@.len()
                > 0 && !vision_known(g, g.prds@[i].vision@) {
            tree_slugs(g, opts).push("(unfiled)"@)
        } else {
            tree_slugs(g, opts)
        }),
        forall|i: int|
            0 <= i < g.prds@.len() && tree_shown(opts, #[trigger] g.prds@[i]) && g.prds@[i].vision@.len() > 0
                ==> if vision_known(g, g.prds@[i].vision@) {
                tree_roots(g, opts).contains(g.prds@[i].vision@) && tree_files(
                    g,
                    opts,
                    g.prds@[i].vision@,
                ).contains(g.prds@[i].filename@)
            } else {
                unfiled_files(g, opts).contains(g.prds@[i].filename@)
            },
{
    broadcast use vstd::seq_lib::group_to_multiset_ensures;

    let fs = |v: VisionNode|
        if vision_selected(opts, v) {
            Some(v.slug@)
        } else {
            None
        };
    let hs = |v: VisionNode| v.slug@;
    lemma_filter_map_all_some(g.visions@, fs, hs);
    let sl = g.visions@.map_values(hs);
    assert(selected_slugs(g, opts) == sl);
    lemma_text_isort_multiset(sl);
    let fu = |p: PrdNode|
        if tree_shown(opts, p) && p.vision@.len() > 0 && !vision_known(g, p.vision@) {
            Some(p.filename@)
        } else {
            None
        };
    let ul = g.prds@.filter_map(fu);
    assert(unfiled_files(g, opts) == text_isort(ul));
    lemma_text_isort_multiset(ul);
    if exists|i: int|
        0 <= i < g.prds@.len() && tree_shown(opts, #[trigger] g.prds@[i]) && g.prds@[i].vision@.len() > 0
            && !vision_known(g, g.prds@[i].vision@) {
        let i = choose|i: int|
            0 <= i < g.prds@.len() && tree_shown(opts, #[trigger] g.prds@[i]) && g.prds@[i].vision@.len() > 0
                && !vision_known(g, g.prds@[i].vision@);
        lemma_filter_map_keeps(g.prds@, fu, i);
        assert(ul.len() > 0);
    } else if ul.len() > 0 {
        assert(ul.contains(ul[0]));
        g.prds@.lemma_filter_map_contains(fu, ul[0]);
        let t = choose|t: PrdNode| #[trigger] g.prds@.contains(t) && fu(t) == Some(ul[0]);
        let j = choose|j: int| 0 <= j < g.prds@.len() && g.prds@[j] == t;
        assert(tree_shown(opts, g.prds@[j]));
    }
    assert forall|i: int|
        0 <= i < g.prds@.len() && tree_shown(opts, #[trigger] g.prds@[i]) && g.prds@[i].vision@.len() > 0
            implies if vision_known(g, g.prds@[i].vision@) {
        tree_roots(g, opts).contains(g.prds@[i].vision@) && tree_files(g, opts, g.prds@[i].vision@).contains(
            g.prds@[i].filename@,
        )
    } else {
        unfiled_files(g, opts).contains(g.prds@[i].filename@)
    } by {
        let pi = g.prds@[i];
        let v = pi.vision@;
        if vision_known(g, v) {
            lemma_vision_pos_from(g.visions@, v, 0);
            let j = choose|j: int| 0 <= j < g.visions@.len() && #[trigger] g.visions@[j].slug@ == v;
            assert(sl[j] == v);
            assert(sl.contains(v));
            assert(sl.to_multiset().count(v) > 0);
            assert(tree_slugs(g, opts).contains(v));
            let ts = tree_slugs(g, opts);
            let k = choose|k: int| 0 <= k < ts.len() && ts[k] == v;
            assert(tree_roots(g, opts)[k] == v);
            lemma_tree_files_keeps(g, opts, v, i);
        } else {
            lemma_filter_map_keeps(g.prds@, fu, i);
            assert(ul.to_multiset().count(pi.filename@) > 0);
        }
    }
}


/// Every section the renderers draw is ordered: vision slugs and repo URLs
/// strictly ascend (none is drawn twice), PRD rows ascend by
/// `(vision, filename)`, dependency edges by `(from, to)`, the PRDs each
/// vision owns by filename, and the tree's vision roots by slug and the
/// PRDs under each root by filename.
pub proof fn law_render_sections_ordered(g: &Graph, opts: &RenderOptions)
    ensures
        ascending(tree_slugs(g, opts)),
        ascending(unfiled_files(g, opts)),
        forall|slug: Seq<char>| ascending(#[trigger] tree_files(g, opts, slug)),
        forall|slug: Seq<char>| ascending(#[trigger] owned_files(g, opts, slug)),
        strictly_ascending(scope_slugs(g, opts)),
        strictly_ascending(scoped_repo_urls(g, opts)),
        forall|i: int, j: int|
            0 <= i < j < scoped_rows(g, opts).len() ==> !keys_lt(
                #[trigger] scoped_rows(g, opts)[j],
                #[trigger] scoped_rows(g, opts)[i],
            ),
        forall|i: int, j: int|
            0 <= i < j < scoped_dep_edges(g, opts).len() ==> !keys_lt(
                (#[trigger] scoped_dep_edges(g, opts)[j]).key(),
                (#[trigger] scoped_dep_edges(g, opts)[i]).key(),
            ),
{
    lemma_text_isort_sorted(selected_slugs(g, opts));
    lemma_text_isort_sorted(
        g.prds@.filter_map(
            |p: PrdNode|
                if tree_shown(opts, p) && p.vision@.len() > 0 && !vision_known(g, p.vision@) {
                    Some(p.filename@)
                } else {
                    None
                },
        ),
    );
    assert forall|slug: Seq<char>| ascending(#[trigger] tree_files(g, opts, slug)) by {
        lemma_text_isort_sorted(g.prds@.filter_map(|p: PrdNode| tree_pick(opts, slug, p)));
    }
    assert forall|slug: Seq<char>| ascending(#[trigger] owned_files(g, opts, slug)) by {
        lemma_text_isort_sorted(
            g.prds@.filter_map(
                |p: PrdNode|
                    if p.vision@ == slug && file_in_scope(g, opts, p.filename@) {
                        Some(p.filename@)
                    } else {
                        None
                    },
            ),
        );
    }
    lemma_sorted_set_strict(selected_slugs(g, opts));
    lemma_sorted_set_strict(scoped_rows(g, opts).filter_map(|r: Seq<Seq<char>>| shipped_url(g, r[1])));
    let f = |p: PrdNode|
        if prd_in_scope(scope_slugs(g, opts), opts, p) {
            Some(seq![p.vision@, p.filename@])
        } else {
            None
        };
    let pre = g.prds@.filter_map(f);
    lemma_row_isort_is_isort_by(pre);
    law_isort_by_sorts(pre, |x: Seq<Seq<char>>| row_key(x));
    assert(scoped_rows(g, opts) == row_isort(pre));
    let pd = |e: Edge| file_in_scope(g, opts, e.from@) && file_in_scope(g, opts, e.to@);
    let es = g.edge_set.edges@.filter(pd);
    let id = |e: Edge| e;
    let k = |e: Edge| e.key();
    assert forall|y: Edge| #[trigger] k(id(y)) == y.key() by {}
    lemma_isort_map(es, id, k);
    assert(isort(es).map_values(id) =~= isort(es));
    assert(es.map_values(id) =~= es);
    law_isort_by_sorts(es, k);
    assert(scoped_dep_edges(g, opts) == isort(es));
}

/// With no vision filter every vision of the graph is drawn: its slug is in
/// the scope, and when no two visions share a slug the scope holds one
/// slug per vision.
pub proof fn law_unfiltered_draws_every_vision(g: &Graph, opts: &RenderOptions)
    requires
        opts.vision_filter is None,
    ensures
        forall|i: int| 0 <= i < g.visions@.len() ==> scope_slugs(g, opts).contains((#[trigger] g.visions@[i]).slug@),
        (forall|i: int, j: int|
            0 <= i < j < g.visions@.len() ==> (#[trigger] g.visions@[i]).slug@ != (#[trigger] g.visions@[j]).slug@)
            ==> scope_slugs(g, opts).len() == g.visions@.len(),
{
    let fs = |v: VisionNode|
        if vision_selected(opts, v) {
            Some(v.slug@)
        } else {
            None
        };
    let hs = |v: VisionNode| v.slug@;
    lemma_filter_map_all_some(g.visions@, fs, hs);
    let sl = g.visions@.map_values(hs);
    assert(selected_slugs(g, opts) == sl);
    lemma_sorted_set_keeps(sl);
    lemma_sorted_set_strict(sl);
    assert forall|i: int| 0 <= i < g.visions@.len() implies scope_slugs(g, opts).contains(
        (#[trigger] g.visions@[i]).slug@,
    ) by {
        assert(sl[i] == g.visions@[i].slug@);
        assert(sl.contains(sl[i]));
    }
    if forall|i: int, j: int|
        0 <= i < j < g.visions@.len() ==> (#[trigger] g.visions@[i]).slug@ != (#[trigger] g.visions@[j]).slug@ {
        assert forall|i: int, j: int| 0 <= i < j < sl.len() implies #[trigger] sl[i] != #[trigger] sl[j] by {
            assert(sl[i] == g.visions@[i].slug@ && sl[j] == g.visions@[j].slug@);
        }
    }
}


/// Whether `g2` holds the visions, PRDs and edges of `g1`, each as many
/// times, in any order.
pub open spec fn reordered(g1: &Graph, g2: &Graph) -> bool {
    &&& g1.visions@.to_multiset() == g2.visions@.to_multiset()
    &&& g1.prds@.to_multiset() == g2.prds@.to_multiset()
    &&& g1.edge_set.edges@.to_multiset() == g2.edge_set.edges@.to_multiset()
}

proof fn lemma_scope_perm(g1: &Graph, g2: &Graph, opts: &RenderOptions)
    requires
        reordered(g1, g2),
        distinct_names(g1),
        distinct_names(g2),
    ensures
        scope_slugs(g1, opts) == scope_slugs(g2, opts),
        tree_slugs(g1, opts) == tree_slugs(g2, opts),
        scoped_rows(g1, opts) == scoped_rows(g2, opts),
        forall|f: Seq<char>| #[trigger] find_prd(g1, f) == find_prd(g2, f),
        forall|x: Seq<char>| #[trigger] find_vision(g1, x) == find_vision(g2, x),
        forall|x: Seq<char>| #[trigger] vision_known(g1, x) == vision_known(g2, x),
        forall|f: Seq<char>| #[trigger] file_in_scope(g1, opts, f) == file_in_scope(g2, opts, f),
        forall|f: Seq<char>| #[trigger] shipped_url(g1, f) == shipped_url(g2, f),
        scoped_repo_urls(g1, opts) == scoped_repo_urls(g2, opts),
        scoped_repo_edges(g1, opts) == scoped_repo_edges(g2, opts),
        forall|x: Seq<char>| #[trigger] owned_files(g1, opts, x) == owned_files(g2, opts, x),
        unfiled_files(g1, opts) == unfiled_files(g2, opts),
        forall|x: Seq<char>| #[trigger] tree_files(g1, opts, x) == tree_files(g2, opts, x),
{
    broadcast use vstd::seq_lib::group_to_multiset_ensures;

    assert forall|f: Seq<char>| #[trigger] find_prd(g1, f) == find_prd(g2, f) by {
        lemma_find_prd_perm(g1, g2, f);
    }
    assert forall|x: Seq<char>| #[trigger] find_vision(g1, x) == find_vision(g2, x) by {
        lemma_find_vision_perm(g1, g2, x);
    }
    assert forall|x: Seq<char>| #[trigger] vision_known(g1, x) == vision_known(g2, x) by {
        lemma_find_vision_perm(g1, g2, x);
    }
    // vision scope
    let fs = |v: VisionNode|
        if vision_selected(opts, v) {
            Some(v.slug@)
        } else {
            None
        };
    let sel1 = g1.visions@.filter_map(fs);
    let sel2 = g2.visions@.filter_map(fs);
    assert(selected_slugs(g1, opts) == sel1);
    assert(selected_slugs(g2, opts) == sel2);
    lemma_filter_map_perm(g1.visions@, g2.visions@, fs);
    assert forall|y: Seq<char>| sel1.contains(y) <==> sel2.contains(y) by {
        assert(sel1.contains(y) <==> sel1.to_multiset().count(y) > 0);
        assert(sel2.contains(y) <==> sel2.to_multiset().count(y) > 0);
    }
    lemma_sorted_set_perm(sel1, sel2);
    lemma_text_isort_perm(sel1, sel2);
    // drawn PRD rows
    let f1 = |p: PrdNode|
        if prd_in_scope(scope_slugs(g1, opts), opts, p) {
            Some(seq![p.vision@, p.filename@])
        } else {
            None
        };
    let f2 = |p: PrdNode|
        if prd_in_scope(scope_slugs(g2, opts), opts, p) {
            Some(seq![p.vision@, p.filename@])
        } else {
            None
        };
    assert(f1 =~= f2);
    assert(scoped_rows(g1, opts) == row_isort(g1.prds@.filter_map(f1)));
    assert(scoped_rows(g2, opts) == row_isort(g2.prds@.filter_map(f2)));
    lemma_filter_map_perm(g1.prds@, g2.prds@, f1);
    lemma_row_isort_perm(g1.prds@.filter_map(f1), g2.prds@.filter_map(f1));
    assert forall|f: Seq<char>| #[trigger] file_in_scope(g1, opts, f) == file_in_scope(g2, opts, f) by {}
    assert forall|f: Seq<char>| #[trigger] shipped_url(g1, f) == shipped_url(g2, f) by {
        assert(find_prd(g1, f) == find_prd(g2, f));
    }
    // repos
    let rws = scoped_rows(g1, opts);
    let su1 = |r: Seq<Seq<char>>| shipped_url(g1, r[1]);
    let su2 = |r: Seq<Seq<char>>| shipped_url(g2, r[1]);
    assert(su1 =~= su2) by {
        assert forall|r: Seq<Seq<char>>| #[trigger] su1(r) == su2(r) by {
            assert(shipped_url(g1, r[1]) == shipped_url(g2, r[1]));
        }
    }
    assert(scoped_repo_urls(g1, opts) == sorted_set(rws.filter_map(su1)));
    assert(scoped_repo_urls(g2, opts) == sorted_set(rws.filter_map(su2)));
    let h1 = |r: Seq<Seq<char>>|
        match shipped_url(g1, r[1]) {
            Some(u) => Some(seq![r[1], u]),
            None => None,
        };
    let h2 = |r: Seq<Seq<char>>|
        match shipped_url(g2, r[1]) {
            Some(u) => Some(seq![r[1], u]),
            None => None,
        };
    assert(h1 =~= h2) by {
        assert forall|r: Seq<Seq<char>>| #[trigger] h1(r) == h2(r) by {
            assert(shipped_url(g1, r[1]) == shipped_url(g2, r[1]));
        }
    }
    assert(repo_rows(g1, rws) == rws.filter_map(h1));
    assert(repo_rows(g2, rws) == rws.filter_map(h2));
    // owned files
    assert forall|x: Seq<char>| #[trigger] owned_files(g1, opts, x) == owned_files(g2, opts, x) by {
        let o1 = |p: PrdNode|
            if p.vision@ == x && file_in_scope(g1, opts, p.filename@) {
                Some(p.filename@)
            } else {
                None
            };
        let o2 = |p: PrdNode|
            if p.vision@ == x && file_in_scope(g2, opts, p.filename@) {
                Some(p.filename@)
            } else {
                None
            };
        assert(o1 =~= o2) by {
            assert forall|p: PrdNode| #[trigger] o1(p) == o2(p) by {
                assert(file_in_scope(g1, opts, p.filename@) == file_in_scope(g2, opts, p.filename@));
            }
        }
        assert(owned_files(g1, opts, x) == text_isort(g1.prds@.filter_map(o1)));
        assert(owned_files(g2, opts, x) == text_isort(g2.prds@.filter_map(o2)));
        lemma_filter_map_perm(g1.prds@, g2.prds@, o1);
        lemma_text_isort_perm(g1.prds@.filter_map(o1), g2.prds@.filter_map(o1));
    }
    // unfiled and tree files
    let u1 = |p: PrdNode|
        if tree_shown(opts, p) && p.vision@.len() > 0 && !vision_known(g1, p.vision@) {
            Some(p.filename@)
        } else {
            None
        };
    let u2 = |p: PrdNode|
        if tree_shown(opts, p) && p.vision@.len() > 0 && !vision_known(g2, p.vision@) {
            Some(p.filename@)
        } else {
            None
        };
    assert(u1 =~= u2) by {
        assert forall|p: PrdNode| #[trigger] u1(p) == u2(p) by {
            assert(vision_known(g1, p.vision@) == vision_known(g2, p.vision@));
        }
    }
    assert(unfiled_files(g1, opts) == text_isort(g1.prds@.filter_map(u1)));
    assert(unfiled_files(g2, opts) == text_isort(g2.prds@.filter_map(u2)));
    lemma_filter_map_perm(g1.prds@, g2.prds@, u1);
    lemma_text_isort_perm(g1.prds@.filter_map(u1), g2.prds@.filter_map(u1));
    assert forall|x: Seq<char>| #[trigger] tree_files(g1, opts, x) == tree_files(g2, opts, x) by {
        let t = |p: PrdNode| tree_pick(opts, x, p);
        lemma_filter_map_perm(g1.prds@, g2.prds@, t);
        lemma_text_isort_perm(g1.prds@.filter_map(t), g2.prds@.filter_map(t));
    }
}


/// An edge of `all` with key `k`.
spec fn edge_with_key(all: Seq<Edge>, k: Seq<Seq<char>>) -> Edge {
    choose|e: Edge| all.contains(e) && e.key() == k
}

/// Sorting reordered edges draws the same lines, when a line shows only an
/// edge's ends and kind and no two edges of `all` join the same ends with
/// different kinds.
proof fn lemma_dep_lines_perm(es1: Seq<Edge>, es2: Seq<Edge>, all: Seq<Edge>, line: spec_fn(Edge) -> Seq<char>)
    requires
        es1.to_multiset() == es2.to_multiset(),
        forall|e: Edge| #[trigger] es1.contains(e) ==> all.contains(e),
        forall|a: Edge, b: Edge|
            #[trigger] all.contains(a) && #[trigger] all.contains(b) && a.from@ == b.from@ && a.to@ == b.to@
                ==> a.kind == b.kind,
        forall|a: Edge, b: Edge|
            a.from@ == b.from@ && a.to@ == b.to@ && a.kind == b.kind ==> #[trigger] line(a) == #[trigger] line(b),
    ensures
        concat_map(isort(es1), line) == concat_map(isort(es2), line),
{
    broadcast use vstd::seq_lib::group_to_multiset_ensures;

    let id = |e: Edge| e;
    let k = |e: Edge| e.key();
    assert forall|y: Edge| #[trigger] k(id(y)) == y.key() by {}
    lemma_isort_map(es1, id, k);
    lemma_isort_map(es2, id, k);
    let i1 = isort(es1);
    let i2 = isort(es2);
    assert(i1.map_values(id) =~= i1);
    assert(i2.map_values(id) =~= i2);
    assert(es1.map_values(id) =~= es1);
    assert(es2.map_values(id) =~= es2);
    law_isort_by_sorts(es1, k);
    law_isort_by_sorts(es2, k);
    let m1 = i1.map_values(k);
    let m2 = i2.map_values(k);
    lemma_map_is_filter_map(i1, k);
    lemma_map_is_filter_map(i2, k);
    lemma_filter_map_perm(i1, i2, |x: Edge| Some(k(x)));
    assert forall|i: int, j: int| 0 <= i < j < m1.len() implies !keys_lt(#[trigger] m1[j], #[trigger] m1[i]) by {
        assert(m1[i] == k(i1[i]) && m1[j] == k(i1[j]));
    }
    assert forall|i: int, j: int| 0 <= i < j < m2.len() implies !keys_lt(#[trigger] m2[j], #[trigger] m2[i]) by {
        assert(m2[i] == k(i2[i]) && m2[j] == k(i2[j]));
    }
    lemma_keys_sorted_unique(m1, m2);
    let lk = |key: Seq<Seq<char>>| line(edge_with_key(all, key));
    assert forall|e: Edge| #[trigger] all.contains(e) implies line(e) == lk(k(e)) by {
        let c = edge_with_key(all, e.key());
        assert(all.contains(c) && c.key() == e.key());
        assert(c.key()[0] == c.from@ && c.key()[1] == c.to@);
        assert(e.key()[0] == e.from@ && e.key()[1] == e.to@);
    }
    assert forall|i: int| 0 <= i < i1.len() implies line(#[trigger] i1[i]) == lk(k(i1[i])) by {
        assert(i1.contains(i1[i]));
        assert(i1.to_multiset().count(i1[i]) > 0);
        assert(es1.contains(i1[i]));
    }
    assert forall|i: int| 0 <= i < i2.len() implies line(#[trigger] i2[i]) == lk(k(i2[i])) by {
        assert(i2.contains(i2[i]));
        assert(i2.to_multiset().count(i2[i]) > 0);
        assert(es1.to_multiset().count(i2[i]) > 0);
        assert(es1.contains(i2[i]));
    }
    lemma_concat_map_agree(i1, line, |e: Edge| lk(k(e)));
    lemma_concat_map_agree(i2, line, |e: Edge| lk(k(e)));
    lemma_concat_map_map(i1, k, lk);
    lemma_concat_map_map(i2, k, lk);
}


proof fn lemma_dep_edges_perm(g1: &Graph, g2: &Graph, opts: &RenderOptions)
    requires
        reordered(g1, g2),
        distinct_names(g1),
        distinct_names(g2),
        edge_kinds_agree(g1),
    ensures
        concat_map(scoped_dep_edges(g1, opts), |e: Edge| dot_dep_line(e)) == concat_map(
            scoped_dep_edges(g2, opts),
            |e: Edge| dot_dep_line(e),
        ),
        concat_map(scoped_dep_edges(g1, opts), |e: Edge| mermaid_dep_line(e)) == concat_map(
            scoped_dep_edges(g2, opts),
            |e: Edge| mermaid_dep_line(e),
        ),
{
    lemma_scope_perm(g1, g2, opts);
    let all = g1.edge_set.edges@;
    let pd1 = |e: Edge| file_in_scope(g1, opts, e.from@) && file_in_scope(g1, opts, e.to@);
    let pd2 = |e: Edge| file_in_scope(g2, opts, e.from@) && file_in_scope(g2, opts, e.to@);
    assert(pd1 =~= pd2) by {
        assert forall|e: Edge| #[trigger] pd1(e) == pd2(e) by {
            assert(file_in_scope(g1, opts, e.from@) == file_in_scope(g2, opts, e.from@));
            assert(file_in_scope(g1, opts, e.to@) == file_in_scope(g2, opts, e.to@));
        }
    }
    let es1 = all.filter(pd1);
    let es2 = g2.edge_set.edges@.filter(pd2);
    assert(scoped_dep_edges(g1, opts) == isort(es1));
    assert(scoped_dep_edges(g2, opts) == isort(es2));
    let sel = |x: Edge|
        if pd1(x) {
            Some(x)
        } else {
            None
        };
    lemma_filter_is_filter_map(all, pd1);
    lemma_filter_is_filter_map(g2.edge_set.edges@, pd1);
    lemma_filter_map_perm(all, g2.edge_set.edges@, sel);
    assert forall|e: Edge| #[trigger] es1.contains(e) implies all.contains(e) by {
        all.lemma_filter_contains_rev(pd1, e);
    }
    assert forall|a: Edge, b: Edge|
        #[trigger] all.contains(a) && #[trigger] all.contains(b) && a.from@ == b.from@ && a.to@ == b.to@
            implies a.kind == b.kind by {
        let ia = choose|i: int| 0 <= i < all.len() && all[i] == a;
        let ib = choose|i: int| 0 <= i < all.len() && all[i] == b;
        assert(all[ia].from@ == all[ib].from@ && all[ia].to@ == all[ib].to@);
    }
    lemma_dep_lines_perm(es1, es2, all, |e: Edge| dot_dep_line(e));
    lemma_dep_lines_perm(es1, es2, all, |e: Edge| mermaid_dep_line(e));
}

/// The DOT and Mermaid texts do not depend on the order in which the graph
/// holds its visions, PRDs and edges: a graph holding the same nodes and
/// edges in another order renders to the same texts, when no two visions
/// share a slug, no two PRDs a filename, and no two edges join the same PRDs
/// with different kinds.
pub proof fn law_render_ignores_order(g1: &Graph, g2: &Graph, opts: &RenderOptions)
    requires
        reordered(g1, g2),
        distinct_names(g1),
        distinct_names(g2),
        edge_kinds_agree(g1),
    ensures
        dot_text(g1, opts) == dot_text(g2, opts),
        mermaid_text(g1, opts) == mermaid_text(g2, opts),
{
    lemma_scope_perm(g1, g2, opts);
    lemma_dep_edges_perm(g1, g2, opts);
    let slugs = scope_slugs(g1, opts);
    let rws = scoped_rows(g1, opts);
    lemma_concat_map_agree(slugs, |s: Seq<char>| dot_vision_decl(g1, s), |s: Seq<char>| dot_vision_decl(g2, s));
    lemma_concat_map_agree(
        rws,
        |r: Seq<Seq<char>>| dot_prd_decl(g1, r[1]),
        |r: Seq<Seq<char>>| dot_prd_decl(g2, r[1]),
    );
    lemma_concat_map_agree(
        slugs,
        |s: Seq<char>| dot_owner_edges(g1, opts, s),
        |s: Seq<char>| dot_owner_edges(g2, opts, s),
    );
    lemma_concat_map_agree(
        rws,
        |r: Seq<Seq<char>>| mermaid_prd_decl(g1, r[1]),
        |r: Seq<Seq<char>>| mermaid_prd_decl(g2, r[1]),
    );
    lemma_concat_map_agree(
        slugs,
        |s: Seq<char>| mermaid_owner_edges(g1, opts, s),
        |s: Seq<char>| mermaid_owner_edges(g2, opts, s),
    );
}


proof fn lemma_deps_text_perm(g1: &Graph, g2: &Graph, f: Seq<char>)
    requires
        reordered(g1, g2),
        index_matches(g1),
        index_matches(g2),
        g1.edge_set.edges@.len() <= usize::MAX,
        g2.edge_set.edges@.len() <= usize::MAX,
    ensures
        deps_text(g1, f) == deps_text(g2, f),
{
    broadcast use vstd::seq_lib::group_to_multiset_ensures;

    law_index_selects_edges(&g1.edge_set, &g1.edge_index, f);
    law_index_selects_edges(&g2.edge_set, &g2.edge_index, f);
    let p = |e: Edge| e.from@ == f;
    let e1 = g1.edge_set.edges@.filter(p);
    let e2 = g2.edge_set.edges@.filter(p);
    let sel = |x: Edge|
        if p(x) {
            Some(x)
        } else {
            None
        };
    lemma_filter_is_filter_map(g1.edge_set.edges@, p);
    lemma_filter_is_filter_map(g2.edge_set.edges@, p);
    lemma_filter_map_perm(g1.edge_set.edges@, g2.edge_set.edges@, sel);
    let to = |e: Edge| e.to@;
    lemma_map_is_filter_map(e1, to);
    lemma_map_is_filter_map(e2, to);
    lemma_filter_map_perm(e1, e2, |x: Edge| Some(to(x)));
    lemma_text_isort_perm(e1.map_values(to), e2.map_values(to));
    assert(e1.len() == e1.to_multiset().len());
    assert(e2.len() == e2.to_multiset().len());
}

proof fn lemma_tree_items_agree(g1: &Graph, g2: &Graph, files: Seq<Seq<char>>, k: int, with_deps: bool)
    requires
        k <= files.len(),
        forall|i: int| 0 <= i < files.len() ==> tree_item(g1, files, i, with_deps) == #[trigger] tree_item(
            g2,
            files,
            i,
            with_deps,
        ),
    ensures
        tree_items(g1, files, k, with_deps) == tree_items(g2, files, k, with_deps),
    decreases k,
{
    if k > 0 {
        lemma_tree_items_agree(g1, g2, files, k - 1, with_deps);
        assert(tree_item(g1, files, k - 1, with_deps) == tree_item(g2, files, k - 1, with_deps));
    }
}

/// The tree text does not depend on the order in which the graph holds its
/// visions, PRDs and edges: a graph holding the same nodes and edges in
/// another order, each with its edge index built over its own edges,
/// renders to the same tree, when no two visions share a slug and no two
/// PRDs a filename.
pub proof fn law_tree_ignores_order(g1: &Graph, g2: &Graph, opts: &RenderOptions)
    requires
        reordered(g1, g2),
        distinct_names(g1),
        distinct_names(g2),
        index_matches(g1),
        index_matches(g2),
        g1.edge_set.edges@.len() <= usize::MAX,
        g2.edge_set.edges@.len() <= usize::MAX,
    ensures
        tree_text(g1, opts) == tree_text(g2, opts),
{
    lemma_scope_perm(g1, g2, opts);
    assert forall|f: Seq<char>| #[trigger] deps_text(g1, f) == deps_text(g2, f) by {
        lemma_deps_text_perm(g1, g2, f);
    }
    assert(tree_roots(g1, opts) == tree_roots(g2, opts));
    let roots = tree_roots(g1, opts);
    assert forall|i: int| 0 <= i < roots.len() implies #[trigger] tree_block(g1, opts, roots[i]) == tree_block(
        g2,
        opts,
        roots[i],
    ) by {
        let slug = roots[i];
        let uf = unfiled_files(g1, opts);
        let tf = tree_files(g1, opts, slug);
        assert forall|j: int| 0 <= j < uf.len() implies tree_item(g1, uf, j, false) == #[trigger] tree_item(
            g2,
            uf,
            j,
            false,
        ) by {
            assert(find_prd(g1, uf[j]) == find_prd(g2, uf[j]));
        }
        assert forall|j: int| 0 <= j < tf.len() implies tree_item(g1, tf, j, true) == #[trigger] tree_item(
            g2,
            tf,
            j,
            true,
        ) by {
            assert(find_prd(g1, tf[j]) == find_prd(g2, tf[j]));
            match find_prd(g1, tf[j]) {
                Some(p) => {
                    assert(deps_text(g1, p.filename@) == deps_text(g2, p.filename@));
                },
                None => {},
            }
        }
        lemma_tree_items_agree(g1, g2, uf, uf.len() as int, false);
        lemma_tree_items_agree(g1, g2, tf, tf.len() as int, true);
        assert(tree_header(g1, slug) == tree_header(g2, slug)) by {
            assert(find_vision(g1, slug) == find_vision(g2, slug));
        }
    }
    lemma_concat_map_agree(
        roots,
        |s: Seq<char>| tree_block(g1, opts, s),
        |s: Seq<char>| tree_block(g2, opts, s),
    );
}


/// Every PRD the DOT text declares is filled by its status: grey
/// `#eeeeee` when drafted, yellow `#fff3cd` when in flight, green `#d4edda`
/// when shipped.
pub proof fn law_dot_fill_by_status(g: &Graph, f: Seq<char>)
    requires
        find_prd(g, f) is Some,
    ensures
        find_prd(g, f)->0.status == PrdStatus::Drafted ==> contains(dot_prd_decl(g, f), "fillcolor=\"#eeeeee\""@),
        find_prd(g, f)->0.status == PrdStatus::InFlight ==> contains(dot_prd_decl(g, f), "fillcolor=\"#fff3cd\""@),
        find_prd(g, f)->0.status == PrdStatus::Shipped ==> contains(dot_prd_decl(g, f), "fillcolor=\"#d4edda\""@),
{
    let p = find_prd(g, f)->0;
    let d = dot_prd_decl(g, f);
    let a = "  prd_"@ + safe_id_text(p.filename@) + " ["@;
    let at = prd_attrs_text(p.status);
    let fill = match p.status {
        PrdStatus::Drafted => "fillcolor=\"#eeeeee\""@,
        PrdStatus::InFlight => "fillcolor=\"#fff3cd\""@,
        PrdStatus::Shipped => "fillcolor=\"#d4edda\""@,
    };
    reveal_strlit("shape=box, style=filled, fillcolor=\"#eeeeee\"");
    reveal_strlit("shape=box, style=filled, fillcolor=\"#fff3cd\"");
    reveal_strlit("shape=box, style=filled, fillcolor=\"#d4edda\"");
    reveal_strlit("fillcolor=\"#eeeeee\"");
    reveal_strlit("fillcolor=\"#fff3cd\"");
    reveal_strlit("fillcolor=\"#d4edda\"");
    reveal_strlit("  prd_");
    reveal_strlit(" [");
    let n: int = fill.len() as int;
    assert(at.subrange(25, 25 + n) =~= fill);
    let k: int = a.len() as int + 25;
    assert(d == a + at + (", label=\""@ + prd_label(p.filename@) + "\"];\n"@)) by {
        assert(d =~= a + at + (", label=\""@ + prd_label(p.filename@) + "\"];\n"@));
    }
    assert(d.subrange(k, k + n) =~= at.subrange(25, 25 + n));
    assert(occurs_at(d, fill, k));
    lemma_find_from(d, fill, 0);
}

} // verus!
