//! Dependency edges between PRDs, and an index over them.
//!
//! Two sources are supported:
//!
//! 1. **Frontmatter edges** — `**Depends on:** PRD-foo.md, PRD-bar.md` lines
//!    in each PRD file.  These are authoritative.
//! 2. **Gossip edges** — `Order:` blocks in the gossip notes that name PRD
//!    slugs connected with `→`, `->`, or `||`.  Best-effort.
//!
//! Deduplication rule: if both sources declare the same `(from, to)` pair,
//! only the frontmatter edge is kept.  A gossip edge that duplicates a
//! frontmatter edge is silently dropped (not counted in `unresolved`).
//!
//! Unresolved endpoints (a named PRD that is not in the known filename set)
//! are dropped and counted.
use vstd::prelude::*;
use crate::model::{copy_edge, edge_view, strings, Edge, EdgeKind};
use crate::order::{lemma_filter_map_forall, lemma_filter_map_step};
use crate::parsers::{archived_dir, field_value, field_value_chars, DirFile};
use crate::paths::{extension, extension_chars, file_name_chars};
use crate::paths::file_name;
use crate::text::{
    chars_eq, chars_of, contains, contains_str, copy_chars, decimal, decimal_chars,
    eq_ignore_ascii_case, eq_ignore_case, find, find_str, is_alphanumeric, lemma_find_from, lines,
    lines_chars, push_chars, push_str, replace, replace_str, spec_is_alphanumeric, spec_to_lowercase, split,
    split_once, split_once_str, split_str, starts_with, starts_with_str, string_of, subvec, texts,
    to_lowercase, trim, trim_chars, words, words_chars,
};

verus! {

/// Result of parsing all edges from both sources.
#[derive(Debug)]
pub struct EdgeSet {
    /// All resolved edges (deduplicated).
    pub edges: Vec<Edge>,
    /// Count of edge endpoints that could not be resolved to a known PRD.
    pub unresolved: usize,
}

impl Default for EdgeSet {
    fn default() -> (r: Self)
        ensures
            r.edges@.len() == 0,
            r.unresolved == 0,
    {
        EdgeSet { edges: Vec::new(), unresolved: 0 }
    }
}

/// The index list stored for key `k` among `ps` (the first pair with that key),
/// or the empty list.
pub open spec fn lookup(ps: Seq<(String, Vec<usize>)>, k: Seq<char>) -> Seq<usize>
    decreases ps.len(),
{
    if ps.len() == 0 {
        Seq::empty()
    } else if ps[0].0@ == k {
        ps[0].1@
    } else {
        lookup(ps.drop_first(), k)
    }
}

/// The positions, in order, of the edges of `es` whose `from` is `k`.
pub open spec fn from_positions(es: Seq<Edge>, k: Seq<char>) -> Seq<usize>
    decreases es.len(),
{
    if es.len() == 0 {
        Seq::empty()
    } else if es.last().from@ == k {
        from_positions(es.drop_last(), k).push((es.len() - 1) as usize)
    } else {
        from_positions(es.drop_last(), k)
    }
}

/// The positions, in order, of the edges of `es` whose `to` is `k`.
pub open spec fn to_positions(es: Seq<Edge>, k: Seq<char>) -> Seq<usize>
    decreases es.len(),
{
    if es.len() == 0 {
        Seq::empty()
    } else if es.last().to@ == k {
        to_positions(es.drop_last(), k).push((es.len() - 1) as usize)
    } else {
        to_positions(es.drop_last(), k)
    }
}

/// The edges of `es` at the positions `idxs` that lie inside `es`, in the order of `idxs`.
pub open spec fn pick(es: Seq<Edge>, idxs: Seq<usize>) -> Seq<Edge>
    decreases idxs.len(),
{
    if idxs.len() == 0 {
        Seq::empty()
    } else if idxs.last() < es.len() {
        pick(es, idxs.drop_last()).push(es[idxs.last() as int])
    } else {
        pick(es, idxs.drop_last())
    }
}

/// Index edges by `from` and `to` for fast lookup.
#[derive(Debug)]
pub struct EdgeIndex {
    /// `from` filename → positions of the edges going out of that PRD.
    by_from: Vec<(String, Vec<usize>)>,
    /// `to` filename → positions of the edges coming into that PRD.
    by_to: Vec<(String, Vec<usize>)>,
}

impl Default for EdgeIndex {
    fn default() -> (r: Self)
        ensures
            forall|k: Seq<char>| #[trigger] r.out_positions(k).len() == 0 && r.in_positions(k).len()
                == 0,
    {
        EdgeIndex { by_from: Vec::new(), by_to: Vec::new() }
    }
}

proof fn lemma_lookup_push(ps: Seq<(String, Vec<usize>)>, x: (String, Vec<usize>), k: Seq<char>)
    requires
        forall|j: int| 0 <= j < ps.len() ==> (#[trigger] ps[j]).0@ != x.0@,
    ensures
        lookup(ps.push(x), k) == if k == x.0@ {
            x.1@
        } else {
            lookup(ps, k)
        },
    decreases ps.len(),
{
    if ps.len() == 0 {
        assert(ps.push(x).drop_first() =~= ps);
    } else {
        assert(ps.push(x).drop_first() =~= ps.drop_first().push(x));
        assert forall|j: int| 0 <= j < ps.drop_first().len() implies (
        #[trigger] ps.drop_first()[j]).0@ != x.0@ by {
            assert(ps.drop_first()[j] == ps[j + 1]);
        }
        lemma_lookup_push(ps.drop_first(), x, k);
    }
}

proof fn lemma_lookup_update(ps: Seq<(String, Vec<usize>)>, j: int, l: Vec<usize>, k: Seq<char>)
    requires
        0 <= j < ps.len(),
        forall|i: int| 0 <= i < j ==> (#[trigger] ps[i]).0@ != ps[j].0@,
    ensures
        lookup(ps.update(j, (ps[j].0, l)), k) == if k == ps[j].0@ {
            l@
        } else {
            lookup(ps, k)
        },
    decreases ps.len(),
{
    if j == 0 {
        assert(ps.update(j, (ps[j].0, l)).drop_first() =~= ps.drop_first());
    } else {
        assert(ps.update(j, (ps[j].0, l)).drop_first() =~= ps.drop_first().update(
            j - 1,
            (ps[j].0, l),
        ));
        assert(ps[0].0@ != ps[j].0@);
        assert forall|i: int| 0 <= i < j - 1 implies (#[trigger] ps.drop_first()[i]).0@
            != ps.drop_first()[j - 1].0@ by {
            assert(ps.drop_first()[i] == ps[i + 1]);
        }
        lemma_lookup_update(ps.drop_first(), j - 1, l, k);
    }
}

proof fn lemma_lookup_found(ps: Seq<(String, Vec<usize>)>, j: int)
    requires
        0 <= j < ps.len(),
        forall|i: int| 0 <= i < j ==> (#[trigger] ps[i]).0@ != ps[j].0@,
    ensures
        lookup(ps, ps[j].0@) == ps[j].1@,
    decreases ps.len(),
{
    if j > 0 {
        assert forall|i: int| 0 <= i < j - 1 implies (#[trigger] ps.drop_first()[i]).0@
            != ps.drop_first()[j - 1].0@ by {
            assert(ps.drop_first()[i] == ps[i + 1]);
        }
        assert(ps[0].0@ != ps[j].0@);
        lemma_lookup_found(ps.drop_first(), j - 1);
    }
}

/// Records that the edge at position `idx` has key `key` in the table `ps`.
fn add_position(ps: &mut Vec<(String, Vec<usize>)>, key: &String, idx: usize)
    requires
        forall|i: int, j: int|
            0 <= i < j < old(ps)@.len() ==> (#[trigger] old(ps)@[i]).0@
                != (#[trigger] old(ps)@[j]).0@,
    ensures
        forall|i: int, j: int|
            0 <= i < j < final(ps)@.len() ==> (#[trigger] final(ps)@[i]).0@
                != (#[trigger] final(ps)@[j]).0@,
        forall|k: Seq<char>| #[trigger]
            lookup(final(ps)@, k) == if k == key@ {
                lookup(old(ps)@, k).push(idx)
            } else {
                lookup(old(ps)@, k)
            },
{
    let kc = chars_of(key.as_str());
    let mut j: usize = 0;
    while j < ps.len()
        invariant
            kc@ == key@,
            j <= ps@.len(),
            ps@ == old(ps)@,
            forall|a: int, b: int|
                0 <= a < b < ps@.len() ==> (#[trigger] ps@[a]).0@ != (#[trigger] ps@[b]).0@,
            forall|i: int| 0 <= i < j ==> (#[trigger] ps@[i]).0@ != key@,
        decreases ps@.len() - j,
    {
        let c = chars_of(ps[j].0.as_str());
        if chars_eq(&c, &kc) {
            let ghost before = ps@;
            proof {
                lemma_lookup_found(before, j as int);
            }
            let (name, mut list) = ps.remove(j);
            list.push(idx);
            ps.insert(j, (name, list));
            assert(ps@ =~= before.update(j as int, (before[j as int].0, list)));
            assert forall|a: int, b: int| 0 <= a < b < ps@.len() implies (#[trigger] ps@[a]).0@
                != (#[trigger] ps@[b]).0@ by {
                assert(ps@[a].0 == before[a].0);
                assert(ps@[b].0 == before[b].0);
            }
            assert forall|k: Seq<char>| #[trigger]
                lookup(ps@, k) == if k == key@ {
                    lookup(before, k).push(idx)
                } else {
                    lookup(before, k)
                } by {
                lemma_lookup_update(before, j as int, list, k);
            }
            return;
        }
        j = j + 1;
    }
    let ghost before = ps@;
    let list: Vec<usize> = vec![idx];
    let x = (key.clone(), list);
    assert forall|k: Seq<char>| #[trigger]
        lookup(before.push(x), k) == if k == key@ {
            lookup(before, k).push(idx)
        } else {
            lookup(before, k)
        } by {
        lemma_lookup_push(before, x, k);
        if k == key@ {
            lemma_lookup_absent(before, k);
            assert(x.1@ =~= lookup(before, k).push(idx));
        }
    }
    ps.push(x);
    assert forall|a: int, b: int| 0 <= a < b < ps@.len() implies (#[trigger] ps@[a]).0@
        != (#[trigger] ps@[b]).0@ by {
        if b == before.len() {
            assert(ps@[b].0@ == key@);
            assert(ps@[a] == before[a]);
        } else {
            assert(ps@[a] == before[a]);
            assert(ps@[b] == before[b]);
        }
    }
}

proof fn lemma_lookup_absent(ps: Seq<(String, Vec<usize>)>, k: Seq<char>)
    requires
        forall|i: int| 0 <= i < ps.len() ==> (#[trigger] ps[i]).0@ != k,
    ensures
        lookup(ps, k) == Seq::<usize>::empty(),
    decreases ps.len(),
{
    if ps.len() > 0 {
        assert forall|i: int| 0 <= i < ps.drop_first().len() implies (
        #[trigger] ps.drop_first()[i]).0@ != k by {
            assert(ps.drop_first()[i] == ps[i + 1]);
        }
        lemma_lookup_absent(ps.drop_first(), k);
    }
}

/// The edges at `idxs` that lie inside `edges`.
fn pick_edges<'a>(edges: &'a [Edge], idxs: &Vec<usize>) -> (r: Vec<&'a Edge>)
    ensures
        r@.map_values(|e: &Edge| *e) == pick(edges@, idxs@),
{
    let mut out: Vec<&'a Edge> = Vec::new();
    let mut i: usize = 0;
    while i < idxs.len()
        invariant
            i <= idxs@.len(),
            out@.map_values(|e: &Edge| *e) == pick(edges@, idxs@.take(i as int)),
        decreases idxs@.len() - i,
    {
        assert(idxs@.take(i + 1).drop_last() =~= idxs@.take(i as int));
        let k = idxs[i];
        if k < edges.len() {
            let ghost before = out@;
            out.push(&edges[k]);
            assert(out@.map_values(|e: &Edge| *e) =~= before.map_values(|e: &Edge| *e).push(
                edges@[k as int],
            ));
        }
        i = i + 1;
    }
    assert(idxs@.take(idxs@.len() as int) =~= idxs@);
    out
}

impl EdgeIndex {
    /// Positions recorded for edges going out of `k`.
    pub closed spec fn out_positions(&self, k: Seq<char>) -> Seq<usize> {
        lookup(self.by_from@, k)
    }

    /// Positions recorded for edges coming into `k`.
    pub closed spec fn in_positions(&self, k: Seq<char>) -> Seq<usize> {
        lookup(self.by_to@, k)
    }

    /// Build an index from an [`EdgeSet`].
    pub fn build(edge_set: &EdgeSet) -> (r: Self)
        ensures
            forall|k: Seq<char>| #[trigger]
                r.out_positions(k) == from_positions(edge_set.edges@, k),
            forall|k: Seq<char>| #[trigger] r.in_positions(k) == to_positions(edge_set.edges@, k),
    {
        let mut by_from: Vec<(String, Vec<usize>)> = Vec::new();
        let mut by_to: Vec<(String, Vec<usize>)> = Vec::new();
        let es = &edge_set.edges;
        let mut idx: usize = 0;
        while idx < es.len()
            invariant
                idx <= es@.len(),
                forall|i: int, j: int|
                    0 <= i < j < by_from@.len() ==> (#[trigger] by_from@[i]).0@ != (
                    #[trigger] by_from@[j]).0@,
                forall|i: int, j: int|
                    0 <= i < j < by_to@.len() ==> (#[trigger] by_to@[i]).0@ != (
                    #[trigger] by_to@[j]).0@,
                forall|k: Seq<char>| #[trigger]
                    lookup(by_from@, k) == from_positions(es@.take(idx as int), k),
                forall|k: Seq<char>| #[trigger]
                    lookup(by_to@, k) == to_positions(es@.take(idx as int), k),
            decreases es@.len() - idx,
        {
            assert(es@.take(idx + 1).drop_last() =~= es@.take(idx as int));
            assert(es@.take(idx + 1).last() == es@[idx as int]);
            add_position(&mut by_from, &es[idx].from, idx);
            add_position(&mut by_to, &es[idx].to, idx);
            idx = idx + 1;
        }
        assert(es@.take(es@.len() as int) =~= es@);
        EdgeIndex { by_from, by_to }
    }

    /// Return edges going OUT of `filename` (what `filename` depends on).
    pub fn out_edges<'a>(&'a self, edges: &'a [Edge], filename: &str) -> (r: Vec<&'a Edge>)
        ensures
            r@.map_values(|e: &Edge| *e) == pick(edges@, self.out_positions(filename@)),
    {
        let key = chars_of(filename);
        let mut j: usize = 0;
        assert(self.by_from@.skip(0) =~= self.by_from@);
        while j < self.by_from.len()
            invariant
                key@ == filename@,
                j <= self.by_from@.len(),
                lookup(self.by_from@.skip(j as int), key@) == lookup(self.by_from@, key@),
            decreases self.by_from@.len() - j,
        {
            assert(self.by_from@.skip(j as int).drop_first() =~= self.by_from@.skip(j + 1));
            let c = chars_of(self.by_from[j].0.as_str());
            if chars_eq(&c, &key) {
                return pick_edges(edges, &self.by_from[j].1);
            }
            j = j + 1;
        }
        assert(self.by_from@.skip(j as int).len() == 0);
        let none: Vec<usize> = Vec::new();
        pick_edges(edges, &none)
    }

    /// Return edges going INTO `filename` (what depends on `filename`).
    pub fn in_edges<'a>(&'a self, edges: &'a [Edge], filename: &str) -> (r: Vec<&'a Edge>)
        ensures
            r@.map_values(|e: &Edge| *e) == pick(edges@, self.in_positions(filename@)),
    {
        let key = chars_of(filename);
        let mut j: usize = 0;
        assert(self.by_to@.skip(0) =~= self.by_to@);
        while j < self.by_to.len()
            invariant
                key@ == filename@,
                j <= self.by_to@.len(),
                lookup(self.by_to@.skip(j as int), key@) == lookup(self.by_to@, key@),
            decreases self.by_to@.len() - j,
        {
            assert(self.by_to@.skip(j as int).drop_first() =~= self.by_to@.skip(j + 1));
            let c = chars_of(self.by_to[j].0.as_str());
            if chars_eq(&c, &key) {
                return pick_edges(edges, &self.by_to[j].1);
            }
            j = j + 1;
        }
        assert(self.by_to@.skip(j as int).len() == 0);
        let none: Vec<usize> = Vec::new();
        pick_edges(edges, &none)
    }
}

// ── PRD filenames and the known set ─────────────────────────────────────────

/// Whether a path's extension is `md`, in any case.
pub open spec fn has_md_ext(t: Seq<char>) -> bool {
    match extension(t) {
        Some(e) => eq_ignore_ascii_case(e, "md"@),
        None => false,
    }
}

/// A dependency name as a PRD filename: a trimmed `PRD-*.md` name as it is,
/// `.md` added to a `PRD-` name without it, `PRD-<slug>.md` for a slug.
pub open spec fn prd_filename(name: Seq<char>) -> Seq<char> {
    let t = trim(name);
    if starts_with(t, "PRD-"@) && has_md_ext(t) {
        t
    } else if starts_with(t, "PRD-"@) {
        t + ".md"@
    } else {
        "PRD-"@ + t + ".md"@
    }
}

fn has_md_ext_exec(t: &Vec<char>) -> (r: bool)
    ensures
        r == has_md_ext(t@),
{
    match extension_chars(t) {
        Some(e) => {
            let md = chars_of("md");
            eq_ignore_case(&e, &md)
        },
        None => false,
    }
}

fn prd_filename_chars(name: &Vec<char>) -> (r: Vec<char>)
    ensures
        r@ == prd_filename(name@),
{
    let t = trim_chars(name);
    let prd = starts_with_str(&t, "PRD-");
    if prd && has_md_ext_exec(&t) {
        return t;
    }
    let mut out: Vec<char> = Vec::new();
    if !prd {
        push_str(&mut out, "PRD-");
    }
    push_chars(&mut out, &t);
    push_str(&mut out, ".md");
    assert(out@ =~= prd_filename(name@));
    out
}

/// Normalise a dep name to a PRD filename.
///
/// If it already ends in `.md` and starts with `PRD-`, return as-is.
/// If it looks like a slug (no extension), prepend `PRD-` and append `.md`.
pub fn normalise_prd_filename(name: &str) -> (r: String)
    ensures
        r@ == prd_filename(name@),
{
    let n = chars_of(name);
    let f = prd_filename_chars(&n);
    string_of(&f)
}

/// Whether `f` is one of the known PRD filenames.
pub open spec fn known(ks: Seq<String>, f: Seq<char>) -> bool {
    strings(ks).contains(f)
}

fn known_exec(ks: &Vec<String>, f: &Vec<char>) -> (r: bool)
    ensures
        r == known(ks@, f@),
{
    let mut i: usize = 0;
    while i < ks.len()
        invariant
            i <= ks@.len(),
            forall|j: int| 0 <= j < i ==> ks@[j]@ != f@,
        decreases ks@.len() - i,
    {
        let c = chars_of(ks[i].as_str());
        if chars_eq(&c, f) {
            assert(strings(ks@)[i as int] == f@);
            return true;
        }
        i = i + 1;
    }
    assert forall|j: int| 0 <= j < strings(ks@).len() implies strings(ks@)[j] != f@ by {
        assert(strings(ks@)[j] == ks@[j]@);
    }
    false
}

// ── results of edge extraction ───────────────────────────────────────────────

/// An extraction result as plain values: the edge, or `Err` for an
/// endpoint that names no known PRD.
pub open spec fn result_view(r: Result<Edge, ()>) -> Result<(Seq<char>, Seq<char>, EdgeKind, Seq<char>), ()> {
    match r {
        Ok(e) => Ok(edge_view(e)),
        Err(u) => Err(u),
    }
}

/// The edges among extraction results, in order.
pub open spec fn oks(rs: Seq<Result<(Seq<char>, Seq<char>, EdgeKind, Seq<char>), ()>>) -> Seq<
    (Seq<char>, Seq<char>, EdgeKind, Seq<char>),
> {
    rs.filter_map(
        |r: Result<(Seq<char>, Seq<char>, EdgeKind, Seq<char>), ()>|
            match r {
                Ok(e) => Some(e),
                Err(_) => None,
            },
    )
}

/// The number of unresolved endpoints among extraction results.
pub open spec fn errs(rs: Seq<Result<(Seq<char>, Seq<char>, EdgeKind, Seq<char>), ()>>) -> nat {
    rs.filter(|r: Result<(Seq<char>, Seq<char>, EdgeKind, Seq<char>), ()>| r is Err).len()
}

/// Separate extraction results into the edges and the count of unresolved
/// endpoints.
fn split_results(rs: &Vec<Result<Edge, ()>>) -> (r: (Vec<Edge>, usize))
    ensures
        r.0@.map_values(|e: Edge| edge_view(e)) == oks(rs@.map_values(|x: Result<Edge, ()>| result_view(x))),
        r.1 == errs(rs@.map_values(|x: Result<Edge, ()>| result_view(x))),
{
    let ghost rv = rs@.map_values(|x: Result<Edge, ()>| result_view(x));
    let ghost okf = |r: Result<(Seq<char>, Seq<char>, EdgeKind, Seq<char>), ()>|
        match r {
            Ok(e) => Some(e),
            Err(_) => None,
        };
    let ghost errp = |r: Result<(Seq<char>, Seq<char>, EdgeKind, Seq<char>), ()>| r is Err;
    let mut edges: Vec<Edge> = Vec::new();
    let mut unresolved: usize = 0;
    let mut i: usize = 0;
    while i < rs.len()
        invariant
            rv == rs@.map_values(|x: Result<Edge, ()>| result_view(x)),
            okf == (|r: Result<(Seq<char>, Seq<char>, EdgeKind, Seq<char>), ()>|
                match r {
                    Ok(e) => Some(e),
                    Err(_) => None,
                }),
            errp == (|r: Result<(Seq<char>, Seq<char>, EdgeKind, Seq<char>), ()>| r is Err),
            i <= rs@.len(),
            edges@.map_values(|e: Edge| edge_view(e)) == rv.take(i as int).filter_map(okf),
            unresolved == rv.take(i as int).filter(errp).len(),
            unresolved <= i,
        decreases rs@.len() - i,
    {
        proof {
            lemma_filter_map_step(rv, okf, i as int);
            assert(rv.take(i + 1) =~= rv.take(i as int).push(rv[i as int]));
            rv.take(i as int).lemma_filter_push(rv[i as int], errp);
        }
        match &rs[i] {
            Ok(e) => {
                let ghost before = edges@;
                edges.push(copy_edge(e));
                assert(edges@.map_values(|e: Edge| edge_view(e)) =~= before.map_values(
                    |e: Edge| edge_view(e),
                ).push(edge_view(*e)));
            },
            Err(_) => {
                unresolved = unresolved + 1;
            },
        }
        i = i + 1;
    }
    assert(rv.take(rs@.len() as int) =~= rv);
    (edges, unresolved)
}

// ── Frontmatter edges ────────────────────────────────────────────────────────

/// The PRD filename a `Depends on:` list item names, or `None` for an empty
/// item or `none`.  A trailing ` (...)` remark is dropped.
pub open spec fn dep_target(part: Seq<char>) -> Option<Seq<char>> {
    let dep = trim(part);
    if dep.len() == 0 || eq_ignore_ascii_case(dep, "none"@) {
        None
    } else {
        Some(
            prd_filename(
                match split_once(dep, " ("@) {
                    Some(p) => trim(p.0),
                    None => dep,
                },
            ),
        )
    }
}

/// The result a `Depends on:` list item of PRD `from` gives, with provenance `src`.
pub open spec fn dep_result(from: Seq<char>, part: Seq<char>, ks: Seq<String>, src: Seq<char>) -> Option<
    Result<(Seq<char>, Seq<char>, EdgeKind, Seq<char>), ()>,
> {
    match dep_target(part) {
        None => None,
        Some(f) => Some(
            if known(ks, f) {
                Ok((from, f, EdgeKind::Frontmatter, src))
            } else {
                Err(())
            },
        ),
    }
}

/// The results of one trimmed line `t`, line number `n`, of PRD `from`.
pub open spec fn line_deps(from: Seq<char>, t: Seq<char>, ks: Seq<String>, n: nat) -> Seq<
    Result<(Seq<char>, Seq<char>, EdgeKind, Seq<char>), ()>,
> {
    match field_value(t, "Depends on:"@) {
        None => Seq::empty(),
        Some(v) => split(v, ","@).filter_map(
            |p: Seq<char>| dep_result(from, p, ks, from + ":"@ + decimal(n)),
        ),
    }
}

/// The `Depends on:` scan over lines, skipping fenced code blocks: the
/// results so far and whether the scan is inside a fence.
pub open spec fn deps_scan(from: Seq<char>, ls: Seq<Seq<char>>, ks: Seq<String>) -> (
    Seq<Result<(Seq<char>, Seq<char>, EdgeKind, Seq<char>), ()>>,
    bool,
)
    decreases ls.len(),
{
    if ls.len() == 0 {
        (Seq::empty(), false)
    } else {
        let prev = deps_scan(from, ls.drop_last(), ks);
        let t = trim(ls.last());
        if starts_with(t, "```"@) {
            (prev.0, !prev.1)
        } else if prev.1 {
            prev
        } else {
            (prev.0 + line_deps(from, t, ks, ls.len()), prev.1)
        }
    }
}

/// The results of the `Depends on:` lines of PRD `from` with text `content`.
pub open spec fn depends_on_of(from: Seq<char>, content: Seq<char>, ks: Seq<String>) -> Seq<
    Result<(Seq<char>, Seq<char>, EdgeKind, Seq<char>), ()>,
> {
    deps_scan(from, lines(content), ks).0
}

fn dep_result_exec(from: &String, part: &Vec<char>, ks: &Vec<String>, src: &Vec<char>) -> (r: Option<Result<Edge, ()>>)
    ensures
        match r {
            Some(x) => dep_result(from@, part@, ks@, src@) == Some(result_view(x)),
            None => dep_result(from@, part@, ks@, src@) is None,
        },
{
    let dep = trim_chars(part);
    let none = chars_of("none");
    if dep.len() == 0 || eq_ignore_case(&dep, &none) {
        return None;
    }
    let name = match split_once_str(&dep, " (") {
        Some((head, _)) => trim_chars(&head),
        None => dep,
    };
    let f = prd_filename_chars(&name);
    if known_exec(ks, &f) {
        Some(Ok(Edge { from: from.clone(), to: string_of(&f), kind: EdgeKind::Frontmatter, source: string_of(src) }))
    } else {
        Some(Err(()))
    }
}

fn line_deps_exec(out: &mut Vec<Result<Edge, ()>>, from: &String, t: &Vec<char>, ks: &Vec<String>, n: usize)
    ensures
        final(out)@.map_values(|x: Result<Edge, ()>| result_view(x)) == old(out)@.map_values(
            |x: Result<Edge, ()>| result_view(x),
        ) + line_deps(from@, t@, ks@, n as nat),
{
    let ghost rv0 = old(out)@.map_values(|x: Result<Edge, ()>| result_view(x));
    match field_value_chars(t, "Depends on:") {
        None => {
            assert(out@.map_values(|x: Result<Edge, ()>| result_view(x)) =~= rv0 + Seq::empty());
        },
        Some(v) => {
            proof {
                reveal_strlit(",");
            }
            let parts = split_str(&v, ",");
            let mut src: Vec<char> = Vec::new();
            let fc = chars_of(from.as_str());
            push_chars(&mut src, &fc);
            push_str(&mut src, ":");
            let num = decimal_chars(n);
            push_chars(&mut src, &num);
            let ghost f = |p: Seq<char>| dep_result(from@, p, ks@, from@ + ":"@ + decimal(n as nat));
            assert(src@ =~= from@ + ":"@ + decimal(n as nat));
            let ghost ps = texts(parts@);
            let mut i: usize = 0;
            while i < parts.len()
                invariant
                    f == (|p: Seq<char>| dep_result(from@, p, ks@, from@ + ":"@ + decimal(n as nat))),
                    src@ == from@ + ":"@ + decimal(n as nat),
                    ps == texts(parts@),
                    i <= parts@.len(),
                    out@.map_values(|x: Result<Edge, ()>| result_view(x)) == rv0 + ps.take(i as int).filter_map(f),
                decreases parts@.len() - i,
            {
                proof {
                    lemma_filter_map_step(ps, f, i as int);
                }
                let ghost before = out@;
                match dep_result_exec(from, &parts[i], ks, &src) {
                    Some(x) => {
                        out.push(x);
                        assert(out@.map_values(|x: Result<Edge, ()>| result_view(x)) =~= before.map_values(
                            |x: Result<Edge, ()>| result_view(x),
                        ).push(result_view(x)));
                    },
                    None => {},
                }
                i = i + 1;
            }
            assert(ps.take(parts@.len() as int) =~= ps);
        },
    }
}

/// Extract `**Depends on:**` edges from a single PRD's content.
///
/// Returns `Ok(Edge)` for each resolved dependency and `Err(())` for each
/// name that is not a known PRD, in line order.
pub fn extract_depends_on_edges(filename: &str, content: &str, known_filenames: &Vec<String>) -> (r: Vec<Result<Edge, ()>>)
    ensures
        r@.map_values(|x: Result<Edge, ()>| result_view(x)) == depends_on_of(filename@, content@, known_filenames@),
{
    let from = String::from_str(filename);
    let cs = chars_of(content);
    let ls = lines_chars(&cs);
    let mut out: Vec<Result<Edge, ()>> = Vec::new();
    let mut code = false;
    let mut i: usize = 0;
    while i < ls.len()
        invariant
            from@ == filename@,
            i <= ls@.len(),
            texts(ls@) == lines(content@),
            (out@.map_values(|x: Result<Edge, ()>| result_view(x)), code) == deps_scan(
                filename@,
                texts(ls@).take(i as int),
                known_filenames@,
            ),
        decreases ls@.len() - i,
    {
        assert(texts(ls@).take(i + 1).drop_last() =~= texts(ls@).take(i as int));
        assert(texts(ls@).take(i + 1).last() == ls@[i as int]@);
        let t = trim_chars(&ls[i]);
        if starts_with_str(&t, "```") {
            code = !code;
        } else if !code {
            line_deps_exec(&mut out, &from, &t, known_filenames, i + 1);
        }
        i = i + 1;
    }
    assert(texts(ls@).take(ls@.len() as int) =~= texts(ls@));
    out
}

/// Whether a directory entry is read for `Depends on:` lines: a `PRD-` name
/// with an `md` extension in any case.
pub open spec fn is_edge_source(name: Seq<char>) -> bool {
    starts_with(name, "PRD-"@) && has_md_ext(name)
}

/// The frontmatter results of one directory entry.
pub open spec fn file_deps(f: DirFile, ks: Seq<String>) -> Seq<Result<(Seq<char>, Seq<char>, EdgeKind, Seq<char>), ()>> {
    if is_edge_source(f.name@) {
        match f.content {
            Some(c) => depends_on_of(f.name@, c@, ks),
            None => Seq::empty(),
        }
    } else {
        Seq::empty()
    }
}

/// The frontmatter results of a listing, entry by entry.
pub open spec fn files_deps(fs: Seq<DirFile>, ks: Seq<String>) -> Seq<
    Result<(Seq<char>, Seq<char>, EdgeKind, Seq<char>), ()>,
>
    decreases fs.len(),
{
    if fs.len() == 0 {
        Seq::empty()
    } else {
        files_deps(fs.drop_last(), ks) + file_deps(fs.last(), ks)
    }
}

/// The frontmatter results of the autobuilder directory `dir` with listing
/// `fs`: none when the directory is a PRD archive.
pub open spec fn frontmatter_results(dir: Seq<char>, fs: Seq<DirFile>, ks: Seq<String>) -> Seq<
    Result<(Seq<char>, Seq<char>, EdgeKind, Seq<char>), ()>,
> {
    if archived_dir(dir) {
        Seq::empty()
    } else {
        files_deps(fs, ks)
    }
}

fn append_results(out: &mut Vec<Result<Edge, ()>>, more: Vec<Result<Edge, ()>>)
    ensures
        final(out)@.map_values(|x: Result<Edge, ()>| result_view(x)) == old(out)@.map_values(
            |x: Result<Edge, ()>| result_view(x),
        ) + more@.map_values(|x: Result<Edge, ()>| result_view(x)),
{
    let mut more = more;
    let ghost m = more@;
    out.append(&mut more);
    assert(out@.map_values(|x: Result<Edge, ()>| result_view(x)) =~= old(out)@.map_values(
        |x: Result<Edge, ()>| result_view(x),
    ) + m.map_values(|x: Result<Edge, ()>| result_view(x)));
}

fn frontmatter_results_exec(autobuilder_dir: &str, files: &Vec<DirFile>, known_filenames: &Vec<String>) -> (r: Vec<
    Result<Edge, ()>,
>)
    ensures
        r@.map_values(|x: Result<Edge, ()>| result_view(x)) == frontmatter_results(
            autobuilder_dir@,
            files@,
            known_filenames@,
        ),
{
    let mut out: Vec<Result<Edge, ()>> = Vec::new();
    let dir = chars_of(autobuilder_dir);
    let archive = chars_of("PRDs-archive");
    match file_name_chars(&dir) {
        Some(f) => {
            if chars_eq(&f, &archive) {
                return out;
            }
        },
        None => {},
    }
    let mut i: usize = 0;
    while i < files.len()
        invariant
            !archived_dir(autobuilder_dir@),
            i <= files@.len(),
            out@.map_values(|x: Result<Edge, ()>| result_view(x)) == files_deps(
                files@.take(i as int),
                known_filenames@,
            ),
        decreases files@.len() - i,
    {
        let f = &files[i];
        assert(files@.take(i + 1).drop_last() =~= files@.take(i as int));
        assert(files@.take(i + 1).last() == *f);
        let name = chars_of(f.name.as_str());
        if starts_with_str(&name, "PRD-") && has_md_ext_exec(&name) {
            match &f.content {
                Some(c) => {
                    let more = extract_depends_on_edges(f.name.as_str(), c.as_str(), known_filenames);
                    append_results(&mut out, more);
                },
                None => {
                    assert(out@.map_values(|x: Result<Edge, ()>| result_view(x)) =~= files_deps(
                        files@.take(i + 1),
                        known_filenames@,
                    ));
                },
            }
        } else {
            assert(out@.map_values(|x: Result<Edge, ()>| result_view(x)) =~= files_deps(
                files@.take(i + 1),
                known_filenames@,
            ));
        }
        i = i + 1;
    }
    assert(files@.take(files@.len() as int) =~= files@);
    out
}

/// Parse frontmatter `**Depends on:**` edges from the PRD files of the
/// autobuilder directory, given its listing.
///
/// Each PRD file is scanned for a `**Depends on:** <list>` line.  The list
/// may be comma-separated and may contain `none` (which produces no edges).
/// Each non-`none` item is resolved against `known_filenames`; unresolvable
/// items are counted.  Lines inside fenced code blocks are skipped.
pub fn parse_frontmatter_edges(autobuilder_dir: &str, files: &Vec<DirFile>, known_filenames: &Vec<String>) -> (r: (
    Vec<Edge>,
    usize,
))
    ensures
        r.0@.map_values(|e: Edge| edge_view(e)) == oks(
            frontmatter_results(autobuilder_dir@, files@, known_filenames@),
        ),
        r.1 == errs(frontmatter_results(autobuilder_dir@, files@, known_filenames@)),
{
    let rs = frontmatter_results_exec(autobuilder_dir, files, known_filenames);
    split_results(&rs)
}

// ── Gossip edges ─────────────────────────────────────────────────────────────

/// Whether a line holds an arrow-like token (gossip convention).
pub open spec fn has_arrow(line: Seq<char>) -> bool {
    contains(line, "→"@) || contains(line, "->"@) || contains(line, "depends on"@) || contains(
        line,
        "after"@,
    )
}

/// Check whether a line contains an arrow-like token (gossip convention).
fn has_arrow_token(line: &Vec<char>) -> (r: bool)
    ensures
        r == has_arrow(line@),
{
    contains_str(line, "→") || contains_str(line, "->") || contains_str(line, "depends on")
        || contains_str(line, "after")
}

/// `s` without leading characters that satisfy `p`.
pub open spec fn trim_start_by(s: Seq<char>, p: spec_fn(char) -> bool) -> Seq<char>
    decreases s.len(),
{
    if s.len() > 0 && p(s[0]) {
        trim_start_by(s.drop_first(), p)
    } else {
        s
    }
}

/// `s` without trailing characters that satisfy `p`.
pub open spec fn trim_end_by(s: Seq<char>, p: spec_fn(char) -> bool) -> Seq<char>
    decreases s.len(),
{
    if s.len() > 0 && p(s.last()) {
        trim_end_by(s.drop_last(), p)
    } else {
        s
    }
}

/// `s` without leading and trailing characters that satisfy `p`
/// (what `str::trim_matches` returns for a character predicate).
pub open spec fn trim_by(s: Seq<char>, p: spec_fn(char) -> bool) -> Seq<char> {
    trim_end_by(trim_start_by(s, p), p)
}

/// A brace, as used around gossip groups like `{ foo, bar }`.
pub open spec fn is_brace(c: char) -> bool {
    c == '{' || c == '}'
}

/// A character that is not part of a slug: neither alphanumeric nor `-`.
pub open spec fn is_slug_noise(c: char) -> bool {
    !spec_is_alphanumeric(c) && c != '-'
}

fn trim_braces(s: &Vec<char>) -> (r: Vec<char>)
    ensures
        r@ == trim_by(s@, |c: char| is_brace(c)),
{
    let ghost p = |c: char| is_brace(c);
    let mut i: usize = 0;
    assert(s@.skip(0) =~= s@);
    while i < s.len() && (s[i] == '{' || s[i] == '}')
        invariant
            p == (|c: char| is_brace(c)),
            i <= s@.len(),
            trim_start_by(s@.skip(i as int), p) == trim_start_by(s@, p),
        decreases s@.len() - i,
    {
        assert(s@.skip(i as int).drop_first() =~= s@.skip(i + 1));
        i = i + 1;
    }
    let a = subvec(s, i, s.len());
    let mut j: usize = a.len();
    assert(a@.take(j as int) =~= a@);
    while j > 0 && (a[j - 1] == '{' || a[j - 1] == '}')
        invariant
            p == (|c: char| is_brace(c)),
            j <= a@.len(),
            trim_end_by(a@.take(j as int), p) == trim_end_by(a@, p),
        decreases j,
    {
        assert(a@.take(j as int).drop_last() =~= a@.take(j - 1));
        j = j - 1;
    }
    subvec(&a, 0, j)
}

fn trim_noise(s: &Vec<char>) -> (r: Vec<char>)
    ensures
        r@ == trim_by(s@, |c: char| is_slug_noise(c)),
{
    let ghost p = |c: char| is_slug_noise(c);
    let mut i: usize = 0;
    assert(s@.skip(0) =~= s@);
    while i < s.len() && !is_alphanumeric(s[i]) && s[i] != '-'
        invariant
            p == (|c: char| is_slug_noise(c)),
            i <= s@.len(),
            trim_start_by(s@.skip(i as int), p) == trim_start_by(s@, p),
        decreases s@.len() - i,
    {
        assert(s@.skip(i as int).drop_first() =~= s@.skip(i + 1));
        i = i + 1;
    }
    let a = subvec(s, i, s.len());
    let mut j: usize = a.len();
    assert(a@.take(j as int) =~= a@);
    while j > 0 && !is_alphanumeric(a[j - 1]) && a[j - 1] != '-'
        invariant
            p == (|c: char| is_slug_noise(c)),
            j <= a@.len(),
            trim_end_by(a@.take(j as int), p) == trim_end_by(a@, p),
        decreases j,
    {
        assert(a@.take(j as int).drop_last() =~= a@.take(j - 1));
        j = j - 1;
    }
    subvec(&a, 0, j)
}

/// Whether every character of `t` is an ASCII capital or `-`.
pub open spec fn all_upper_or_dash(t: Seq<char>) -> bool {
    forall|i: int| 0 <= i < t.len() ==> ('A' <= #[trigger] t[i] && t[i] <= 'Z') || t[i] == '-'
}

/// Whether `t` holds an ASCII lower-case letter.
pub open spec fn has_lower(t: Seq<char>) -> bool {
    exists|i: int| 0 <= i < t.len() && 'a' <= #[trigger] t[i] && t[i] <= 'z'
}

/// The slug a whitespace-separated token gives: the token without
/// surrounding noise, lower-cased, unless it is empty, all capitals (a noise
/// word such as `FIRST`), holds `.` or `/`, or has no lower-case letter.
pub open spec fn slug_token(token: Seq<char>) -> Option<Seq<char>> {
    let tok = trim(trim_by(token, |c: char| is_slug_noise(c)));
    if tok.len() == 0 || all_upper_or_dash(tok) || tok.contains('.') || tok.contains('/')
        || !has_lower(tok) {
        None
    } else {
        Some(spec_to_lowercase(tok))
    }
}

/// The first slug among tokens.
pub open spec fn first_slug(ws: Seq<Seq<char>>) -> Option<Seq<char>>
    decreases ws.len(),
{
    if ws.len() == 0 {
        None
    } else {
        match slug_token(ws[0]) {
            Some(s) => Some(s),
            None => first_slug(ws.drop_first()),
        }
    }
}

/// The text of `raw` before its first `(`.
pub open spec fn before_paren(raw: Seq<char>) -> Seq<char> {
    match find(raw, "("@) {
        Some(i) => raw.take(i),
        None => raw,
    }
}

/// The slug named by a noisy gossip fragment: parenthetical remarks and
/// surrounding braces dropped, the first slug-like token.
pub open spec fn slug_of(raw: Seq<char>) -> Option<Seq<char>> {
    let cleaned = trim(trim_by(trim(before_paren(raw)), |c: char| is_brace(c)));
    first_slug(words(cleaned))
}

fn has_char(s: &Vec<char>, c: char) -> (r: bool)
    ensures
        r == s@.contains(c),
{
    let mut i: usize = 0;
    while i < s.len()
        invariant
            i <= s@.len(),
            forall|j: int| 0 <= j < i ==> s@[j] != c,
        decreases s@.len() - i,
    {
        if s[i] == c {
            return true;
        }
        i = i + 1;
    }
    false
}

fn slug_token_exec(token: &Vec<char>) -> (r: Option<Vec<char>>)
    ensures
        match r {
            Some(v) => slug_token(token@) == Some(v@),
            None => slug_token(token@) is None,
        },
{
    let a = trim_noise(token);
    let tok = trim_chars(&a);
    if tok.len() == 0 {
        return None;
    }
    let mut all_upper = true;
    let mut lower = false;
    let mut i: usize = 0;
    while i < tok.len()
        invariant
            i <= tok@.len(),
            all_upper == forall|j: int|
                0 <= j < i ==> ('A' <= #[trigger] tok@[j] && tok@[j] <= 'Z') || tok@[j] == '-',
            lower == exists|j: int| 0 <= j < i && 'a' <= #[trigger] tok@[j] && tok@[j] <= 'z',
        decreases tok@.len() - i,
    {
        let c = tok[i];
        if !(('A' <= c && c <= 'Z') || c == '-') {
            all_upper = false;
        }
        if 'a' <= c && c <= 'z' {
            lower = true;
        }
        i = i + 1;
    }
    if all_upper || has_char(&tok, '.') || has_char(&tok, '/') || !lower {
        return None;
    }
    let ts = string_of(&tok);
    let low = to_lowercase(ts.as_str());
    Some(chars_of(low.as_str()))
}

/// Extract the first slug-like token from a noisy gossip fragment.
///
/// A slug is a kebab-case word, possibly with digits.  Parentheticals,
/// commentary keywords (FIRST, INDEPENDENT, etc.), and whitespace are stripped.
fn extract_slug_from_token(raw: &Vec<char>) -> (r: Option<Vec<char>>)
    ensures
        match r {
            Some(v) => slug_of(raw@) == Some(v@),
            None => slug_of(raw@) is None,
        },
{
    proof {
        lemma_find_from(raw@, "("@, 0);
    }
    let head = match find_str(raw, "(") {
        Some(i) => subvec(raw, 0, i),
        None => copy_chars(raw),
    };
    assert(head@ =~= before_paren(raw@));
    let h = trim_chars(&head);
    let b = trim_braces(&h);
    let cleaned = trim_chars(&b);
    let ws = words_chars(&cleaned);
    let mut k: usize = 0;
    assert(texts(ws@).skip(0) =~= texts(ws@));
    while k < ws.len()
        invariant
            k <= ws@.len(),
            texts(ws@) == words(cleaned@),
            first_slug(texts(ws@).skip(k as int)) == slug_of(raw@),
        decreases ws@.len() - k,
    {
        assert(texts(ws@).skip(k as int)[0] == ws@[k as int]@);
        assert(texts(ws@).skip(k as int).drop_first() =~= texts(ws@).skip(k + 1));
        match slug_token_exec(&ws[k]) {
            Some(v) => {
                return Some(v);
            },
            None => {},
        }
        k = k + 1;
    }
    None
}

/// A block as plain values: 1-based line numbers with trimmed line texts.
pub open spec fn block_view(b: Seq<(usize, Vec<char>)>) -> Seq<(int, Seq<char>)> {
    b.map_values(|x: (usize, Vec<char>)| (x.0 as int, x.1@))
}

/// The continuation lines of an `Order:` block from line index `j` on:
/// trimmed, each with its 1-based number, while they hold an arrow token.
/// The block ends at a blank line, a `##` or `//` marker, a new `Order:`
/// line, or a line without an arrow token.
pub open spec fn cont_lines(ls: Seq<Seq<char>>, j: int) -> Seq<(int, Seq<char>)>
    decreases ls.len() - j,
{
    if j < 0 || j >= ls.len() {
        Seq::empty()
    } else {
        let c = trim(ls[j]);
        if c.len() == 0 || starts_with(c, "##"@) || starts_with(c, "//"@) || starts_with(
            c,
            "Order:"@,
        ) || !has_arrow(c) {
            Seq::empty()
        } else {
            seq![(j + 1, c)] + cont_lines(ls, j + 1)
        }
    }
}

/// The `Order:` block starting at line index `i`: the text after `Order:` on
/// that line, when there is any, then its continuation lines.
pub open spec fn order_block(ls: Seq<Seq<char>>, i: int) -> Seq<(int, Seq<char>)> {
    let inline = trim(trim(ls[i]).skip(6));
    (if inline.len() > 0 {
        seq![(i + 1, inline)]
    } else {
        Seq::empty()
    }) + cont_lines(ls, i + 1)
}

/// A gossip line with every `→`, `->` and `||` turned into an `ARROW` separator.
pub open spec fn arrows_normalised(line: Seq<char>) -> Seq<char> {
    replace(replace(replace(line, "→"@, " ARROW "@), "->"@, " ARROW "@), "||"@, " ARROW "@)
}

/// The result of one arrow pair between the slugs `pre` (runs first) and
/// `dep` (runs after) on line `n`: the edge from `PRD-<dep>.md` to
/// `PRD-<pre>.md`; unresolved when either is not a known PRD; nothing when
/// the frontmatter already declares that pair.
pub open spec fn pair_result(
    pre: Seq<char>,
    dep: Seq<char>,
    ks: Seq<String>,
    pairs: Seq<(Seq<char>, Seq<char>)>,
    n: int,
) -> Option<Result<((Seq<char>, Seq<char>), int), ()>> {
    let from = prd_filename(dep);
    let to = prd_filename(pre);
    if !known(ks, from) || !known(ks, to) {
        Some(Err(()))
    } else if pairs.contains((from, to)) {
        None
    } else {
        Some(Ok(((from, to), n)))
    }
}

/// The results of the arrow pairs `parts[k] → parts[k + 1]`, … of a line
/// numbered `n`.  `A → B` means B runs after A, so the edge is from B (the
/// dependent) to A (the prerequisite).  A pair with an unknown endpoint is
/// unresolved; a pair the frontmatter already declares gives nothing.
pub open spec fn window_results(
    parts: Seq<Seq<char>>,
    k: int,
    ks: Seq<String>,
    pairs: Seq<(Seq<char>, Seq<char>)>,
    n: int,
) -> Seq<Result<((Seq<char>, Seq<char>), int), ()>>
    decreases parts.len() - k,
{
    if k < 0 || k + 1 >= parts.len() {
        Seq::empty()
    } else {
        let here: Seq<Result<((Seq<char>, Seq<char>), int), ()>> = match (
            slug_of(parts[k]),
            slug_of(parts[k + 1]),
        ) {
            (Some(pre), Some(dep)) => match pair_result(pre, dep, ks, pairs, n) {
                Some(r) => seq![r],
                None => Seq::empty(),
            },
            _ => Seq::empty(),
        };
        here + window_results(parts, k + 1, ks, pairs, n)
    }
}

/// The results of one block line.
pub open spec fn line_results(
    entry: (int, Seq<char>),
    ks: Seq<String>,
    pairs: Seq<(Seq<char>, Seq<char>)>,
) -> Seq<Result<((Seq<char>, Seq<char>), int), ()>> {
    window_results(split(arrows_normalised(entry.1), "ARROW"@), 0, ks, pairs, entry.0)
}

/// The results of a block, line by line.
pub open spec fn block_results(
    b: Seq<(int, Seq<char>)>,
    ks: Seq<String>,
    pairs: Seq<(Seq<char>, Seq<char>)>,
) -> Seq<Result<((Seq<char>, Seq<char>), int), ()>>
    decreases b.len(),
{
    if b.len() == 0 {
        Seq::empty()
    } else {
        block_results(b.drop_last(), ks, pairs) + line_results(b.last(), ks, pairs)
    }
}

/// The results of the `Order:` blocks starting in the first `m` lines.
pub open spec fn gossip_scan(
    ls: Seq<Seq<char>>,
    m: int,
    ks: Seq<String>,
    pairs: Seq<(Seq<char>, Seq<char>)>,
) -> Seq<Result<((Seq<char>, Seq<char>), int), ()>>
    decreases m,
{
    if m <= 0 || m > ls.len() {
        Seq::empty()
    } else {
        gossip_scan(ls, m - 1, ks, pairs) + if starts_with(trim(ls[m - 1]), "Order:"@) {
            block_results(order_block(ls, m - 1), ks, pairs)
        } else {
            Seq::empty()
        }
    }
}

/// The file part of a gossip edge's provenance: the gossip file's name, or
/// `gossip.md` when the path has none.
pub open spec fn gossip_source(path: Seq<char>) -> Seq<char> {
    match file_name(path) {
        Some(f) => f,
        None => "gossip.md"@,
    }
}

/// A block result as an edge result, with provenance `file:line`.
pub open spec fn gossip_edge(
    r: Result<((Seq<char>, Seq<char>), int), ()>,
    file: Seq<char>,
) -> Result<(Seq<char>, Seq<char>, EdgeKind, Seq<char>), ()> {
    match r {
        Ok(x) => Ok((x.0.0, x.0.1, EdgeKind::Gossip, file + ":"@ + decimal(x.1 as nat))),
        Err(u) => Err(u),
    }
}

/// The results of the gossip file at `path` with text `content`.
pub open spec fn gossip_results(
    path: Seq<char>,
    content: Seq<char>,
    ks: Seq<String>,
    pairs: Seq<(Seq<char>, Seq<char>)>,
) -> Seq<Result<(Seq<char>, Seq<char>, EdgeKind, Seq<char>), ()>> {
    let ls = lines(content);
    gossip_scan(ls, ls.len() as int, ks, pairs).map_values(
        |r: Result<((Seq<char>, Seq<char>), int), ()>| gossip_edge(r, gossip_source(path)),
    )
}

/// The `(from, to)` pairs as plain values.
pub open spec fn pair_views(ps: Seq<(String, String)>) -> Seq<(Seq<char>, Seq<char>)> {
    ps.map_values(|p: (String, String)| (p.0@, p.1@))
}

fn cont_lines_exec(ls: &Vec<Vec<char>>, j0: usize, out: &mut Vec<(usize, Vec<char>)>)
    requires
        j0 <= ls@.len(),
    ensures
        block_view(final(out)@) == block_view(old(out)@) + cont_lines(texts(ls@), j0 as int),
{
    proof {
        reveal_strlit("Order:");
    }
    let mut j = j0;
    while j < ls.len()
        invariant
            j0 <= j <= ls@.len(),
            block_view(out@) + cont_lines(texts(ls@), j as int) == block_view(old(out)@)
                + cont_lines(texts(ls@), j0 as int),
        decreases ls@.len() - j,
    {
        let c = trim_chars(&ls[j]);
        assert(texts(ls@)[j as int] == ls@[j as int]@);
        if c.len() == 0 || starts_with_str(&c, "##") || starts_with_str(&c, "//") || starts_with_str(
            &c,
            "Order:",
        ) || !has_arrow_token(&c) {
            assert(block_view(out@) + cont_lines(texts(ls@), j as int) =~= block_view(out@));
            return;
        }
        let ghost before = out@;
        let ghost cv = c@;
        out.push((j + 1, c));
        assert(block_view(out@) =~= block_view(before).push(((j + 1) as int, cv)));
        assert(block_view(out@) + cont_lines(texts(ls@), j + 1) =~= block_view(before) + cont_lines(
            texts(ls@),
            j as int,
        ));
        j = j + 1;
    }
    assert(block_view(out@) + cont_lines(texts(ls@), j as int) =~= block_view(out@));
}

/// An `Order:` block result as plain values.
pub open spec fn order_view(r: Result<((String, String), usize), ()>) -> Result<((Seq<char>, Seq<char>), int), ()> {
    match r {
        Ok(x) => Ok(((x.0.0@, x.0.1@), x.1 as int)),
        Err(u) => Err(u),
    }
}

fn pairs_contain(pairs: &Vec<(String, String)>, from: &Vec<char>, to: &Vec<char>) -> (r: bool)
    ensures
        r == pair_views(pairs@).contains((from@, to@)),
{
    let mut i: usize = 0;
    while i < pairs.len()
        invariant
            i <= pairs@.len(),
            forall|j: int| 0 <= j < i ==> (pairs@[j].0@, pairs@[j].1@) != (from@, to@),
        decreases pairs@.len() - i,
    {
        let a = chars_of(pairs[i].0.as_str());
        let b = chars_of(pairs[i].1.as_str());
        if chars_eq(&a, from) && chars_eq(&b, to) {
            assert(pair_views(pairs@)[i as int] == (from@, to@));
            return true;
        }
        i = i + 1;
    }
    assert forall|j: int| 0 <= j < pair_views(pairs@).len() implies pair_views(pairs@)[j] != (
    from@, to@) by {
        assert(pair_views(pairs@)[j] == (pairs@[j].0@, pairs@[j].1@));
    }
    false
}

/// The result of one arrow pair between the lower-cased slugs `prereq_slug`
/// (runs first) and `dependent_slug` (runs after) on line `line_no`.
pub fn order_pair_result(
    prereq_slug: &str,
    dependent_slug: &str,
    known_filenames: &Vec<String>,
    frontmatter_pairs: &Vec<(String, String)>,
    line_no: usize,
) -> (r: Option<Result<((String, String), usize), ()>>)
    ensures
        match r {
            Some(x) => pair_result(
                prereq_slug@,
                dependent_slug@,
                known_filenames@,
                pair_views(frontmatter_pairs@),
                line_no as int,
            ) == Some(order_view(x)),
            None => pair_result(
                prereq_slug@,
                dependent_slug@,
                known_filenames@,
                pair_views(frontmatter_pairs@),
                line_no as int,
            ) is None,
        },
{
    let pre = chars_of(prereq_slug);
    let dep = chars_of(dependent_slug);
    let from = prd_filename_chars(&dep);
    let to = prd_filename_chars(&pre);
    if !known_exec(known_filenames, &from) || !known_exec(known_filenames, &to) {
        Some(Err(()))
    } else if pairs_contain(frontmatter_pairs, &from, &to) {
        None
    } else {
        Some(Ok(((string_of(&from), string_of(&to)), line_no)))
    }
}

fn window_results_exec(
    parts: &Vec<Vec<char>>,
    known_filenames: &Vec<String>,
    frontmatter_pairs: &Vec<(String, String)>,
    n: usize,
    out: &mut Vec<Result<((String, String), usize), ()>>,
)
    ensures
        final(out)@.map_values(|r: Result<((String, String), usize), ()>| order_view(r)) == old(
            out,
        )@.map_values(|r: Result<((String, String), usize), ()>| order_view(r)) + window_results(
            texts(parts@),
            0,
            known_filenames@,
            pair_views(frontmatter_pairs@),
            n as int,
        ),
{
    let ghost ps = texts(parts@);
    let ghost ks = known_filenames@;
    let ghost prs = pair_views(frontmatter_pairs@);
    let ghost base = old(out)@.map_values(|r: Result<((String, String), usize), ()>| order_view(r));
    let mut k: usize = 0;
    while k < parts.len() && parts.len() - k > 1
        invariant
            ps == texts(parts@),
            ks == known_filenames@,
            prs == pair_views(frontmatter_pairs@),
            k <= parts@.len(),
            out@.map_values(|r: Result<((String, String), usize), ()>| order_view(r)) + window_results(
                ps,
                k as int,
                ks,
                prs,
                n as int,
            ) == base + window_results(ps, 0, ks, prs, n as int),
        decreases parts@.len() - k,
    {
        assert(ps[k as int] == parts@[k as int]@);
        assert(ps[k + 1] == parts@[k + 1]@);
        let left = extract_slug_from_token(&parts[k]);
        let right = extract_slug_from_token(&parts[k + 1]);
        let ghost before = out@.map_values(|r: Result<((String, String), usize), ()>| order_view(r));
        match (left, right) {
            (Some(pre), Some(dep)) => {
                let pre_s = string_of(&pre);
                let dep_s = string_of(&dep);
                match order_pair_result(pre_s.as_str(), dep_s.as_str(), known_filenames, frontmatter_pairs, n) {
                    Some(x) => {
                        out.push(x);
                        assert(out@.map_values(|r: Result<((String, String), usize), ()>| order_view(r))
                            =~= before.push(order_view(x)));
                    },
                    None => {},
                }
            },
            _ => {},
        }
        assert(out@.map_values(|r: Result<((String, String), usize), ()>| order_view(r))
            + window_results(ps, k + 1, ks, prs, n as int) =~= before + window_results(
            ps,
            k as int,
            ks,
            prs,
            n as int,
        ));
        k = k + 1;
    }
    assert(window_results(ps, k as int, ks, prs, n as int) =~= Seq::<
        Result<((Seq<char>, Seq<char>), int), ()>,
    >::empty());
    assert(out@.map_values(|r: Result<((String, String), usize), ()>| order_view(r)) =~= base
        + window_results(ps, 0, ks, prs, n as int));
}

/// Extract the `(from, to)` pairs, with their 1-based line numbers, that an
/// `Order:` block's lines declare; `Err(())` for each pair with an endpoint
/// that is not a known PRD.
fn extract_edges_from_order_block(
    block_lines: &Vec<(usize, Vec<char>)>,
    known_filenames: &Vec<String>,
    frontmatter_pairs: &Vec<(String, String)>,
) -> (r: Vec<Result<((String, String), usize), ()>>)
    ensures
        r@.map_values(|r: Result<((String, String), usize), ()>| order_view(r)) == block_results(
            block_view(block_lines@),
            known_filenames@,
            pair_views(frontmatter_pairs@),
        ),
{
    proof {
        reveal_strlit("→");
        reveal_strlit("->");
        reveal_strlit("||");
        reveal_strlit("ARROW");
    }
    let ghost ks = known_filenames@;
    let ghost prs = pair_views(frontmatter_pairs@);
    let ghost bv = block_view(block_lines@);
    let mut out: Vec<Result<((String, String), usize), ()>> = Vec::new();
    let mut i: usize = 0;
    while i < block_lines.len()
        invariant
            ks == known_filenames@,
            prs == pair_views(frontmatter_pairs@),
            bv == block_view(block_lines@),
            i <= block_lines@.len(),
            out@.map_values(|r: Result<((String, String), usize), ()>| order_view(r)) == block_results(
                bv.take(i as int),
                ks,
                prs,
            ),
        decreases block_lines@.len() - i,
    {
        assert(bv.take(i + 1).drop_last() =~= bv.take(i as int));
        assert(bv.take(i + 1).last() == bv[i as int]);
        proof {
            reveal_strlit("→");
            reveal_strlit("->");
            reveal_strlit("||");
            reveal_strlit("ARROW");
        }
        let (line_no, line) = (block_lines[i].0, &block_lines[i].1);
        let a = replace_str(line, "→", " ARROW ");
        let b = replace_str(&a, "->", " ARROW ");
        let normalised = replace_str(&b, "||", " ARROW ");
        let parts = split_str(&normalised, "ARROW");
        window_results_exec(&parts, known_filenames, frontmatter_pairs, line_no, &mut out);
        i = i + 1;
    }
    assert(bv.take(block_lines@.len() as int) =~= bv);
    out
}

fn push_gossip_edges(
    out: &mut Vec<Result<Edge, ()>>,
    rs: Vec<Result<((String, String), usize), ()>>,
    file: &Vec<char>,
)
    ensures
        final(out)@.map_values(|x: Result<Edge, ()>| result_view(x)) == old(out)@.map_values(
            |x: Result<Edge, ()>| result_view(x),
        ) + rs@.map_values(|r: Result<((String, String), usize), ()>| order_view(r)).map_values(
            |r: Result<((Seq<char>, Seq<char>), int), ()>| gossip_edge(r, file@),
        ),
{
    let ghost base = old(out)@.map_values(|x: Result<Edge, ()>| result_view(x));
    let ghost g = rs@.map_values(|r: Result<((String, String), usize), ()>| order_view(r)).map_values(
        |r: Result<((Seq<char>, Seq<char>), int), ()>| gossip_edge(r, file@),
    );
    let mut i: usize = 0;
    while i < rs.len()
        invariant
            base == old(out)@.map_values(|x: Result<Edge, ()>| result_view(x)),
            g == rs@.map_values(|r: Result<((String, String), usize), ()>| order_view(r)).map_values(
                |r: Result<((Seq<char>, Seq<char>), int), ()>| gossip_edge(r, file@),
            ),
            i <= rs@.len(),
            out@.map_values(|x: Result<Edge, ()>| result_view(x)) == base + g.take(i as int),
        decreases rs@.len() - i,
    {
        let ghost before = out@;
        let x: Result<Edge, ()> = match &rs[i] {
            Ok(((from, to), n)) => {
                let mut src: Vec<char> = Vec::new();
                push_chars(&mut src, file);
                push_str(&mut src, ":");
                let num = decimal_chars(*n);
                push_chars(&mut src, &num);
                Ok(Edge { from: from.clone(), to: to.clone(), kind: EdgeKind::Gossip, source: string_of(&src) })
            },
            Err(_) => Err(()),
        };
        assert(result_view(x) == g[i as int]);
        out.push(x);
        assert(out@.map_values(|x: Result<Edge, ()>| result_view(x)) =~= before.map_values(
            |x: Result<Edge, ()>| result_view(x),
        ).push(result_view(x)));
        assert(g.take(i + 1) =~= g.take(i as int).push(g[i as int]));
        i = i + 1;
    }
    assert(g.take(rs@.len() as int) =~= g);
}

fn gossip_results_exec(
    gossip_path: &str,
    content: &str,
    known_filenames: &Vec<String>,
    frontmatter_pairs: &Vec<(String, String)>,
) -> (r: Vec<Result<Edge, ()>>)
    ensures
        r@.map_values(|x: Result<Edge, ()>| result_view(x)) == gossip_results(
            gossip_path@,
            content@,
            known_filenames@,
            pair_views(frontmatter_pairs@),
        ),
{
    proof {
        reveal_strlit("Order:");
    }
    let ghost ks = known_filenames@;
    let ghost prs = pair_views(frontmatter_pairs@);
    let pv = chars_of(gossip_path);
    let file = match file_name_chars(&pv) {
        Some(f) => f,
        None => chars_of("gossip.md"),
    };
    let ghost gf = |r: Result<((Seq<char>, Seq<char>), int), ()>| gossip_edge(r, file@);
    let cs = chars_of(content);
    let ls = lines_chars(&cs);
    let ghost lsv = texts(ls@);
    let mut out: Vec<Result<Edge, ()>> = Vec::new();
    let mut i: usize = 0;
    while i < ls.len()
        invariant
            ks == known_filenames@,
            prs == pair_views(frontmatter_pairs@),
            file@ == gossip_source(gossip_path@),
            gf == (|r: Result<((Seq<char>, Seq<char>), int), ()>| gossip_edge(r, file@)),
            lsv == texts(ls@),
            lsv == lines(content@),
            i <= ls@.len(),
            out@.map_values(|x: Result<Edge, ()>| result_view(x)) == gossip_scan(lsv, i as int, ks, prs).map_values(gf),
        decreases ls@.len() - i,
    {
        proof {
            reveal_strlit("Order:");
        }
        assert(lsv[i as int] == ls@[i as int]@);
        let line = trim_chars(&ls[i]);
        let ghost before = out@.map_values(|x: Result<Edge, ()>| result_view(x));
        if starts_with_str(&line, "Order:") {
            let mut block: Vec<(usize, Vec<char>)> = Vec::new();
            let rest = subvec(&line, 6, line.len());
            let inline = trim_chars(&rest);
            assert(rest@ =~= trim(lsv[i as int]).skip(6));
            if inline.len() > 0 {
                block.push((i + 1, inline));
            }
            assert(block_view(block@) =~= if trim(trim(lsv[i as int]).skip(6)).len() > 0 {
                seq![((i + 1) as int, trim(trim(lsv[i as int]).skip(6)))]
            } else {
                Seq::empty()
            });
            cont_lines_exec(&ls, i + 1, &mut block);
            assert(block_view(block@) == order_block(lsv, i as int));
            let rs = extract_edges_from_order_block(&block, known_filenames, frontmatter_pairs);
            push_gossip_edges(&mut out, rs, &file);
            assert(gossip_scan(lsv, i + 1, ks, prs) == gossip_scan(lsv, i as int, ks, prs)
                + block_results(order_block(lsv, i as int), ks, prs));
            assert(gossip_scan(lsv, i + 1, ks, prs).map_values(gf) =~= gossip_scan(
                lsv,
                i as int,
                ks,
                prs,
            ).map_values(gf) + block_results(order_block(lsv, i as int), ks, prs).map_values(gf));
        } else {
            assert(gossip_scan(lsv, i + 1, ks, prs) =~= gossip_scan(lsv, i as int, ks, prs));
        }
        i = i + 1;
    }
    out
}

/// Parse gossip `Order:` edges from the text of the gossip file at `gossip_path`.
///
/// Scans for `Order:` lines and the continuation lines after them that
/// contain `→`, `->`, or `depends on`.  Extracts named PRD slugs (slugs are
/// turned into `PRD-<slug>.md` filenames) and resolves them against
/// `known_filenames`.  Unresolvable names are counted; pairs the frontmatter
/// already declares are dropped.
pub fn parse_gossip_edges(
    gossip_path: &str,
    content: &str,
    known_filenames: &Vec<String>,
    frontmatter_pairs: &Vec<(String, String)>,
) -> (r: (Vec<Edge>, usize))
    ensures
        r.0@.map_values(|e: Edge| edge_view(e)) == oks(
            gossip_results(gossip_path@, content@, known_filenames@, pair_views(frontmatter_pairs@)),
        ),
        r.1 == errs(
            gossip_results(gossip_path@, content@, known_filenames@, pair_views(frontmatter_pairs@)),
        ),
{
    let rs = gossip_results_exec(gossip_path, content, known_filenames, frontmatter_pairs);
    split_results(&rs)
}

// ── Both sources ─────────────────────────────────────────────────────────────

/// What was found at the gossip path.
#[derive(Debug)]
pub enum GossipText {
    /// No file at the path.
    Missing,
    /// A file that could not be read as text.
    Unreadable,
    /// The file's text.
    Read(String),
}

/// Why the edges could not be loaded.
#[derive(Debug, Clone, Copy, PartialEq, Eq, Structural)]
pub enum EdgeLoadError {
    /// The autobuilder directory could not be listed.
    UnreadableDir,
    /// The gossip file exists but could not be read.
    UnreadableGossip,
}

/// The `(from, to)` pairs of edges.
pub open spec fn edge_pairs(es: Seq<(Seq<char>, Seq<char>, EdgeKind, Seq<char>)>) -> Seq<(Seq<char>, Seq<char>)> {
    es.map_values(|e: (Seq<char>, Seq<char>, EdgeKind, Seq<char>)| (e.0, e.1))
}

/// The extraction results of both sources: the frontmatter results, then the
/// gossip results with the frontmatter's pairs dropped.
pub open spec fn edge_results(
    dir: Seq<char>,
    fs: Seq<DirFile>,
    path: Seq<char>,
    gossip: GossipText,
    ks: Seq<String>,
) -> Seq<Result<(Seq<char>, Seq<char>, EdgeKind, Seq<char>), ()>> {
    let fm = frontmatter_results(dir, fs, ks);
    fm + match gossip {
        GossipText::Read(c) => gossip_results(path, c@, ks, edge_pairs(oks(fm))),
        _ => Seq::empty(),
    }
}

/// Build the full edge set from both sources.
///
/// `files` is the listing of the autobuilder directory (`None` when it could
/// not be read) and `gossip` what was found at `gossip_path`.
pub fn load_edges(
    autobuilder_dir: &str,
    files: &Option<Vec<DirFile>>,
    gossip_path: &str,
    gossip: &GossipText,
    known_filenames: &Vec<String>,
) -> (r: Result<EdgeSet, EdgeLoadError>)
    ensures
        match *files {
            None => r == Err::<EdgeSet, EdgeLoadError>(EdgeLoadError::UnreadableDir),
            Some(fs) => match *gossip {
                GossipText::Unreadable => r == Err::<EdgeSet, EdgeLoadError>(
                    EdgeLoadError::UnreadableGossip,
                ),
                _ => r matches Ok(es) && es.edges@.map_values(|e: Edge| edge_view(e)) == oks(
                    edge_results(autobuilder_dir@, fs@, gossip_path@, *gossip, known_filenames@),
                ) && es.unresolved == errs(
                    edge_results(autobuilder_dir@, fs@, gossip_path@, *gossip, known_filenames@),
                ),
            },
        },
{
    let fs = match files {
        None => return Err(EdgeLoadError::UnreadableDir),
        Some(fs) => fs,
    };
    if let GossipText::Unreadable = gossip {
        return Err(EdgeLoadError::UnreadableGossip);
    }
    let mut all = frontmatter_results_exec(autobuilder_dir, fs, known_filenames);
    let ghost fm = all@.map_values(|x: Result<Edge, ()>| result_view(x));
    let (fm_edges, _) = split_results(&all);
    let mut pairs: Vec<(String, String)> = Vec::new();
    let mut i: usize = 0;
    while i < fm_edges.len()
        invariant
            i <= fm_edges@.len(),
            pair_views(pairs@) == edge_pairs(fm_edges@.map_values(|e: Edge| edge_view(e))).take(i as int),
        decreases fm_edges@.len() - i,
    {
        let ghost before = pairs@;
        pairs.push((fm_edges[i].from.clone(), fm_edges[i].to.clone()));
        assert(pair_views(pairs@) =~= pair_views(before).push((fm_edges@[i as int].from@, fm_edges@[i as int].to@)));
        assert(edge_pairs(fm_edges@.map_values(|e: Edge| edge_view(e))).take(i + 1) =~= edge_pairs(
            fm_edges@.map_values(|e: Edge| edge_view(e)),
        ).take(i as int).push((fm_edges@[i as int].from@, fm_edges@[i as int].to@)));
        i = i + 1;
    }
    assert(pair_views(pairs@) =~= edge_pairs(oks(fm)));
    match gossip {
        GossipText::Read(c) => {
            let g = gossip_results_exec(gossip_path, c.as_str(), known_filenames, &pairs);
            append_results(&mut all, g);
        },
        _ => {
            assert(all@.map_values(|x: Result<Edge, ()>| result_view(x)) =~= fm + Seq::empty());
        },
    }
    let (edges, unresolved) = split_results(&all);
    Ok(EdgeSet { edges, unresolved })
}

// ── Laws ─────────────────────────────────────────────────────────────────────

proof fn lemma_from_positions_bound(es: Seq<Edge>, k: Seq<char>)
    requires
        es.len() <= usize::MAX,
    ensures
        forall|i: int| 0 <= i < from_positions(es, k).len() ==> #[trigger] from_positions(es, k)[i] < es.len(),
    decreases es.len(),
{
    if es.len() > 0 {
        lemma_from_positions_bound(es.drop_last(), k);
        let prev = from_positions(es.drop_last(), k);
        let cur = from_positions(es, k);
        assert forall|i: int| 0 <= i < cur.len() implies #[trigger] cur[i] < es.len() by {
            if i < prev.len() {
                assert(cur[i] == prev[i]);
            }
        }
    }
}

proof fn lemma_to_positions_bound(es: Seq<Edge>, k: Seq<char>)
    requires
        es.len() <= usize::MAX,
    ensures
        forall|i: int| 0 <= i < to_positions(es, k).len() ==> #[trigger] to_positions(es, k)[i] < es.len(),
    decreases es.len(),
{
    if es.len() > 0 {
        lemma_to_positions_bound(es.drop_last(), k);
        let prev = to_positions(es.drop_last(), k);
        let cur = to_positions(es, k);
        assert forall|i: int| 0 <= i < cur.len() implies #[trigger] cur[i] < es.len() by {
            if i < prev.len() {
                assert(cur[i] == prev[i]);
            }
        }
    }
}

proof fn lemma_pick_push(es: Seq<Edge>, x: Edge, idxs: Seq<usize>)
    requires
        forall|i: int| 0 <= i < idxs.len() ==> #[trigger] idxs[i] < es.len(),
    ensures
        pick(es.push(x), idxs) == pick(es, idxs),
    decreases idxs.len(),
{
    if idxs.len() > 0 {
        assert(idxs.last() == idxs[idxs.len() - 1]);
        lemma_pick_push(es, x, idxs.drop_last());
    }
}

proof fn lemma_pick_from(es: Seq<Edge>, k: Seq<char>)
    requires
        es.len() <= usize::MAX,
    ensures
        pick(es, from_positions(es, k)) == es.filter(|e: Edge| e.from@ == k),
    decreases es.len(),
{
    let p = |e: Edge| e.from@ == k;
    if es.len() == 0 {
        assert(es.filter(p) =~= Seq::<Edge>::empty());
    } else {
        let init = es.drop_last();
        let x = es.last();
        assert(es =~= init.push(x));
        lemma_pick_from(init, k);
        lemma_from_positions_bound(init, k);
        lemma_pick_push(init, x, from_positions(init, k));
        init.lemma_filter_push(x, p);
        if x.from@ == k {
            let ps = from_positions(init, k).push((es.len() - 1) as usize);
            assert(ps.drop_last() =~= from_positions(init, k));
            assert(ps.last() < es.len());
        }
    }
}

proof fn lemma_pick_to(es: Seq<Edge>, k: Seq<char>)
    requires
        es.len() <= usize::MAX,
    ensures
        pick(es, to_positions(es, k)) == es.filter(|e: Edge| e.to@ == k),
    decreases es.len(),
{
    let p = |e: Edge| e.to@ == k;
    if es.len() == 0 {
        assert(es.filter(p) =~= Seq::<Edge>::empty());
    } else {
        let init = es.drop_last();
        let x = es.last();
        assert(es =~= init.push(x));
        lemma_pick_to(init, k);
        lemma_to_positions_bound(init, k);
        lemma_pick_push(init, x, to_positions(init, k));
        init.lemma_filter_push(x, p);
        if x.to@ == k {
            let ps = to_positions(init, k).push((es.len() - 1) as usize);
            assert(ps.drop_last() =~= to_positions(init, k));
            assert(ps.last() < es.len());
        }
    }
}

/// An index built from an edge set answers exactly: the edges it gives out of
/// `k` (`out_edges`) are the set's edges whose `from` is `k`, and the edges
/// it gives into `k` (`in_edges`) those whose `to` is `k`, in set order.
pub proof fn law_index_selects_edges(edge_set: &EdgeSet, index: &EdgeIndex, k: Seq<char>)
    requires
        edge_set.edges@.len() <= usize::MAX,
        forall|j: Seq<char>| #[trigger] index.out_positions(j) == from_positions(edge_set.edges@, j),
        forall|j: Seq<char>| #[trigger] index.in_positions(j) == to_positions(edge_set.edges@, j),
    ensures
        pick(edge_set.edges@, index.out_positions(k)) == edge_set.edges@.filter(|e: Edge| e.from@ == k),
        pick(edge_set.edges@, index.in_positions(k)) == edge_set.edges@.filter(|e: Edge| e.to@ == k),
{
    assert(index.out_positions(k) == from_positions(edge_set.edges@, k));
    assert(index.in_positions(k) == to_positions(edge_set.edges@, k));
    lemma_pick_from(edge_set.edges@, k);
    lemma_pick_to(edge_set.edges@, k);
}

/// Whether every edge among results satisfies `p`.
pub open spec fn all_oks(
    rs: Seq<Result<(Seq<char>, Seq<char>, EdgeKind, Seq<char>), ()>>,
    p: spec_fn((Seq<char>, Seq<char>, EdgeKind, Seq<char>)) -> bool,
) -> bool {
    forall|i: int| 0 <= i < rs.len() ==> (#[trigger] rs[i] matches Ok(e) ==> p(e))
}

proof fn lemma_all_oks_add(
    a: Seq<Result<(Seq<char>, Seq<char>, EdgeKind, Seq<char>), ()>>,
    b: Seq<Result<(Seq<char>, Seq<char>, EdgeKind, Seq<char>), ()>>,
    p: spec_fn((Seq<char>, Seq<char>, EdgeKind, Seq<char>)) -> bool,
)
    requires
        all_oks(a, p),
        all_oks(b, p),
    ensures
        all_oks(a + b, p),
{
    assert forall|i: int| 0 <= i < (a + b).len() implies (#[trigger] (a + b)[i] matches Ok(e) ==> p(e)) by {
        if i < a.len() {
            assert((a + b)[i] == a[i]);
        } else {
            assert((a + b)[i] == b[i - a.len()]);
        }
    }
}

proof fn lemma_oks_forall(
    rs: Seq<Result<(Seq<char>, Seq<char>, EdgeKind, Seq<char>), ()>>,
    p: spec_fn((Seq<char>, Seq<char>, EdgeKind, Seq<char>)) -> bool,
)
    requires
        all_oks(rs, p),
    ensures
        forall|i: int| 0 <= i < oks(rs).len() ==> p(#[trigger] oks(rs)[i]),
{
    let f = |r: Result<(Seq<char>, Seq<char>, EdgeKind, Seq<char>), ()>|
        match r {
            Ok(e) => Some(e),
            Err(_) => None,
        };
    assert forall|i: int| 0 <= i < rs.len() implies (f(#[trigger] rs[i]) matches Some(b) ==> p(b)) by {}
    lemma_filter_map_forall(rs, f, p);
}

proof fn lemma_oks_add(
    a: Seq<Result<(Seq<char>, Seq<char>, EdgeKind, Seq<char>), ()>>,
    b: Seq<Result<(Seq<char>, Seq<char>, EdgeKind, Seq<char>), ()>>,
)
    ensures
        oks(a + b) == oks(a) + oks(b),
    decreases b.len(),
{
    if b.len() == 0 {
        assert(a + b =~= a);
        assert(oks(a) + oks(b) =~= oks(a));
    } else {
        lemma_oks_add(a, b.drop_last());
        assert((a + b).drop_last() =~= a + b.drop_last());
        assert((a + b).last() == b.last());
        match b.last() {
            Ok(e) => {
                assert(oks(a) + oks(b) =~= oks(a) + oks(b.drop_last()) + seq![e]);
            },
            Err(_) => {},
        }
    }
}

/// An edge from a `Depends on:` line resolving to a known PRD.
pub open spec fn resolved_frontmatter(ks: Seq<String>, e: (Seq<char>, Seq<char>, EdgeKind, Seq<char>)) -> bool {
    e.2 == EdgeKind::Frontmatter && known(ks, e.1)
}

proof fn lemma_line_deps_resolved(from: Seq<char>, t: Seq<char>, ks: Seq<String>, n: nat)
    ensures
        all_oks(line_deps(from, t, ks, n), |e: (Seq<char>, Seq<char>, EdgeKind, Seq<char>)| resolved_frontmatter(ks, e)),
{
    let p = |e: (Seq<char>, Seq<char>, EdgeKind, Seq<char>)| resolved_frontmatter(ks, e);
    match field_value(t, "Depends on:"@) {
        None => {},
        Some(v) => {
            let parts = split(v, ","@);
            let f = |q: Seq<char>| dep_result(from, q, ks, from + ":"@ + decimal(n));
            let ok_p = |r: Result<(Seq<char>, Seq<char>, EdgeKind, Seq<char>), ()>| r matches Ok(e) ==> p(e);
            assert forall|i: int| 0 <= i < parts.len() implies (f(#[trigger] parts[i]) matches Some(b) ==> ok_p(b)) by {}
            lemma_filter_map_forall(parts, f, ok_p);
            assert(line_deps(from, t, ks, n) == parts.filter_map(f));
        },
    }
}

proof fn lemma_deps_scan_resolved(from: Seq<char>, ls: Seq<Seq<char>>, ks: Seq<String>)
    ensures
        all_oks(deps_scan(from, ls, ks).0, |e: (Seq<char>, Seq<char>, EdgeKind, Seq<char>)| resolved_frontmatter(ks, e)),
    decreases ls.len(),
{
    if ls.len() > 0 {
        let p = |e: (Seq<char>, Seq<char>, EdgeKind, Seq<char>)| resolved_frontmatter(ks, e);
        lemma_deps_scan_resolved(from, ls.drop_last(), ks);
        let prev = deps_scan(from, ls.drop_last(), ks);
        let t = trim(ls.last());
        if !starts_with(t, "```"@) && !prev.1 {
            lemma_line_deps_resolved(from, t, ks, ls.len());
            lemma_all_oks_add(prev.0, line_deps(from, t, ks, ls.len()), p);
        }
    }
}

proof fn lemma_files_deps_resolved(fs: Seq<DirFile>, ks: Seq<String>)
    ensures
        all_oks(files_deps(fs, ks), |e: (Seq<char>, Seq<char>, EdgeKind, Seq<char>)| resolved_frontmatter(ks, e)),
    decreases fs.len(),
{
    if fs.len() > 0 {
        let p = |e: (Seq<char>, Seq<char>, EdgeKind, Seq<char>)| resolved_frontmatter(ks, e);
        lemma_files_deps_resolved(fs.drop_last(), ks);
        let f = fs.last();
        if is_edge_source(f.name@) {
            match f.content {
                Some(c) => lemma_deps_scan_resolved(f.name@, lines(c@), ks),
                None => {},
            }
        }
        lemma_all_oks_add(files_deps(fs.drop_last(), ks), file_deps(f, ks), p);
    }
}

/// Whether every pair among `Order:` block results is of known PRDs and not
/// among `pairs`.
pub open spec fn pairs_resolved(
    rs: Seq<Result<((Seq<char>, Seq<char>), int), ()>>,
    ks: Seq<String>,
    pairs: Seq<(Seq<char>, Seq<char>)>,
) -> bool {
    forall|i: int|
        0 <= i < rs.len() ==> (#[trigger] rs[i] matches Ok(x) ==> known(ks, x.0.0) && known(ks, x.0.1)
            && !pairs.contains(x.0))
}

proof fn lemma_pairs_resolved_add(
    a: Seq<Result<((Seq<char>, Seq<char>), int), ()>>,
    b: Seq<Result<((Seq<char>, Seq<char>), int), ()>>,
    ks: Seq<String>,
    pairs: Seq<(Seq<char>, Seq<char>)>,
)
    requires
        pairs_resolved(a, ks, pairs),
        pairs_resolved(b, ks, pairs),
    ensures
        pairs_resolved(a + b, ks, pairs),
{
    assert forall|i: int| 0 <= i < (a + b).len() implies (#[trigger] (a + b)[i] matches Ok(x) ==> known(
        ks,
        x.0.0,
    ) && known(ks, x.0.1) && !pairs.contains(x.0)) by {
        if i < a.len() {
            assert((a + b)[i] == a[i]);
        } else {
            assert((a + b)[i] == b[i - a.len()]);
        }
    }
}

proof fn lemma_window_resolved(
    parts: Seq<Seq<char>>,
    k: int,
    ks: Seq<String>,
    pairs: Seq<(Seq<char>, Seq<char>)>,
    n: int,
)
    ensures
        pairs_resolved(window_results(parts, k, ks, pairs, n), ks, pairs),
    decreases parts.len() - k,
{
    if !(k < 0 || k + 1 >= parts.len()) {
        lemma_window_resolved(parts, k + 1, ks, pairs, n);
        let here: Seq<Result<((Seq<char>, Seq<char>), int), ()>> = match (
            slug_of(parts[k]),
            slug_of(parts[k + 1]),
        ) {
            (Some(pre), Some(dep)) => match pair_result(pre, dep, ks, pairs, n) {
                Some(r) => seq![r],
                None => Seq::empty(),
            },
            _ => Seq::empty(),
        };
        assert(pairs_resolved(here, ks, pairs));
        lemma_pairs_resolved_add(here, window_results(parts, k + 1, ks, pairs, n), ks, pairs);
    }
}

proof fn lemma_block_resolved(
    b: Seq<(int, Seq<char>)>,
    ks: Seq<String>,
    pairs: Seq<(Seq<char>, Seq<char>)>,
)
    ensures
        pairs_resolved(block_results(b, ks, pairs), ks, pairs),
    decreases b.len(),
{
    if b.len() > 0 {
        lemma_block_resolved(b.drop_last(), ks, pairs);
        let e = b.last();
        lemma_window_resolved(split(arrows_normalised(e.1), "ARROW"@), 0, ks, pairs, e.0);
        lemma_pairs_resolved_add(block_results(b.drop_last(), ks, pairs), line_results(e, ks, pairs), ks, pairs);
    }
}

proof fn lemma_gossip_scan_resolved(
    ls: Seq<Seq<char>>,
    m: int,
    ks: Seq<String>,
    pairs: Seq<(Seq<char>, Seq<char>)>,
)
    ensures
        pairs_resolved(gossip_scan(ls, m, ks, pairs), ks, pairs),
    decreases m,
{
    if !(m <= 0 || m > ls.len()) {
        lemma_gossip_scan_resolved(ls, m - 1, ks, pairs);
        if starts_with(trim(ls[m - 1]), "Order:"@) {
            lemma_block_resolved(order_block(ls, m - 1), ks, pairs);
            lemma_pairs_resolved_add(
                gossip_scan(ls, m - 1, ks, pairs),
                block_results(order_block(ls, m - 1), ks, pairs),
                ks,
                pairs,
            );
        } else {
            assert(gossip_scan(ls, m, ks, pairs) =~= gossip_scan(ls, m - 1, ks, pairs));
        }
    }
}

/// An edge from an `Order:` block between known PRDs, not among `pairs`.
pub open spec fn resolved_gossip(
    ks: Seq<String>,
    pairs: Seq<(Seq<char>, Seq<char>)>,
    e: (Seq<char>, Seq<char>, EdgeKind, Seq<char>),
) -> bool {
    e.2 == EdgeKind::Gossip && known(ks, e.0) && known(ks, e.1) && !pairs.contains((e.0, e.1))
}

proof fn lemma_gossip_resolved(
    path: Seq<char>,
    content: Seq<char>,
    ks: Seq<String>,
    pairs: Seq<(Seq<char>, Seq<char>)>,
)
    ensures
        all_oks(
            gossip_results(path, content, ks, pairs),
            |e: (Seq<char>, Seq<char>, EdgeKind, Seq<char>)| resolved_gossip(ks, pairs, e),
        ),
{
    let ls = lines(content);
    let sc = gossip_scan(ls, ls.len() as int, ks, pairs);
    lemma_gossip_scan_resolved(ls, ls.len() as int, ks, pairs);
    let rs = gossip_results(path, content, ks, pairs);
    assert forall|i: int| 0 <= i < rs.len() implies (#[trigger] rs[i] matches Ok(e) ==> resolved_gossip(
        ks,
        pairs,
        e,
    )) by {
        assert(rs[i] == gossip_edge(sc[i], gossip_source(path)));
    }
}

/// The edges loaded from both sources resolve: every edge's prerequisite
/// (`to`) is a known PRD, and so is the dependent (`from`) of every gossip edge.
pub proof fn law_edges_resolve(
    dir: Seq<char>,
    fs: Seq<DirFile>,
    path: Seq<char>,
    gossip: GossipText,
    ks: Seq<String>,
)
    ensures
        forall|i: int|
            0 <= i < oks(edge_results(dir, fs, path, gossip, ks)).len() ==> {
                let e = #[trigger] oks(edge_results(dir, fs, path, gossip, ks))[i];
                known(ks, e.1) && (e.2 == EdgeKind::Gossip ==> known(ks, e.0))
            },
{
    let fm = frontmatter_results(dir, fs, ks);
    let pairs = edge_pairs(oks(fm));
    let g = match gossip {
        GossipText::Read(c) => gossip_results(path, c@, ks, pairs),
        _ => Seq::empty(),
    };
    let pf = |e: (Seq<char>, Seq<char>, EdgeKind, Seq<char>)| resolved_frontmatter(ks, e);
    let pg = |e: (Seq<char>, Seq<char>, EdgeKind, Seq<char>)| resolved_gossip(ks, pairs, e);
    if !archived_dir(dir) {
        lemma_files_deps_resolved(fs, ks);
    }
    lemma_oks_forall(fm, pf);
    match gossip {
        GossipText::Read(c) => lemma_gossip_resolved(path, c@, ks, pairs),
        _ => {},
    }
    lemma_oks_forall(g, pg);
    lemma_oks_add(fm, g);
    let es = oks(edge_results(dir, fs, path, gossip, ks));
    assert(es == oks(fm) + oks(g));
    assert forall|i: int| 0 <= i < es.len() implies {
        let e = #[trigger] es[i];
        known(ks, e.1) && (e.2 == EdgeKind::Gossip ==> known(ks, e.0))
    } by {
        if i < oks(fm).len() {
            assert(es[i] == oks(fm)[i]);
            assert(pf(oks(fm)[i]));
        } else {
            assert(es[i] == oks(g)[i - oks(fm).len()]);
            assert(pg(oks(g)[i - oks(fm).len()]));
        }
    }
}

/// Frontmatter wins: no gossip edge among the loaded edges repeats the
/// `(from, to)` pair of a frontmatter edge.
pub proof fn law_frontmatter_wins(
    dir: Seq<char>,
    fs: Seq<DirFile>,
    path: Seq<char>,
    gossip: GossipText,
    ks: Seq<String>,
)
    ensures
        forall|i: int, j: int|
            0 <= i < oks(edge_results(dir, fs, path, gossip, ks)).len() && 0 <= j < oks(
                edge_results(dir, fs, path, gossip, ks),
            ).len() && (#[trigger] oks(edge_results(dir, fs, path, gossip, ks))[i]).2 == EdgeKind::Gossip
                && (#[trigger] oks(edge_results(dir, fs, path, gossip, ks))[j]).2 == EdgeKind::Frontmatter
                ==> (oks(edge_results(dir, fs, path, gossip, ks))[i].0, oks(
                edge_results(dir, fs, path, gossip, ks),
            )[i].1) != (oks(edge_results(dir, fs, path, gossip, ks))[j].0, oks(
                edge_results(dir, fs, path, gossip, ks),
            )[j].1),
{
    let fm = frontmatter_results(dir, fs, ks);
    let pairs = edge_pairs(oks(fm));
    let g = match gossip {
        GossipText::Read(c) => gossip_results(path, c@, ks, pairs),
        _ => Seq::empty(),
    };
    let pf = |e: (Seq<char>, Seq<char>, EdgeKind, Seq<char>)| resolved_frontmatter(ks, e);
    let pg = |e: (Seq<char>, Seq<char>, EdgeKind, Seq<char>)| resolved_gossip(ks, pairs, e);
    if !archived_dir(dir) {
        lemma_files_deps_resolved(fs, ks);
    }
    lemma_oks_forall(fm, pf);
    match gossip {
        GossipText::Read(c) => lemma_gossip_resolved(path, c@, ks, pairs),
        _ => {},
    }
    lemma_oks_forall(g, pg);
    lemma_oks_add(fm, g);
    let es = oks(edge_results(dir, fs, path, gossip, ks));
    let n = oks(fm).len();
    assert(es == oks(fm) + oks(g));
    assert forall|i: int, j: int|
        0 <= i < es.len() && 0 <= j < es.len() && (#[trigger] es[i]).2 == EdgeKind::Gossip && (
        #[trigger] es[j]).2 == EdgeKind::Frontmatter implies (es[i].0, es[i].1) != (es[j].0, es[j].1) by {
        if i < n {
            assert(es[i] == oks(fm)[i]);
            assert(pf(oks(fm)[i]));
        } else if j >= n {
            assert(es[j] == oks(g)[j - n]);
            assert(pg(oks(g)[j - n]));
        } else {
            assert(es[i] == oks(g)[i - n]);
            assert(pg(oks(g)[i - n]));
            assert(es[j] == oks(fm)[j]);
            assert(pairs[j] == (es[j].0, es[j].1));
            assert(pairs.contains((es[j].0, es[j].1)));
        }
    }
}

/// The loaded edges are the frontmatter edges, in listing order, followed by
/// the gossip edges computed against the frontmatter's `(from, to)` pairs.
pub proof fn law_edges_frontmatter_then_gossip(
    dir: Seq<char>,
    fs: Seq<DirFile>,
    path: Seq<char>,
    gossip: GossipText,
    ks: Seq<String>,
)
    ensures
        oks(edge_results(dir, fs, path, gossip, ks)) == oks(frontmatter_results(dir, fs, ks)) + match gossip {
            GossipText::Read(c) => oks(
                gossip_results(path, c@, ks, edge_pairs(oks(frontmatter_results(dir, fs, ks)))),
            ),
            _ => Seq::empty(),
        },
{
    let fm = frontmatter_results(dir, fs, ks);
    let g = match gossip {
        GossipText::Read(c) => gossip_results(path, c@, ks, edge_pairs(oks(fm))),
        _ => Seq::empty(),
    };
    lemma_oks_add(fm, g);
    match gossip {
        GossipText::Read(c) => {},
        _ => {
            assert(oks(g) =~= Seq::<(Seq<char>, Seq<char>, EdgeKind, Seq<char>)>::empty());
        },
    }
}

proof fn lemma_from_positions_members(es: Seq<Edge>, k: Seq<char>)
    requires
        es.len() <= usize::MAX,
    ensures
        forall|a: int, b: int|
            0 <= a < b < from_positions(es, k).len() ==> #[trigger] from_positions(es, k)[a]
                < #[trigger] from_positions(es, k)[b],
        forall|i: int|
            0 <= i < es.len() ==> (from_positions(es, k).contains(i as usize) <==> (#[trigger] es[i]).from@
                == k),
    decreases es.len(),
{
    lemma_from_positions_bound(es, k);
    if es.len() > 0 {
        let init = es.drop_last();
        lemma_from_positions_members(init, k);
        lemma_from_positions_bound(init, k);
        let prev = from_positions(init, k);
        let cur = from_positions(es, k);
        let n = (es.len() - 1) as usize;
        assert forall|a: int, b: int| 0 <= a < b < cur.len() implies #[trigger] cur[a] < #[trigger] cur[b] by {
            if b < prev.len() {
                assert(cur[a] == prev[a] && cur[b] == prev[b]);
            } else {
                assert(cur[b] == n);
                assert(cur[a] == prev[a]);
                assert(prev[a] < init.len());
            }
        }
        assert forall|i: int| 0 <= i < es.len() implies (cur.contains(i as usize) <==> (#[trigger] es[i]).from@
            == k) by {
            if i < init.len() {
                assert(es[i] == init[i]);
                if cur.contains(i as usize) {
                    let j = choose|j: int| 0 <= j < cur.len() && cur[j] == i as usize;
                    if j < prev.len() {
                        assert(prev[j] == cur[j]);
                        assert(prev.contains(i as usize));
                    } else {
                        assert(cur[j] == n);
                    }
                }
                if prev.contains(i as usize) {
                    let j = choose|j: int| 0 <= j < prev.len() && prev[j] == i as usize;
                    assert(cur[j] == prev[j]);
                    assert(cur.contains(i as usize));
                }
            } else {
                assert(es[i] == es.last());
                if es.last().from@ == k {
                    assert(cur[cur.len() - 1] == n);
                    assert(cur.contains(i as usize));
                } else {
                    if cur.contains(i as usize) {
                        let j = choose|j: int| 0 <= j < cur.len() && cur[j] == i as usize;
                        assert(cur[j] == prev[j]);
                        assert(prev[j] < init.len());
                    }
                }
            }
        }
    }
}

proof fn lemma_to_positions_members(es: Seq<Edge>, k: Seq<char>)
    requires
        es.len() <= usize::MAX,
    ensures
        forall|a: int, b: int|
            0 <= a < b < to_positions(es, k).len() ==> #[trigger] to_positions(es, k)[a]
                < #[trigger] to_positions(es, k)[b],
        forall|i: int|
            0 <= i < es.len() ==> (to_positions(es, k).contains(i as usize) <==> (#[trigger] es[i]).to@
                == k),
    decreases es.len(),
{
    lemma_to_positions_bound(es, k);
    if es.len() > 0 {
        let init = es.drop_last();
        lemma_to_positions_members(init, k);
        lemma_to_positions_bound(init, k);
        let prev = to_positions(init, k);
        let cur = to_positions(es, k);
        let n = (es.len() - 1) as usize;
        assert forall|a: int, b: int| 0 <= a < b < cur.len() implies #[trigger] cur[a] < #[trigger] cur[b] by {
            if b < prev.len() {
                assert(cur[a] == prev[a] && cur[b] == prev[b]);
            } else {
                assert(cur[b] == n);
                assert(cur[a] == prev[a]);
                assert(prev[a] < init.len());
            }
        }
        assert forall|i: int| 0 <= i < es.len() implies (cur.contains(i as usize) <==> (#[trigger] es[i]).to@
            == k) by {
            if i < init.len() {
                assert(es[i] == init[i]);
                if cur.contains(i as usize) {
                    let j = choose|j: int| 0 <= j < cur.len() && cur[j] == i as usize;
                    if j < prev.len() {
                        assert(prev[j] == cur[j]);
                        assert(prev.contains(i as usize));
                    } else {
                        assert(cur[j] == n);
                    }
                }
                if prev.contains(i as usize) {
                    let j = choose|j: int| 0 <= j < prev.len() && prev[j] == i as usize;
                    assert(cur[j] == prev[j]);
                    assert(cur.contains(i as usize));
                }
            } else {
                assert(es[i] == es.last());
                if es.last().to@ == k {
                    assert(cur[cur.len() - 1] == n);
                    assert(cur.contains(i as usize));
                } else {
                    if cur.contains(i as usize) {
                        let j = choose|j: int| 0 <= j < cur.len() && cur[j] == i as usize;
                        assert(cur[j] == prev[j]);
                        assert(prev[j] < init.len());
                    }
                }
            }
        }
    }
}

/// An index built from an edge set lists every edge exactly once on each side:
/// the positions it records for a name never repeat, and edge `i` is among the
/// positions out of `k` exactly when its `from` is `k`, and among those into
/// `k` exactly when its `to` is `k`.
pub proof fn law_index_lists_each_edge_once(edge_set: &EdgeSet, index: &EdgeIndex, k: Seq<char>)
    requires
        edge_set.edges@.len() <= usize::MAX,
        forall|j: Seq<char>| #[trigger] index.out_positions(j) == from_positions(edge_set.edges@, j),
        forall|j: Seq<char>| #[trigger] index.in_positions(j) == to_positions(edge_set.edges@, j),
    ensures
        forall|a: int, b: int|
            0 <= a < b < index.out_positions(k).len() ==> #[trigger] index.out_positions(k)[a]
                < #[trigger] index.out_positions(k)[b],
        forall|a: int, b: int|
            0 <= a < b < index.in_positions(k).len() ==> #[trigger] index.in_positions(k)[a]
                < #[trigger] index.in_positions(k)[b],
        forall|i: int|
            0 <= i < edge_set.edges@.len() ==> (index.out_positions(k).contains(i as usize) <==> (
            #[trigger] edge_set.edges@[i]).from@ == k),
        forall|i: int|
            0 <= i < edge_set.edges@.len() ==> (index.in_positions(k).contains(i as usize) <==> (
            #[trigger] edge_set.edges@[i]).to@ == k),
{
    assert(index.out_positions(k) == from_positions(edge_set.edges@, k));
    assert(index.in_positions(k) == to_positions(edge_set.edges@, k));
    lemma_from_positions_members(edge_set.edges@, k);
    lemma_to_positions_members(edge_set.edges@, k);
}


/// An `Order:` block runs on through a following line that is not blank, a
/// `##` or `//` marker, or a new `Order:` line exactly when that line holds
/// one of the connectors `→`, `->`, `depends on` or `after`; such a line is
/// then the block's next entry, with its 1-based number.
pub proof fn law_block_continues_on_connectors(ls: Seq<Seq<char>>, j: int)
    requires
        0 <= j < ls.len(),
        trim(ls[j]).len() > 0,
        !starts_with(trim(ls[j]), "##"@),
        !starts_with(trim(ls[j]), "//"@),
        !starts_with(trim(ls[j]), "Order:"@),
    ensures
        cont_lines(ls, j).len() > 0 <==> (contains(trim(ls[j]), "→"@) || contains(trim(ls[j]), "->"@)
            || contains(trim(ls[j]), "depends on"@) || contains(trim(ls[j]), "after"@)),
        cont_lines(ls, j).len() > 0 ==> cont_lines(ls, j)[0] == (j + 1, trim(ls[j])),
{
}

} // verus!
