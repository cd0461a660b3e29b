//! Source parsers for the atlas graph.
//!
//! Each parser is tolerant: it never panics on malformed input, and a field
//! it cannot find is left empty.  The parsers work on text and on manifest
//! entries that have already been read; reading the files is the caller's.
use vstd::prelude::*;
use crate::model::{
    prd_key, prd_view, repo_view, strings, vision_key, vision_view, PrdNode, PrdStatus, RepoNode,
    VisionNode,
};
use crate::order::{isort_by, lemma_filter_map_step, lemma_isort_map, sort_keyed, Keyed};
use crate::paths::{file_name, file_name_chars, join_path, join_path_chars};
use crate::text::{
    chars_eq, chars_of, ends_with, ends_with_str, find, find_from, find_from_exec, find_str, lemma_find_from, lines,
    lines_chars, push_str, starts_with, starts_with_str, string_is, string_of, strip_prefix,
    strip_prefix_chars, strip_suffix, strip_suffix_chars, subvec, texts, trim, trim_chars,
    trim_start_matches, trim_start_matches_str,
};

verus! {

// ── Source resolution ────────────────────────────────────────────────────────

/// Resolved source paths for all corpus inputs, as path text.
#[derive(Debug, Clone)]
pub struct Sources {
    /// Directory containing PRD-*.md files.
    pub autobuilder_dir: String,
    /// Path to the build manifest JSON.
    pub build_manifest: String,
    /// Path to the dream manifest JSON.
    pub dream_manifest: String,
    /// Path to REPOS.md.
    pub repos_md: String,
    /// Path to the gossip notes holding `Order:` blocks.
    pub gossip_file: String,
}

/// The environment variables that source resolution reads (`None` when unset).
#[derive(Debug, Clone)]
pub struct SourceEnv {
    /// `HOME`.
    pub home: Option<String>,
    /// `ATLAS_AUTOBUILDER`.
    pub autobuilder: Option<String>,
    /// `ATLAS_BUILD_MANIFEST`.
    pub build_manifest: Option<String>,
    /// `ATLAS_DREAM_MANIFEST`.
    pub dream_manifest: Option<String>,
    /// `ATLAS_REPOS`.
    pub repos: Option<String>,
    /// `ATLAS_GOSSIP`.
    pub gossip: Option<String>,
}

/// Why sources could not be resolved.
#[derive(Debug, Clone, Copy, PartialEq, Eq, Structural)]
pub enum SourcesError {
    /// The `HOME` environment variable is not set.
    HomeNotSet,
}

/// The text of an optional string.
pub open spec fn opt_text(o: Option<String>) -> Option<Seq<char>> {
    match o {
        Some(s) => Some(s@),
        None => None,
    }
}

/// The override's text when it is set, else `default`.
pub open spec fn env_path_or(var: Option<String>, default: Seq<char>) -> Seq<char> {
    match var {
        Some(s) => s@,
        None => default,
    }
}

/// The paths `from_env` resolves for home directory `home`: each override
/// when set, else the default (none for the manifests).
pub open spec fn sources_for(env: SourceEnv, home: Seq<char>) -> (
    Seq<char>,
    Seq<char>,
    Seq<char>,
    Seq<char>,
    Seq<char>,
) {
    (
        env_path_or(env.autobuilder, join_path(home, "wintermute/autobuilder"@)),
        env_path_or(env.build_manifest, Seq::empty()),
        env_path_or(env.dream_manifest, Seq::empty()),
        env_path_or(env.repos, join_path(home, "wintermute/REPOS.md"@)),
        env_path_or(env.gossip, join_path(home, "wintermute/notes/gossip.md"@)),
    )
}

fn env_path_or_exec(var: &Option<String>, home: &Vec<char>, rel: &str) -> (r: String)
    ensures
        r@ == env_path_or(*var, join_path(home@, rel@)),
{
    match var {
        Some(s) => s.clone(),
        None => {
            let relv = chars_of(rel);
            let p = join_path_chars(home, &relv);
            string_of(&p)
        },
    }
}

fn override_or_empty(var: &Option<String>) -> (r: String)
    ensures
        r@ == env_path_or(*var, Seq::empty()),
{
    match var {
        Some(s) => s.clone(),
        None => String::new(),
    }
}

impl Sources {
    /// Resolve sources from environment values.
    ///
    /// The autobuilder directory, REPOS.md and the gossip notes default to
    /// paths under `HOME`; the two manifests have no default and are empty
    /// paths (no manifest) unless set.  Override any path via
    /// `ATLAS_AUTOBUILDER`, `ATLAS_BUILD_MANIFEST`, `ATLAS_DREAM_MANIFEST`,
    /// `ATLAS_REPOS` or `ATLAS_GOSSIP`.
    pub fn from_env(env: &SourceEnv) -> (r: Result<Sources, SourcesError>)
        ensures
            match env.home {
                None => r == Err::<Sources, SourcesError>(SourcesError::HomeNotSet),
                Some(h) => r matches Ok(s) && (
                    s.autobuilder_dir@,
                    s.build_manifest@,
                    s.dream_manifest@,
                    s.repos_md@,
                    s.gossip_file@,
                ) == sources_for(*env, h@),
            },
    {
        match &env.home {
            None => Err(SourcesError::HomeNotSet),
            Some(h) => {
                let home = chars_of(h.as_str());
                Ok(
                    Sources {
                        autobuilder_dir: env_path_or_exec(&env.autobuilder, &home, "wintermute/autobuilder"),
                        build_manifest: override_or_empty(&env.build_manifest),
                        dream_manifest: override_or_empty(&env.dream_manifest),
                        repos_md: env_path_or_exec(&env.repos, &home, "wintermute/REPOS.md"),
                        gossip_file: env_path_or_exec(&env.gossip, &home, "wintermute/notes/gossip.md"),
                    },
                )
            },
        }
    }
}

// ── Bold frontmatter fields ──────────────────────────────────────────────────

/// The value of a `**Key:** value` line for key `key`: the rest of the line
/// after the bold key, leading colons dropped, trimmed.
pub open spec fn bold_value(line: Seq<char>, key: Seq<char>) -> Option<Seq<char>> {
    match strip_prefix(line, "**"@ + key + "**"@) {
        Some(rest) => Some(trim(trim_start_matches(rest, ":"@))),
        None => None,
    }
}

/// `v` cut before its first ` # ` inline comment, trimmed.
pub open spec fn strip_comment(v: Seq<char>) -> Seq<char> {
    match find(v, " # "@) {
        Some(p) => trim(v.take(p)),
        None => trim(v),
    }
}

/// The value of a `**Key:** value` line with any trailing inline comment removed.
pub open spec fn field_value(line: Seq<char>, key: Seq<char>) -> Option<Seq<char>> {
    match bold_value(line, key) {
        Some(v) => Some(strip_comment(v)),
        None => None,
    }
}

/// Extract the value from a `**Key:** value` line (`None` when the line does
/// not start with the bold key).
pub fn extract_bold_field(line: &Vec<char>, key: &str) -> (r: Option<Vec<char>>)
    ensures
        match r {
            Some(v) => bold_value(line@, key@) == Some(v@),
            None => bold_value(line@, key@) is None,
        },
{
    let mut prefix: Vec<char> = Vec::new();
    push_str(&mut prefix, "**");
    push_str(&mut prefix, key);
    push_str(&mut prefix, "**");
    match strip_prefix_chars(line, &prefix) {
        Some(rest) => {
            let a = trim_start_matches_str(&rest, ":");
            Some(trim_chars(&a))
        },
        None => None,
    }
}

/// `v` cut before its first ` # ` inline comment, trimmed.
pub fn strip_comment_chars(v: &Vec<char>) -> (r: Vec<char>)
    ensures
        r@ == strip_comment(v@),
{
    proof {
        lemma_find_from(v@, " # "@, 0);
    }
    match find_str(v, " # ") {
        Some(p) => {
            let head = subvec(v, 0, p);
            assert(head@ =~= v@.take(p as int));
            trim_chars(&head)
        },
        None => trim_chars(v),
    }
}

/// The value of a `**Key:** value` line with any trailing inline comment removed.
pub fn field_value_chars(line: &Vec<char>, key: &str) -> (r: Option<Vec<char>>)
    ensures
        match r {
            Some(v) => field_value(line@, key@) == Some(v@),
            None => field_value(line@, key@) is None,
        },
{
    match extract_bold_field(line, key) {
        Some(v) => Some(strip_comment_chars(&v)),
        None => None,
    }
}

// ── PRD frontmatter ──────────────────────────────────────────────────────────

/// Frontmatter fields extracted from a PRD file.
#[derive(Debug)]
pub struct PrdFrontmatter {
    /// Title from the `# PRD:` line.
    pub title: String,
    /// Vision slug from the `**Vision:**` line.
    pub vision: String,
    /// Value of the `**build_target:**` line.
    pub build_target: String,
    /// Value of the `**build_into:**` line.
    pub build_into: String,
}

impl Default for PrdFrontmatter {
    fn default() -> (r: Self)
        ensures
            r.title@.len() == 0,
            r.vision@.len() == 0,
            r.build_target@.len() == 0,
            r.build_into@.len() == 0,
    {
        PrdFrontmatter {
            title: String::new(),
            vision: String::new(),
            build_target: String::new(),
            build_into: String::new(),
        }
    }
}

/// The vision slug named by a `Vision:` value: `visions/atlas.md` → `atlas`
/// (leading `visions/` and a trailing `.md` removed).
pub open spec fn vision_slug(raw: Seq<char>) -> Seq<char> {
    let base = trim_start_matches(raw, "visions/"@);
    match strip_suffix(base, ".md"@) {
        Some(b) => b,
        None => base,
    }
}

fn vision_slug_chars(raw: &Vec<char>) -> (r: Vec<char>)
    ensures
        r@ == vision_slug(raw@),
{
    let base = trim_start_matches_str(raw, "visions/");
    let md = chars_of(".md");
    match strip_suffix_chars(&base, &md) {
        Some(b) => b,
        None => base,
    }
}

/// Convert `visions/atlas.md` → `atlas` (strip dir prefix and .md suffix).
pub fn strip_vision_path(raw: &str) -> (r: String)
    ensures
        r@ == vision_slug(raw@),
{
    let v = chars_of(raw);
    let s = vision_slug_chars(&v);
    string_of(&s)
}

/// The frontmatter scan state: title, vision, build target, build-into, and
/// whether the scan is inside a fenced code block.
pub open spec fn fm_start() -> (Seq<char>, Seq<char>, Seq<char>, Seq<char>, bool) {
    (Seq::empty(), Seq::empty(), Seq::empty(), Seq::empty(), false)
}

/// One line of the frontmatter scan.  A line starting with a code fence
/// toggles the fence; lines inside a fence are skipped; otherwise the first
/// `# PRD:` title and the first non-empty value of each bold field are kept.
pub open spec fn fm_step(
    st: (Seq<char>, Seq<char>, Seq<char>, Seq<char>, bool),
    line: Seq<char>,
) -> (Seq<char>, Seq<char>, Seq<char>, Seq<char>, bool) {
    let t = trim(line);
    if starts_with(t, "```"@) {
        (st.0, st.1, st.2, st.3, !st.4)
    } else if st.4 {
        st
    } else {
        let title = if st.0.len() == 0 && starts_with(t, "# PRD:"@) {
            trim(trim_start_matches(t, "# PRD:"@))
        } else {
            st.0
        };
        match field_value(t, "Vision:"@) {
            Some(v) => (
                title,
                if st.1.len() == 0 {
                    vision_slug(v)
                } else {
                    st.1
                },
                st.2,
                st.3,
                st.4,
            ),
            None => match field_value(t, "build_target:"@) {
                Some(v) => (
                    title,
                    st.1,
                    if st.2.len() == 0 {
                        v
                    } else {
                        st.2
                    },
                    st.3,
                    st.4,
                ),
                None => match field_value(t, "build_into:"@) {
                    Some(v) => (
                        title,
                        st.1,
                        st.2,
                        if st.3.len() == 0 {
                            v
                        } else {
                            st.3
                        },
                        st.4,
                    ),
                    None => (title, st.1, st.2, st.3, st.4),
                },
            },
        }
    }
}

/// The frontmatter scan over a sequence of lines.
pub open spec fn fm_scan(ls: Seq<Seq<char>>) -> (Seq<char>, Seq<char>, Seq<char>, Seq<char>, bool)
    decreases ls.len(),
{
    if ls.len() == 0 {
        fm_start()
    } else {
        fm_step(fm_scan(ls.drop_last()), ls.last())
    }
}

/// The frontmatter of a PRD text: title, vision slug, build target, build-into.
pub open spec fn frontmatter_of(content: Seq<char>) -> (Seq<char>, Seq<char>, Seq<char>, Seq<char>) {
    let s = fm_scan(lines(content));
    (s.0, s.1, s.2, s.3)
}

struct FmState {
    title: Vec<char>,
    vision: Vec<char>,
    target: Vec<char>,
    into: Vec<char>,
    code: bool,
}

impl FmState {
    spec fn tuple(&self) -> (Seq<char>, Seq<char>, Seq<char>, Seq<char>, bool) {
        (self.title@, self.vision@, self.target@, self.into@, self.code)
    }
}

fn fm_step_exec(st: FmState, line: &Vec<char>) -> (r: FmState)
    ensures
        r.tuple() == fm_step(st.tuple(), line@),
{
    let t = trim_chars(line);
    let mut st = st;
    if starts_with_str(&t, "```") {
        st.code = !st.code;
        return st;
    }
    if st.code {
        return st;
    }
    if st.title.len() == 0 && starts_with_str(&t, "# PRD:") {
        let rest = trim_start_matches_str(&t, "# PRD:");
        st.title = trim_chars(&rest);
    }
    match field_value_chars(&t, "Vision:") {
        Some(v) => {
            if st.vision.len() == 0 {
                st.vision = vision_slug_chars(&v);
            }
        },
        None => match field_value_chars(&t, "build_target:") {
            Some(v) => {
                if st.target.len() == 0 {
                    st.target = v;
                }
            },
            None => match field_value_chars(&t, "build_into:") {
                Some(v) => {
                    if st.into.len() == 0 {
                        st.into = v;
                    }
                },
                None => {},
            },
        },
    }
    st
}

/// Parse PRD frontmatter from the file content.
///
/// Uses a tolerant line-scan: missing fields result in empty strings, never panics.
/// Lines inside fenced code blocks (```...```) are skipped.
pub fn parse_prd_frontmatter(content: &str) -> (r: PrdFrontmatter)
    ensures
        (r.title@, r.vision@, r.build_target@, r.build_into@) == frontmatter_of(content@),
{
    let cs = chars_of(content);
    let ls = lines_chars(&cs);
    let mut st = FmState {
        title: Vec::new(),
        vision: Vec::new(),
        target: Vec::new(),
        into: Vec::new(),
        code: false,
    };
    assert(st.tuple() =~= fm_start());
    let mut i: usize = 0;
    while i < ls.len()
        invariant
            i <= ls@.len(),
            texts(ls@) == lines(content@),
            st.tuple() == fm_scan(texts(ls@).take(i as int)),
        decreases ls@.len() - i,
    {
        assert(texts(ls@).take(i + 1).drop_last() =~= texts(ls@).take(i as int));
        assert(texts(ls@).take(i + 1).last() == ls@[i as int]@);
        st = fm_step_exec(st, &ls[i]);
        i = i + 1;
    }
    assert(texts(ls@).take(ls@.len() as int) =~= texts(ls@));
    PrdFrontmatter {
        title: string_of(&st.title),
        vision: string_of(&st.vision),
        build_target: string_of(&st.target),
        build_into: string_of(&st.into),
    }
}

// ── REPOS.md ─────────────────────────────────────────────────────────────────

/// The description after a REPOS.md link: leading ` —`, `—`, ` -` and `-`
/// runs removed, trimmed.
pub open spec fn repo_description(rest: Seq<char>) -> Seq<char> {
    trim(
        trim_start_matches(
            trim_start_matches(trim_start_matches(trim_start_matches(rest, " —"@), "—"@), " -"@),
            "-"@,
        ),
    )
}

/// The repo a REPOS.md line lists: a `- ` or `* ` list item holding a
/// `[name](url)` link; the name, the URL, and the description after the link.
pub open spec fn repo_line(line: Seq<char>) -> Option<(Seq<char>, Seq<char>, Seq<char>)> {
    let t = trim(line);
    if !starts_with(t, "- "@) && !starts_with(t, "* "@) {
        None
    } else {
        match find(t, "["@) {
            None => None,
            Some(a) => match find_from(t, "]"@, a) {
                None => None,
                Some(b) => match find_from(t, "("@, b) {
                    None => None,
                    Some(c) => match find_from(t, ")"@, c) {
                        None => None,
                        Some(d) => Some(
                            (
                                t.subrange(a + 1, b),
                                t.subrange(c + 1, d),
                                repo_description(trim(t.skip(d + 1))),
                            ),
                        ),
                    },
                },
            },
        }
    }
}

fn repo_description_chars(rest: &Vec<char>) -> (r: Vec<char>)
    ensures
        r@ == repo_description(rest@),
{
    let a = trim_start_matches_str(rest, " —");
    let b = trim_start_matches_str(&a, "—");
    let c = trim_start_matches_str(&b, " -");
    let d = trim_start_matches_str(&c, "-");
    trim_chars(&d)
}

/// Try to parse a single REPOS.md line into a RepoNode.
pub fn parse_repos_md_line(line: &str) -> (r: Option<RepoNode>)
    ensures
        match r {
            Some(n) => repo_line(line@) == Some(repo_view(n)),
            None => repo_line(line@) is None,
        },
{
    let lv = chars_of(line);
    let t = trim_chars(&lv);
    if !starts_with_str(&t, "- ") && !starts_with_str(&t, "* ") {
        return None;
    }
    let open_b = chars_of("[");
    let close_b = chars_of("]");
    let open_p = chars_of("(");
    let close_p = chars_of(")");
    proof {
        reveal_strlit("[");
        reveal_strlit("]");
        reveal_strlit("(");
        reveal_strlit(")");
        lemma_find_from(t@, "["@, 0);
    }
    let a = match find_from_exec(&t, &open_b, 0) {
        Some(a) => a,
        None => return None,
    };
    proof {
        lemma_find_from(t@, "]"@, a as int);
    }
    let b = match find_from_exec(&t, &close_b, a) {
        Some(b) => b,
        None => return None,
    };
    assert(t@.subrange(a as int, a + 1)[0] == t@[a as int]);
    assert(t@.subrange(b as int, b + 1)[0] == t@[b as int]);
    assert(t@[a as int] == '[');
    assert(t@[b as int] == ']');
    proof {
        lemma_find_from(t@, "("@, b as int);
    }
    let c = match find_from_exec(&t, &open_p, b) {
        Some(c) => c,
        None => return None,
    };
    proof {
        lemma_find_from(t@, ")"@, c as int);
    }
    let d = match find_from_exec(&t, &close_p, c) {
        Some(d) => d,
        None => return None,
    };
    assert(t@.subrange(c as int, c + 1)[0] == t@[c as int]);
    assert(t@.subrange(d as int, d + 1)[0] == t@[d as int]);
    assert(t@[c as int] == '(');
    assert(t@[d as int] == ')');
    let name = subvec(&t, a + 1, b);
    let url = subvec(&t, c + 1, d);
    let tl = t.len();
    assert(d + 1 <= tl);
    let rest = subvec(&t, d + 1, tl);
    assert(rest@ =~= t@.skip(d + 1));
    let rest_t = trim_chars(&rest);
    let desc = repo_description_chars(&rest_t);
    Some(RepoNode { name: string_of(&name), url: string_of(&url), description: string_of(&desc) })
}

/// The repos a REPOS.md text lists, in line order.
pub open spec fn repos_of(content: Seq<char>) -> Seq<(Seq<char>, Seq<char>, Seq<char>)> {
    lines(content).filter_map(|l: Seq<char>| repo_line(l))
}

/// Parse REPOS.md text into a list of `RepoNode`.
///
/// Looks for markdown list items containing a hyperlink: `- [name](url) — desc`
/// or `- **[name](url)** — desc`. Tolerates arbitrary formatting around entries.
pub fn parse_repos_md(content: &str) -> (r: Vec<RepoNode>)
    ensures
        r@.map_values(|n: RepoNode| repo_view(n)) == repos_of(content@),
{
    let cs = chars_of(content);
    let ls = lines_chars(&cs);
    let ghost f = |l: Seq<char>| repo_line(l);
    let mut out: Vec<RepoNode> = Vec::new();
    let mut i: usize = 0;
    while i < ls.len()
        invariant
            f == (|l: Seq<char>| repo_line(l)),
            i <= ls@.len(),
            texts(ls@) == lines(content@),
            out@.map_values(|n: RepoNode| repo_view(n)) == texts(ls@).take(i as int).filter_map(f),
        decreases ls@.len() - i,
    {
        proof {
            lemma_filter_map_step(texts(ls@), f, i as int);
        }
        let line = string_of(&ls[i]);
        let ghost before = out@;
        match parse_repos_md_line(line.as_str()) {
            Some(n) => {
                out.push(n);
                assert(out@.map_values(|n: RepoNode| repo_view(n)) =~= before.map_values(
                    |n: RepoNode| repo_view(n),
                ).push(repo_view(n)));
            },
            None => {},
        }
        i = i + 1;
    }
    assert(texts(ls@).take(ls@.len() as int) =~= texts(ls@));
    out
}

// ── Build manifest ───────────────────────────────────────────────────────────

/// Minimal shape of a build-manifest PRD entry.
#[derive(Debug)]
pub struct BuildManifestEntry {
    /// Path of the PRD the entry is for.
    pub path: Option<String>,
    /// Local path of the repo the PRD was built into.
    pub output_repo_path: Option<String>,
    /// URL of the repo the PRD was built into.
    pub output_repo_url: Option<String>,
    /// Build status recorded by the manifest.
    pub status: Option<String>,
}

/// The map from PRD filename to manifest entry held by `es`, later pairs
/// overriding earlier ones with the same key.
pub open spec fn entries_map(es: Seq<(String, BuildManifestEntry)>) -> Map<Seq<char>, BuildManifestEntry>
    decreases es.len(),
{
    if es.len() == 0 {
        Map::empty()
    } else {
        entries_map(es.drop_last()).insert(es.last().0@, es.last().1)
    }
}

/// Build-manifest entries keyed by PRD filename.
#[derive(Debug)]
pub struct BuildMap {
    entries: Vec<(String, BuildManifestEntry)>,
}

impl View for BuildMap {
    type V = Map<Seq<char>, BuildManifestEntry>;

    closed spec fn view(&self) -> Map<Seq<char>, BuildManifestEntry> {
        entries_map(self.entries@)
    }
}

impl BuildMap {
    /// An empty map.
    pub fn new() -> (r: Self)
        ensures
            r@ == Map::<Seq<char>, BuildManifestEntry>::empty(),
    {
        BuildMap { entries: Vec::new() }
    }

    /// Records `entry` under `key`, replacing any entry under the same key.
    pub fn insert(&mut self, key: String, entry: BuildManifestEntry)
        ensures
            final(self)@ == old(self)@.insert(key@, entry),
    {
        let ghost before = self.entries@;
        self.entries.push((key, entry));
        assert(self.entries@.drop_last() =~= before);
    }

    /// The entry recorded under `key`.
    pub fn get(&self, key: &str) -> (r: Option<&BuildManifestEntry>)
        ensures
            match r {
                Some(e) => self@.get(key@) == Some(*e),
                None => self@.get(key@) is None,
            },
    {
        let k = chars_of(key);
        let mut j: usize = self.entries.len();
        assert(self.entries@.take(j as int) =~= self.entries@);
        while j > 0
            invariant
                k@ == key@,
                j <= self.entries@.len(),
                entries_map(self.entries@.take(j as int)).get(key@) == self@.get(key@),
            decreases j,
        {
            assert(self.entries@.take(j as int).drop_last() =~= self.entries@.take(j - 1));
            let c = chars_of(self.entries[j - 1].0.as_str());
            if chars_eq(&c, &k) {
                return Some(&self.entries[j - 1].1);
            }
            j = j - 1;
        }
        assert(entries_map(self.entries@.take(0)) =~= Map::<Seq<char>, BuildManifestEntry>::empty());
        None
    }
}

/// The key a manifest entry is filed under: the final component of its path,
/// or the whole path when it has none.
pub open spec fn manifest_key(p: Seq<char>) -> Seq<char> {
    match file_name(p) {
        Some(f) => f,
        None => p,
    }
}

/// The map `parse_build_manifest` builds from the manifest's entries: each
/// entry with a path filed under its key, later entries winning.
pub open spec fn build_map_of(es: Seq<BuildManifestEntry>) -> Map<Seq<char>, BuildManifestEntry>
    decreases es.len(),
{
    if es.len() == 0 {
        Map::empty()
    } else {
        match es.last().path {
            Some(p) => build_map_of(es.drop_last()).insert(manifest_key(p@), es.last()),
            None => build_map_of(es.drop_last()),
        }
    }
}

/// File the build manifest's PRD entries by PRD basename
/// (e.g. "PRD-atlas-core.md"); entries without a path are dropped.
pub fn parse_build_manifest(prds: Vec<BuildManifestEntry>) -> (r: BuildMap)
    ensures
        r@ == build_map_of(prds@),
{
    let ghost orig = prds@;
    let mut rest = prds;
    let mut map = BuildMap::new();
    let mut i: usize = 0;
    let n = rest.len();
    assert(orig.take(0) =~= Seq::<BuildManifestEntry>::empty());
    while rest.len() > 0
        invariant
            n == orig.len(),
            i + rest@.len() == n,
            rest@ == orig.skip(i as int),
            map@ == build_map_of(orig.take(i as int)),
        decreases rest@.len(),
    {
        let e = rest.remove(0);
        assert(orig.take(i + 1).drop_last() =~= orig.take(i as int));
        assert(orig.take(i + 1).last() == e);
        match &e.path {
            Some(p) => {
                let pv = chars_of(p.as_str());
                let key = match file_name_chars(&pv) {
                    Some(f) => string_of(&f),
                    None => p.clone(),
                };
                map.insert(key, e);
            },
            None => {},
        }
        assert(rest@ =~= orig.skip(i + 1));
        i = i + 1;
    }
    assert(orig.take(n as int) =~= orig);
    map
}

// ── Dream manifest ───────────────────────────────────────────────────────────

/// Minimal shape of a dream-manifest vision entry.
#[derive(Debug)]
pub struct DreamVisionEntry {
    /// Path of the vision file.
    pub path: Option<String>,
    /// Vision status.
    pub status: Option<String>,
    /// Slugs of the PRDs the vision has drafted.
    pub prds_drafted: Option<Vec<String>>,
    /// Seed description.
    pub seed: Option<String>,
}

/// Whether a dream-manifest key is the `_no_fleet_passes` sentinel, which
/// names no vision.
pub open spec fn is_sentinel(slug: Seq<char>) -> bool {
    slug == "_no_fleet_passes"@
}

/// The vision entries of a dream manifest, keyed by slug, without the
/// `_no_fleet_passes` sentinel.
pub fn parse_dream_manifest(visions: Vec<(String, DreamVisionEntry)>) -> (r: Vec<(String, DreamVisionEntry)>)
    ensures
        r@ == visions@.filter(|e: (String, DreamVisionEntry)| !is_sentinel(e.0@)),
{
    let ghost orig = visions@;
    let ghost pred = |e: (String, DreamVisionEntry)| !is_sentinel(e.0@);
    let mut rest = visions;
    let mut out: Vec<(String, DreamVisionEntry)> = Vec::new();
    let mut i: usize = 0;
    let n = rest.len();
    assert(orig.take(0) =~= Seq::<(String, DreamVisionEntry)>::empty());
    while rest.len() > 0
        invariant
            pred == (|e: (String, DreamVisionEntry)| !is_sentinel(e.0@)),
            n == orig.len(),
            i + rest@.len() == n,
            rest@ == orig.skip(i as int),
            out@ == orig.take(i as int).filter(pred),
        decreases rest@.len(),
    {
        let e = rest.remove(0);
        assert(orig.take(i + 1) =~= orig.take(i as int).push(e));
        proof {
            orig.take(i as int).lemma_filter_push(e, pred);
        }
        if !string_is(&e.0, "_no_fleet_passes") {
            out.push(e);
        }
        assert(rest@ =~= orig.skip(i + 1));
        i = i + 1;
    }
    assert(orig.take(n as int) =~= orig);
    out
}

/// The text of an optional string, or empty text.
pub open spec fn text_or_empty(o: Option<String>) -> Seq<char> {
    match o {
        Some(s) => s@,
        None => Seq::empty(),
    }
}

/// The vision node a dream entry gives: the entry's path, or
/// `<autobuilder>/visions/<slug>.md` when it has none; missing fields empty.
pub open spec fn vision_of_entry(slug: Seq<char>, e: DreamVisionEntry, dir: Seq<char>) -> (
    Seq<char>,
    Seq<char>,
    Seq<char>,
    Seq<Seq<char>>,
    Seq<char>,
) {
    (
        slug,
        match e.path {
            Some(p) => p@,
            None => join_path(join_path(dir, "visions"@), slug + ".md"@),
        },
        text_or_empty(e.status),
        match e.prds_drafted {
            Some(v) => strings(v@),
            None => Seq::empty(),
        },
        text_or_empty(e.seed),
    )
}

fn string_or_empty(o: Option<String>) -> (r: String)
    ensures
        r@ == text_or_empty(o),
{
    match o {
        Some(s) => s,
        None => String::new(),
    }
}

/// Convert dream manifest entries to vision nodes, sorted by slug.
pub fn dream_entries_to_vision_nodes(
    entries: Vec<(String, DreamVisionEntry)>,
    autobuilder_dir: &str,
) -> (r: Vec<VisionNode>)
    ensures
        r@.map_values(|v: VisionNode| vision_view(v)) == isort_by(
            entries@.map_values(
                |e: (String, DreamVisionEntry)| vision_of_entry(e.0@, e.1, autobuilder_dir@),
            ),
            |v: (Seq<char>, Seq<char>, Seq<char>, Seq<Seq<char>>, Seq<char>)| vision_key(v),
        ),
{
    let ghost orig = entries@;
    let ghost g = |e: (String, DreamVisionEntry)| vision_of_entry(e.0@, e.1, autobuilder_dir@);
    let ghost vv = |v: VisionNode| vision_view(v);
    let dir = chars_of(autobuilder_dir);
    let visions_rel = chars_of("visions");
    let visions_dir = join_path_chars(&dir, &visions_rel);
    let mut rest = entries;
    let mut pre: Vec<VisionNode> = Vec::new();
    let mut i: usize = 0;
    let n = rest.len();
    while rest.len() > 0
        invariant
            g == (|e: (String, DreamVisionEntry)| vision_of_entry(e.0@, e.1, autobuilder_dir@)),
            vv == (|v: VisionNode| vision_view(v)),
            visions_dir@ == join_path(autobuilder_dir@, "visions"@),
            n == orig.len(),
            i + rest@.len() == n,
            rest@ == orig.skip(i as int),
            pre@.map_values(vv) == orig.take(i as int).map_values(g),
        decreases rest@.len(),
    {
        let (slug, e) = rest.remove(0);
        let ghost ev = e;
        let path = match e.path {
            Some(p) => p,
            None => {
                let mut name = chars_of(slug.as_str());
                push_str(&mut name, ".md");
                let full = join_path_chars(&visions_dir, &name);
                string_of(&full)
            },
        };
        let prds_drafted = match e.prds_drafted {
            Some(v) => v,
            None => Vec::new(),
        };
        let node = VisionNode {
            slug,
            path,
            status: string_or_empty(e.status),
            prds_drafted,
            seed: string_or_empty(e.seed),
        };
        let ghost before = pre@;
        assert(vision_view(node) == g(orig[i as int]));
        pre.push(node);
        assert(orig.take(i + 1) =~= orig.take(i as int).push(orig[i as int]));
        assert(pre@.map_values(vv) =~= before.map_values(vv).push(vv(node)));
        assert(orig.take(i + 1).map_values(g) =~= orig.take(i as int).map_values(g).push(
            g(orig[i as int]),
        ));
        assert(rest@ =~= orig.skip(i + 1));
        i = i + 1;
    }
    assert(orig.take(n as int) =~= orig);
    let r = sort_keyed(pre);
    proof {
        let k = |v: (Seq<char>, Seq<char>, Seq<char>, Seq<Seq<char>>, Seq<char>)| vision_key(v);
        assert forall|y: VisionNode| #[trigger] k(vv(y)) == y.key() by {}
        lemma_isort_map(pre@, vv, k);
    }
    r
}

// ── PRD status ───────────────────────────────────────────────────────────────

/// The status, repo URL and repo path derived for a PRD whose manifest entry
/// is `e`, given whether the entry's repo path exists on disk: no entry is
/// `Drafted`; a non-empty repo path that is on disk is `Shipped`; any other
/// entry is `InFlight`.
pub open spec fn status_of(e: Option<BuildManifestEntry>, on_disk: bool) -> (PrdStatus, Seq<char>, Seq<char>) {
    match e {
        None => (PrdStatus::Drafted, Seq::empty(), Seq::empty()),
        Some(e) => {
            let path = text_or_empty(e.output_repo_path);
            let url = text_or_empty(e.output_repo_url);
            if path.len() > 0 && on_disk {
                (PrdStatus::Shipped, url, path)
            } else {
                (PrdStatus::InFlight, url, path)
            }
        },
    }
}

/// The entry behind an optional reference.
pub open spec fn entry_of(e: Option<&BuildManifestEntry>) -> Option<BuildManifestEntry> {
    match e {
        Some(x) => Some(*x),
        None => None,
    }
}

fn clone_or_empty(o: &Option<String>) -> (r: String)
    ensures
        r@ == text_or_empty(*o),
{
    match o {
        Some(s) => s.clone(),
        None => String::new(),
    }
}

/// The status, repo URL and repo path of a PRD whose manifest entry is
/// `entry`, where `on_disk` tells whether the entry's repo path exists.
pub fn status_for_entry(entry: Option<&BuildManifestEntry>, on_disk: bool) -> (r: (PrdStatus, String, String))
    ensures
        (r.0, r.1@, r.2@) == status_of(entry_of(entry), on_disk),
{
    match entry {
        None => (PrdStatus::Drafted, String::new(), String::new()),
        Some(e) => {
            let repo_path = clone_or_empty(&e.output_repo_path);
            let repo_url = clone_or_empty(&e.output_repo_url);
            let rp = chars_of(repo_path.as_str());
            if rp.len() > 0 && on_disk {
                (PrdStatus::Shipped, repo_url, repo_path)
            } else {
                (PrdStatus::InFlight, repo_url, repo_path)
            }
        },
    }
}

/// The repo path of a manifest entry, as text: empty when it has none.
pub open spec fn repo_path_of(e: BuildManifestEntry) -> Seq<char> {
    text_or_empty(e.output_repo_path)
}

/// The non-empty repo paths of the manifest entries `es`, in entry order.
pub open spec fn repo_paths_of(es: Seq<BuildManifestEntry>) -> Seq<Seq<char>>
    decreases es.len(),
{
    if es.len() == 0 {
        Seq::empty()
    } else if repo_path_of(es.last()).len() > 0 {
        repo_paths_of(es.drop_last()).push(repo_path_of(es.last()))
    } else {
        repo_paths_of(es.drop_last())
    }
}

/// The repo paths a disk check is owed for: the non-empty `output_repo_path`
/// of each manifest entry, in entry order.  The caller asks the disk about
/// each and hands the ones that exist to `derive_prd_status`.
pub fn repo_paths(entries: &Vec<BuildManifestEntry>) -> (r: Vec<String>)
    ensures
        strings(r@) == repo_paths_of(entries@),
{
    let mut out: Vec<String> = Vec::new();
    let mut i: usize = 0;
    while i < entries.len()
        invariant
            i <= entries@.len(),
            strings(out@) == repo_paths_of(entries@.take(i as int)),
        decreases entries@.len() - i,
    {
        assert(entries@.take(i + 1).drop_last() =~= entries@.take(i as int));
        assert(entries@.take(i + 1).last() == entries@[i as int]);
        match &entries[i].output_repo_path {
            Some(p) => {
                let pv = chars_of(p.as_str());
                if pv.len() > 0 {
                    let ghost before = out@;
                    out.push(p.clone());
                    assert(strings(out@) =~= strings(before).push(p@));
                }
            },
            None => {},
        }
        i = i + 1;
    }
    assert(entries@.take(entries@.len() as int) =~= entries@);
    out
}

/// Whether the repo path of the manifest entry `e` is among the paths
/// `present` found on disk; `false` without an entry.
pub open spec fn repo_on_disk(e: Option<BuildManifestEntry>, present: Seq<String>) -> bool {
    match e {
        Some(e) => strings(present).contains(repo_path_of(e)),
        None => false,
    }
}

/// The status, repo URL and repo path derived for the PRD `filename` from
/// the manifest map `m`, where `present` lists the repo paths found on disk.
pub open spec fn derived_status(
    m: Map<Seq<char>, BuildManifestEntry>,
    filename: Seq<char>,
    present: Seq<String>,
) -> (PrdStatus, Seq<char>, Seq<char>) {
    status_of(m.get(filename), repo_on_disk(m.get(filename), present))
}

/// Whether the text `p` is one of `present`.
fn present_contains(present: &Vec<String>, p: &Vec<char>) -> (r: bool)
    ensures
        r == strings(present@).contains(p@),
{
    let mut k: usize = 0;
    while k < present.len()
        invariant
            k <= present@.len(),
            forall|j: int| 0 <= j < k ==> present@[j]@ != p@,
        decreases present@.len() - k,
    {
        let c = chars_of(present[k].as_str());
        if chars_eq(&c, p) {
            assert(strings(present@)[k as int] == p@);
            return true;
        }
        k = k + 1;
    }
    assert(!strings(present@).contains(p@));
    false
}

/// Derive PRD status from the build-manifest map.
///
/// `present` lists the repo paths that exist on disk: a PRD whose entry has
/// a non-empty repo path among them is `Shipped`, one with any other entry
/// `InFlight`, one without an entry `Drafted`.
pub fn derive_prd_status(filename: &str, build_map: &BuildMap, present: &Vec<String>) -> (r: (
    PrdStatus,
    String,
    String,
))
    ensures
        (r.0, r.1@, r.2@) == derived_status(build_map@, filename@, present@),
{
    let entry = build_map.get(filename);
    let on_disk = match entry {
        Some(e) => {
            let p = match &e.output_repo_path {
                Some(p) => chars_of(p.as_str()),
                None => Vec::new(),
            };
            present_contains(present, &p)
        },
        None => false,
    };
    status_for_entry(entry, on_disk)
}

// ── PRD directory scan ───────────────────────────────────────────────────────

/// One entry of a directory listing: its file name, and its text when the
/// file could be read as UTF-8.
#[derive(Debug)]
pub struct DirFile {
    /// File name within the directory.
    pub name: String,
    /// Content of the file, `None` when it could not be read.
    pub content: Option<String>,
}

/// Whether a file name is a PRD's: `PRD-*.md`.
pub open spec fn is_prd_file(name: Seq<char>) -> bool {
    starts_with(name, "PRD-"@) && ends_with(name, ".md"@)
}

/// Whether the directory is an archive of retired PRDs (named `PRDs-archive`).
pub open spec fn archived_dir(dir: Seq<char>) -> bool {
    file_name(dir) == Some("PRDs-archive"@)
}

/// The PRD node a directory entry gives, when it is a readable PRD file,
/// where `present` lists the repo paths found on disk.
pub open spec fn prd_of_file(f: DirFile, m: Map<Seq<char>, BuildManifestEntry>, present: Seq<String>) -> Option<
    (Seq<char>, Seq<char>, Seq<char>, Seq<char>, Seq<char>, PrdStatus, Seq<char>, Seq<char>),
> {
    if !is_prd_file(f.name@) {
        None
    } else {
        match f.content {
            None => None,
            Some(c) => {
                let fm = frontmatter_of(c@);
                let st = derived_status(m, f.name@, present);
                Some((f.name@, fm.0, fm.1, fm.2, fm.3, st.0, st.1, st.2))
            },
        }
    }
}

/// The PRD nodes of a listing, in listing order.
pub open spec fn scan_views(
    fs: Seq<DirFile>,
    m: Map<Seq<char>, BuildManifestEntry>,
    present: Seq<String>,
) -> Seq<(Seq<char>, Seq<char>, Seq<char>, Seq<char>, Seq<char>, PrdStatus, Seq<char>, Seq<char>)>
    decreases fs.len(),
{
    if fs.len() == 0 {
        Seq::empty()
    } else {
        let rest = scan_views(fs.drop_last(), m, present);
        match prd_of_file(fs.last(), m, present) {
            Some(v) => rest.push(v),
            None => rest,
        }
    }
}

/// Whether `nodes` are the PRD nodes of the listing `fs` of directory `dir`,
/// sorted by filename: none when the directory is a PRD archive.
pub open spec fn scanned(
    dir: Seq<char>,
    fs: Seq<DirFile>,
    m: Map<Seq<char>, BuildManifestEntry>,
    present: Seq<String>,
    nodes: Seq<PrdNode>,
) -> bool {
    if archived_dir(dir) {
        nodes.len() == 0
    } else {
        nodes.map_values(|p: PrdNode| prd_view(p)) == isort_by(
            scan_views(fs, m, present),
            |v: (Seq<char>, Seq<char>, Seq<char>, Seq<char>, Seq<char>, PrdStatus, Seq<char>, Seq<char>)|
                prd_key(v),
        )
    }
}

/// Build the PRD nodes of the autobuilder directory from its listing.
///
/// Keeps readable `PRD-*.md` files, parses each one's frontmatter, joins
/// with the build-manifest map to derive status and repo info (`present`
/// lists the repo paths found on disk), and sorts by filename.  Never panics
/// on malformed PRD content.
pub fn scan_prd_nodes(
    autobuilder_dir: &str,
    files: &Vec<DirFile>,
    build_map: &BuildMap,
    present: &Vec<String>,
) -> (r: Vec<PrdNode>)
    ensures
        scanned(autobuilder_dir@, files@, build_map@, present@, r@),
{
    let dir = chars_of(autobuilder_dir);
    let archive = chars_of("PRDs-archive");
    match file_name_chars(&dir) {
        Some(f) => {
            if chars_eq(&f, &archive) {
                return Vec::new();
            }
        },
        None => {},
    }
    let ghost vv = |p: PrdNode| prd_view(p);
    let mut pre: Vec<PrdNode> = Vec::new();
    let mut i: usize = 0;
    while i < files.len()
        invariant
            vv == (|p: PrdNode| prd_view(p)),
            i <= files@.len(),
            pre@.map_values(vv) == scan_views(files@.take(i as int), build_map@, present@),
        decreases files@.len() - i,
    {
        let f = &files[i];
        assert(files@.take(i + 1).drop_last() =~= files@.take(i as int));
        assert(files@.take(i + 1).last() == *f);
        let name = chars_of(f.name.as_str());
        if starts_with_str(&name, "PRD-") && ends_with_str(&name, ".md") {
            match &f.content {
                Some(c) => {
                    let fm = parse_prd_frontmatter(c.as_str());
                    let (status, repo_url, repo_path) = derive_prd_status(f.name.as_str(), build_map, present);
                    let node = PrdNode {
                        filename: f.name.clone(),
                        title: fm.title,
                        vision: fm.vision,
                        build_target: fm.build_target,
                        build_into: fm.build_into,
                        status,
                        repo_url,
                        repo_path,
                    };
                    let ghost before = pre@;
                    pre.push(node);
                    assert(pre@.map_values(vv) =~= before.map_values(vv).push(vv(node)));
                },
                None => {},
            }
        }
        i = i + 1;
    }
    assert(files@.take(files@.len() as int) =~= files@);
    let r = sort_keyed(pre);
    proof {
        let k = |v: (Seq<char>, Seq<char>, Seq<char>, Seq<char>, Seq<char>, PrdStatus, Seq<char>, Seq<char>)|
            prd_key(v);
        assert forall|y: PrdNode| #[trigger] k(vv(y)) == y.key() by {}
        lemma_isort_map(pre@, vv, k);
    }
    r
}

} // verus!
