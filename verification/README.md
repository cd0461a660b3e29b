# atlas

The wintermute PRD corpus as a queryable graph of typed nodes — visions, PRDs,
and shipped repos — with dependency edges between PRDs, a corpus lint
(`doctor`), and DOT / Mermaid / tree renderings.

In the library (`src/`) every parser, the graph load, the edge extraction and
index, the doctor lint, the query outputs and the renderers carry contracts
stated over `Seq<char>` models, with machine-checked proofs.  Reading files,
the environment and the command line, and JSON, live in the binary (`app/`),
which hands the library plain values.  Among those values are the answers of
the disk: the binary asks which of the build manifest's repo paths
(`parsers::repo_paths`) exist, and a PRD is `shipped` exactly when its own
entry's non-empty repo path is among them.

## Collections

Every key in the graph is text (a PRD filename, a vision slug), and maps or
sets keyed by text leave too little provable, so the library keeps its
collections in `Vec`s whose contracts state what the map or set would have
given:

- `parsers::BuildMap`, the build manifest by PRD filename, is a list of
  (filename, entry) pairs whose view is the map in which later pairs win;
- `edges::EdgeIndex` holds, per endpoint, the positions of its edges;
- where a sorted set or sorted map of names is wanted (repo URLs, tree
  roots, dependency labels), a `Vec` kept sorted and free of repeats;
- where a hash set of names is wanted (the known PRD filenames), a
  `Vec<String>` searched in order.

## Layout

| module    | contents                                                              |
|-----------|-----------------------------------------------------------------------|
| `text`    | character-sequence primitives (trim, split, lines, find, replace, …)  |
| `paths`   | Unix path text: file name, extension, join                            |
| `order`   | stable sorting by text keys and the laws of that order                |
| `perm`    | what filtering and sorting keep when their input is reordered         |
| `model`   | vision, PRD, repo and edge nodes                                      |
| `parsers` | source resolution, PRD frontmatter, REPOS.md, manifests, PRD scan     |
| `edges`   | `Depends on:` and gossip `Order:` edges, their merge, the edge index  |
| `graph`   | the graph and its load from what the sources held                     |
| `doctor`  | the five divergence classes, exit code, text report                   |
| `output`  | `nodes`, `show`, `deps`, `blocked` text                               |
| `render`  | DOT, Mermaid and tree renderings                                      |

## Source resolution

| path           | env override           | default                          |
|----------------|------------------------|----------------------------------|
| PRDs + visions | `ATLAS_AUTOBUILDER`    | `~/wintermute/autobuilder`       |
| build manifest | `ATLAS_BUILD_MANIFEST` | none (no manifest unless set)    |
| dream manifest | `ATLAS_DREAM_MANIFEST` | none (no manifest unless set)    |
| repos index    | `ATLAS_REPOS`          | `~/wintermute/REPOS.md`          |
| gossip notes   | `ATLAS_GOSSIP`         | `~/wintermute/notes/gossip.md`   |
