# stitch

stitch turns a project folder into one text document for pasting elsewhere: a tree of
the selected files, notes on the filters in effect, and the selected files' contents,
optionally filtered (comment lines by prefix, a removal pattern, Rust comments, Rust
function bodies reduced to signatures).

The library in `src/` is written in Verus; every function carries a contract, and Verus
proves the code against it.

- `chars`, `text`, `strip`: character helpers, comma-separated lists, extension filters,
  the removal pattern, blank-line collapsing, and removal of prefixed comments.
- `paths`: path components, `/`-rendering, ancestry, lexical normalisation, extension
  matching, relative keys, and whether a file-system change matters.
- `hierarchy`, `hierarchy_laws`: rendering paths as a Unicode tree and reading such a tree
  back, with the proof that reading back a rendered tree gives its paths.
- `tree`, `selection`, `session`: the project tree, explicit check states, the rows of the
  tree view, pasted listings, profiles and the choices of an editing session.
- `scan_trace`, `tree_scan`: what a whole directory scan builds from the listings it reads,
  and the scan itself, driven one listing at a time, with the proof that its tree is
  exactly that one.
- `rust_comments`, `rust_signatures`, `rust_filters`, `slint_filters`, `wildcard`: the
  per-language filters and the signatures filter.
- `workspace`: workspace and profile locations, names, listing and `.gitignore` upkeep.
- `output`, `ui_state`: assembling the document, the statistics and display text, and the
  state machines of generation requests and rescans.

`app/` is a small command-line front end: `stitch <project-folder> [listing-file]` scans
the folder, selects every kept file (or the files a pasted listing names) and prints the
document.
