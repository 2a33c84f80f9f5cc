# gudf

Structural and line-based diffing of text, JSON, TOML, YAML and source code,
with unified, inline, JSON and JSON Patch output, three-way merge, semantic
move/rename detection, diff pipelines, annotations and mutation chains.

The library in `src/` is written in Verus: every function carries a contract
over a mathematical model (`Seq`, `Map`, spec functions and views), and the
laws the library keeps (what undo and redo give back, what a merge resolves,
when a diff reports a difference, that patching a document with its diff
rebuilds the new one) are stated and proved as public proof functions named
`law_*`; `src/rebuild.rs` holds those for JSON, YAML and TOML patches.

- `src/` — the verified library. Calls into serde_json, serde_yaml, toml,
  similar, sha1 and tree-sitter stand behind small wrappers whose contracts
  name what those crates compute.
- `app/` — the `gudf` command line: argument parsing, file and directory I/O,
  and colours.
- `tests/` — tests of the library on concrete values.
