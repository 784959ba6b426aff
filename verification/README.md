# kitt-native-engine

Deterministic, bounded repository primitives with Verus contracts: text search,
symbol extraction and indexing, hash-guarded source edits, windowed file reads and
listings, and compression of process output to a token budget.

## Layout

- `src/` — the verified library.
  - `output.rs` — process output compression by command family (search, build/test,
    version control, generic), with its budget laws.
  - `search.rs` — search hits, context and token budgeting, one file at a time.
  - `workspace.rs` — path checks, file windows and directory listings.
  - `edit.rs` — block and declaration edits guarded by SHA-256 hashes.
  - `syntax.rs`, `outline.rs` — tree-sitter trees read as node lists, and the
    declarations found in them.
  - `symbols.rs` — the per-file symbol index, symbol queries, references and
    dependency edges.
  - `engine.rs` — the engine over one repository.
  - `language.rs`, `text.rs`, `digest.rs`, `pattern.rs`, `ordering.rs`, `tally.rs`,
    `model.rs` — languages, text operations, hashes, regular expressions, sorting,
    counting and shared types.
- `app/` — the file system around the engine (`repository.rs`), the `kitt_native`
  Python extension (`python.rs`), serializable response types (`wire.rs`) and the
  `kitt-toolbox snapshot` command (`main.rs`, `snapshot.rs`).
- `tests/` — tests of the library.

The library never touches the file system: the caller resolves paths, walks the
repository, reads files and writes the bytes that an edit returns; the library decides
what to read, what to return and what to write.
