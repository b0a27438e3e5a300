# editor

The core of a text editor, written in Verus. The library's own logic carries contracts
that Verus proves. Where it calls an outside crate (the `editor-core` piece table,
`unicode-segmentation`, `zstd`, `chrono`, `serde_json`, `syn`, `tree-sitter` and its grammars)
or a std function that vstd does not specify, the call sits in a small function marked
`#[verifier::external_body]`: its contract is believed, not proved, and its doc comment
says what it claims of the outside function.

- `src/` is the verified library.
  - `edit.rs`: the text buffer (on the `editor-core` piece table, `storage.rs`) with
    undo and redo, and its line-start cache.
  - `cursor.rs`: selections, multiple cursors and cursor movement (word pieces from
    `unicode-segmentation`).
  - `history.rs`: the timestamped edit history with zstd-compressed snapshots and
    travel to a sequence number, a time or a version.
  - `editor.rs`: the editor that ties buffer, cursors, history and project together.
  - `lsp.rs`: conversion between character offsets and LSP positions, message framing
    and header reading, and reading a language server's JSON replies.
  - `project.rs`: the project file tree (insertion and sorting), Git status data, the
    steps of the search for a repository root and the open document's state.
  - `syntax.rs`: languages, symbol kinds, highlight styles; tree-sitter parsing into
    plain trees, symbols, the enclosing function, renaming, highlight captures; and
    character/byte/position conversions.
  - `api.rs`: the API listing: the public functions of a source file parsed with
    `syn`, and the layout of the listing.
  - `text.rs`: character-level helpers and the line model.
- `app/` is the I/O around it: the language-server process, file and Git access, the
  live tree-sitter tree behind node handles, serializable copies of the data types,
  and the API listing tool.
- `tests/` exercises the library.
