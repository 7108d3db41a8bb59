# pulp_reader

The reader application's state logic, verified with Verus.

- `src/app/` — the application shell (screen, home menu selection, file browser entries and
  selection, reader session) and the home, browser and reader screens' reactions to input.
- `src/apps/reader_state.rs` — book formats, book ids (FNV-1a of the normalized path), the
  one-line text formats of the per-book records (recent book, progress, metadata, bookmarks,
  bookmark index, theme), bookmark jump messages, and the storage paths.
- `src/fields.rs` — field escaping, `|`-separated lines, splitting and line breaking.
- `src/text.rs` — characters, decimal numbers, parsing and trimming.

Each record type has a law stating that decoding its encoded line gives the record back.
