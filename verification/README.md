# zoll

A parser for the Zoll markup language, verified with Verus.

- `src/ast` — the trees: `MarkupDoc`, `MarkupNode`, `LineAST`, `MarkupStyle`,
  and the table of paired markers. Each tree has a mathematical model
  (`Node`, `Line`) that the contracts speak of.
- `src/parser` — `parse_line` (one line to a `LineAST`), `parse_inline`,
  `merge` (lines to a document) and `parse_full`.
- `src/incremental` — `IncrementalDoc`: the text, its line starts, one AST
  per line and the merged AST; `edit` reparses only the lines it touched,
  `edit_visible` only as far as a `Viewport` reaches.
- `src/engine` — the byte-span engine: a block scan for the bytes of
  interest (`simd`), the line map, the marker classifier (`resolver`), the
  span store, the editor handles (`api`) and operation counters (`timing`).
- `src/viewport.rs` — the visible range of lines.
- `app/` — printing of the operation-count report.

Every function in `src/` carries a contract that Verus proves.
