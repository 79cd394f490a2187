# dinosaur

A desktop viewer for very large CSV, TSV, newline-delimited JSON and text
files. The file is memory-mapped, a sparse line index is built over its bytes
in parallel, and only the rows in view are parsed and drawn.

The core of the viewer is a Verus library whose functions carry contracts
that Verus proves:

- `src/lines.rs` — the sparse line index (`LineIndex`) and the mathematical
  model of lines in a byte sequence it is proved against.
- `src/format.rs` — format detection, header and row parsing (CSV through the
  `csv` crate, JSON lines through `serde_json`).
- `src/search.rs` — forward and backward byte search, with or without ASCII
  case folding.
- `src/table.rs` — the table model of an opened file: row cache, row search
  with wrap-around, copying a selection as tab-separated text.
- `src/selection.rs`, `src/viewer.rs` — selection, scrolling, "Go to" and the
  find bar.
- `src/text.rs`, `src/bytes.rs` — number rendering and the `memchr` scans.
- `src/laws.rs` — properties that span several functions.

`app/` holds the window (eframe/egui), file opening and memory mapping, the
background indexing thread and the pixel layout; `tests/` exercises the
library on concrete inputs.
