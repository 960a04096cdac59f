# pdf

A small PDF toolkit whose logic is verified with Verus: page-range
expressions, a minimal PDF writer and inspector, and the operations built on
them (extract, remove, rotate, reorder, split, merge with optional index
navigation, metadata, blank documents), together with the reports and error
lines its command line prints.

## Layout

- `src/` — the verified library.
  - `ranges.rs` — page-range expressions (`1,3-5,8`), deduplicated in
    first-mention order.
  - `write.rs`, `links.rs`, `outlines.rs` — the writer: catalog, page tree,
    page objects, cross-reference table, trailer, metadata and navigation
    entries. Labels in navigation entries are written with `\`, `(`, `)`,
    `|` and line breaks as octal escapes (`\051` for `)`), so a file name
    cannot end an entry or split its fields.
  - `inspect.rs` — reading a document back: version, page count, encryption
    marker, title, author, page rotations.
  - `ops.rs`, `split.rs`, `merge.rs` — the page operations.
  - `readback.rs`, `rotations.rs` — what written text holds, marker by marker.
  - `laws.rs` — what the operations promise together: what is written reads
    back as written.
  - `error.rs`, `report.rs`, `cli.rs`, `shell.rs` — errors, reports, commands
    and the interactive shell's decisions.
  - `text.rs` — characters, trimming, searching, decimal numbers.
- `tests/` — tests of the library.
- `app/` — the `pdf` command: argument parsing, files, the shell loop.

Documents enter the library as a `PdfSource` (a path and the bytes read
from it, or the error reading gave) and leave it as bytes; the command line
does the reading and writing.
