# mdview

A console markdown viewer, verified with Verus.

Markdown is parsed with `pulldown-cmark` into events; the events are laid
out into styled display lines that fit a given width (paragraphs wrap on
whitespace, lists carry their markers and indents, tables get box-drawing
borders and shrink to fit); the lines are shown in a pager with scrolling
and case-insensitive search, or printed with or without ANSI colors.

Layout:

- `src/` — the library. Every function has a contract; Verus proves all of
  them except the small `external_body` wrappers around calls into
  `pulldown-cmark` and `std`, whose contracts are trusted:
  - `text.rs` — decimal digits, characters of a string, spaces.
  - `render.rs` — colors, styles and their ANSI escape sequences, styled
    runs and lines, display widths.
  - `layout.rs` — inline blocks, word wrapping, list markers and indents.
  - `table.rs` — column widths, shrinking, cell packing, table lines.
  - `cmark.rs` — the parser's events, read through `pulldown-cmark`.
  - `parse.rs` — laying out a whole document from its events.
  - `search.rs` — case-insensitive matching and match ranges.
  - `viewer.rs` — the pager's state and its reaction to keys, the mouse
    and resizing.
  - `screen.rs` — screen composition, the status line, printed output.
  - `cli.rs` — command-line options and the choice of colors.
- `app/` — the program: terminal setup, reading input, the event loop.
- `tests/` — tests of the library.

The laws of the library (wrapped lines fit, no word that fits is split,
tables fit the terminal, scrolling stays in bounds, search finds the
nearest match, and others) are public proof functions named `law_*`.
