# md_viewer

The core of a Markdown viewer, verified with Verus.

- `src/files.rs` and `src/files/`: the tree of Markdown files under a folder
  (which entries belong to it, their order, the file to open first).
- `src/markdown/`: the display model (`model.rs`), the CommonMark document as
  comrak parses it (`ast.rs`), the building of display
  blocks (`parser.rs` and `parser/`), and rendering decisions (`render.rs`).
- `src/viewer.rs`: the viewer state and how finished loads update it.
- `src/text.rs`: UTF-8 byte lengths, decimal numerals, a final newline.
- `app/`: the program around the library: command line, file system, and the
  gpui window.
