# zee-edit

The editing core of a terminal text editor, verified with Verus: cursors and
their movements over a rope of text, grapheme-aware deletions and insertions,
rectangle (column) selections with copy, cut and delete, the edit tree that
undo and redo walk, its layout for drawing, the rectangle kill store, and the
buffers that turn the editor's messages into changes and into effects for the
world outside.

Layout:

- `src/text.rs`: the model of a rope (`rope_text`), lines and UTF-8 offsets,
  and the calls into `ropey`.
- `src/graphemes.rs`: grapheme boundaries and display widths (calls into
  `unicode-segmentation` and `unicode-width`), visual columns and their
  mapping to char ranges, trailing whitespace.
- `src/diff.rs`, `src/cursor.rs`, `src/movement.rs`: diffs, cursors, edits and
  movements.
- `src/tree.rs`: the edit tree (children held in a `smallvec`), undo and redo,
  and the layout of the tree for drawing.
- `src/rectangle_kill.rs`: the last rectangle kill and its peek.
- `src/buffer.rs`: buffers and the messages they handle.
- `app/lib.rs`: what stays outside the proofs: the clipboard, the log, saving
  to disk on a thread, the shared lock around the kill store, git
  repositories and the geometry crate's vectors.
- `tests/`: the tests, run against the compiled library.

Cursor movement covers characters, lines and the ends of lines and of the
buffer; moving by words or by paragraphs is not provided.
