# typstty

The editing core of a small editor for Typst documents, written in Verus.

- `src/text_buffer`: the document as lines of text with a cursor in
  character space, its editing and navigation steps, loading and saving.
  `model.rs` holds the mathematical model (`LinesView`) that every step's
  contract is stated over, and the laws that relate the steps.
- `src/editor`: undo/redo history (`EditorState`), the keyboard commands of
  one frame, Typst syntax highlighting (through `typst-syntax`) and the
  cutting of a line into coloured segments.
- `src/models`: the buffer of the terminal front end, whose steps return the
  terminal commands that redraw what changed.
- `src/strings.rs`: UTF-8 facts and the `std` string operations used, each
  with its contract.
- `app/`: the egui window, file I/O and the terminal driver around the
  library.

Not included: the lexer's `Token` type. Its module is never declared by
the program, and the `TokenKind` type it refers to does not exist anywhere,
so it is dead code that cannot be built.

`eframe`, which the window needs, is named by `app/` but is not among the
crate's dependencies: its sources are larger than the build here accepts.
