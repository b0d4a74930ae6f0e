# scarlet

Parts of the Scarlet programming language and of the worlds that are drawn with it, written in
Verus and proved.

- `core_ir`: the core language, and the passes that count references: drops, reuse of cells,
  and the globals that are kept. `core_ir::balance` proves that every value is given up once,
  and `core_ir::second_pass` that the drop pass, run again, changes nothing.
- `vm`: binaries of any number of bits on a counted heap, numbers and floats in them, and the
  GPU objects that a run holds. The run hands a platform only what the platform can take.
- `dis`: a program as text. `embed`: the files that a program embeds. `version`: its stamp.
- `lsp`: the language server, from messages to what is done about them.
- `voxel`, `lighting`, `meshing`: block worlds, the light in them, and their faces. The light
  that is flooded from scratch and the light that is mended after an edit are both proved to be
  the one light that the world has.
- `window`: what a window's events come to, frame by frame.

Each function's contract stands with it. Laws that relate several functions are public proof
functions with the law in words above them.

`app/` is the program around the library, in ordinary Rust: files, streams, floats, and the
calls that only the system can make. `tests/` runs the library on given values.
