# repl_editor

What the REPL commands of an editor do: which parts of a buffer a run command
sends to a kernel, and what happens to the kernel sessions around it. The library
under `src/` is written in Verus, and what it does is proved.

- `text`, `point`: characters, strings and positions.
- `language`, `syntax`, `buffer`: languages, syntax trees, and the state of a
  buffer at one moment.
- `cells`: the code between the lines that start a cell.
- `statement`: the syntax node that is meant when the cursor stands in the text.
- `runnable`: the ranges that each run mode runs.
- `kernel`: kernel specifications, and the installation of `ipykernel`.
- `session`: the session of an editor, and the commands on it.
- `run`: the run command, from the selection to what the session executes.

The library decides; it does not touch the editor. Functions on sessions return
the actions to be done. Where a run goes by the syntax, the library names the
offset (`run_offset`), the parser's own cursor descends to it, and the library
takes the node at which it ended. `app/` reads the state of the editor, asks the library and
does what it says. It is part of the editor that it serves and builds only with
the crates of that editor.
