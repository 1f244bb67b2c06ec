# code_editor

A small VS Code-style code editor whose logic is a Verus-verified library.

- `src/` is the library. Each module states its behaviour in `requires` /
  `ensures` over mathematical models (`Seq`, `Map`, spec functions) and
  Verus proves it:
  - `text`, `paths`: characters, UTF-8 byte offsets, whitespace, paths;
  - `tabs`, `app`: buffers, the tab bar and the menu actions;
  - `find`, `search`: find and replace in a buffer, find in files;
  - `editor`, `explorer`: cursor lines and columns, the explorer's order;
  - `terminal`: what the terminal shows of a shell's output;
  - `lsp`, `completion`, `problems`: language-server bookkeeping and panels;
  - `git`, `scm`: git status as the source-control panel lists it.
- `app/` is the program around it: the egui window, file and process I/O,
  git through libgit2, language servers and the pseudo-terminal.
- `tests/` runs the library on concrete inputs.
