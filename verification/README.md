# dre

A keyboard-driven diagram editor for the terminal: a tree of boxes, built,
labelled and coloured one key at a time, with undo, saved to a `.dre` file and
exported as SVG.

The library is written in Verus. Its functions carry contracts over
mathematical models of the data, and Verus proves that the code meets them.
Four small wrappers around outside code are trusted rather than proved, and
their contracts say what is assumed of them: `kitty::zlib` (flate2's zlib
encoder), `kitty::base64` (the base64 crate's standard engine),
`text::push_char` (`String::push`) and `cli::with_extension`
(`Path::with_extension`).

## Layout

- `src/` — the verified library.
  - `diagram`, `state`, `command_mode`, `insert_mode`, `save_prompt_mode`,
    `wf`: the document, the editor's state, and what each key does to it.
  - `layout`, `composer`: where each box, label and arrow goes on the grid,
    and how the screen is split into areas.
  - `render/`: the SVG drawing, the terminal frame and its sprites, the
    status line.
  - `canvas`, `cells`, `kitty`: pixel canvases and the Kitty graphics
    protocol that sends them to the terminal.
  - `file_document`, `v0`, `cli`, `filesystem`: what is saved and opened,
    the text outline format, and the command line.
  - `editor`: the decisions of the editing loop (following the selection,
    when to save).
  - `tree_editor`, `tree_layout`: the box-tree editor with integer colours
    and index paths, and its grid layout.
  - `laws`: properties that span several operations, proved.
- `tests/` — tests run against the compiled library.
- `app/` — the program around the library: the terminal, files, the XML
  format, fonts and rounded corners.

## Keys

In command mode, `b` adds a child box, `s` a sibling, `h`/`j`/`k`/`l` move the
selection, `i` and `I` edit or rename a label, `c`, `C`, `f`, `F` and `r`
change colours, fills and corners, `u` undoes the last change, and `q` saves
and quits (or asks where to save).
In insert mode, printable keys type, Backspace deletes, Enter finishes the box
and adds a child, and Escape returns to command mode.
