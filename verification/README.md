# mindmap

A desktop mind-map editor whose core is verified with Verus.

- `src/` is the verified library: the arena tree of nodes and its structural
  operations (`tree`, `walk`), undo/redo (`history`, `restore`), the editing
  commands behind shortcuts, menus and drag-and-drop (`commands`, `editing`,
  `menu`, which also holds the table of global shortcuts), search and replace (`search`, `text`), selection, the clipboard,
  depth colours, automatic folding of large maps (`autofold`), the recent-files
  list, and the FreeMind, Markdown and OPML formats (`freemind_read`,
  `freemind_write`, `export`, with `read_back` stating what reading gives back
  of a written map). Every function there carries a contract that Verus
  proves; the `lemma_*` proof functions state laws that span several
  operations, such as what an undo gives back.
- `app/` is the window around it (egui/eframe): layout and drawing, input
  handling, file dialogs and file I/O, and the SVG/PNG pictures.
- `tests/` exercises the library on concrete maps.
