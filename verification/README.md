# konnect

Text-level editing of KiCad boards and schematics, written in Verus.

* `src/` is the library. Every function states what it returns, and Verus proves it.
  * `text`, `scan`, `sexp`, `names` — texts, the paren scanner, s-expressions, sorted name sets
  * `netlist`, `board`, `pcb_sync` — updating a board's nets from its schematic
  * `symbols`, `component_edit`, `annotation`, `replace` — editing placed symbols
  * `placement`, `connected`, `pins`, `components` — placing, dragging and describing symbols
  * `live_view` — what to do on screen after a document was written
  * `tools` — the table of tools with their parameters
  * `structure` — how edits act on the structure of a file
  * `pcb_laws`, `edit_laws`, `field_laws`, `anchor_laws`, `rename_laws` — what a sync, an edit, a
    custom field, a placement and a request of several changes promise as a whole
* `tests/` runs the library on concrete files.
* `app/` is ordinary Rust around it: JSON arguments and replies, files, coordinates, KiCad itself.

Positions are counted in characters. Two items are trusted rather than proved: `String::push` of the
standard library, and the text that `serde_json` writes for the viewer's focus message.
