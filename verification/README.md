# sokoban

A Sokoban game engine whose behaviour is specified and proved with Verus.

* `src/` is the verified library: reading levels (plain text and the XML-based `.slc`
  format), the rules of movement, undo and redo, path finding for the worker and for crates,
  macros, the bookkeeping of solved levels, the mapping of keys and clicks to commands, what
  the screen shows after each event, and the conversion between levels and raster pictures.
  Every public function carries a contract; the laws of the game (undoing what a move did,
  round trips of the textual formats, shortest paths, …) are public proof functions.
* `tests/` runs the library on concrete levels.
* `app/` is the program around it: the command line, files on disc, saved games in CBOR and
  JSON, the OpenGL window, and the `image-to-level` tool.
