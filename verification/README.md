# meshviewer

A desktop viewer for 3D model files (glTF, FBX, OBJ, STL, PLY, DAE, 3DS),
built with Bevy and egui.

- `src/` is the library: the viewer's decisions and data structures, each
  function with a contract checked by Verus. It covers recognising model
  files, path handling as `std::path::Path` does it on Unix (the viewer targets
  macOS and other Unix-like systems), display
  formatting of counts, byte sizes and long paths, the file-browser tree
  (lazy loading, listing order, filters, expansion), the UI panel state and
  keyboard shortcuts, the dialog coordination, the render-mode plans, the
  loading progress, and the skeleton topology of imported models.
- `tests/` runs the library on concrete inputs, including comparisons with
  `std::path::Path` and with `f64` formatting.
- `app/` is the program: windowing, rendering, model import through assimp,
  native dialogs, the file system, settings persistence and the egui
  interface. It calls the library for every decision listed above.
