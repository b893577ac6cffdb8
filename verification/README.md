# atelier

The document core of Atelier, an image editor that keeps raster layers,
vector layers, adjustment layers and groups in one layer tree, with undo.
The core is written in Verus: every function states what it does in
`requires` / `ensures` over a mathematical model of the data, and Verus
proves the code against it.

## What is proved

- **Layer tree** (`document`, `node`): parent links and child lists agree,
  the root has no parent, there are no cycles, and ids are never reused.
  Insert, remove, move, copy and walk are stated over a map from ids to
  nodes.
- **Commands** (`command`): every edit is a command; applying it and then
  reverting it gives the document back, and reverting and re-applying walks
  between exactly the same states.
- **History** (`history`): undo and redo over a bounded stack, merging of
  slider drags, jump to a position, the saved-state marker; each editing
  operation (`editing`, `compound`) records one step with its label (a path
  edit may merge into the one before), so undo right after an edit gives
  the previous document back.
- **Tiles and masks** (`tile`, `mask`): sparse 256×256 tiles, pixel access,
  tile-granular and pixel-exact bounds, shifted extraction, coverage masks
  and their combination, the marching-ants outline.
- **Compositing plan** (`ops`): the order in which layers, groups and
  clipping runs are composited.
- **Container format** (`atl`): schema checks and the byte layout of tile
  and mask parts.
- **Colour and images** (`color`, `image_io`): calls into `lcms2` and
  `image` behind small wrappers whose contracts say what those crates
  document.

## Layout

- `src/` — the verified library.
- `tests/` — tests that run the library with the outside crates linked.
- `app/` — a small command-line program around the library: reading and
  writing `.atl` files (zip + JSON), decoding and encoding images, and a CPU
  compositor for export.

Verify with `verus` on `src/lib.rs` (the outside crates `lz4_flex`, `image`
and `lcms2` must be built first); run the tests with `cargo test`.
