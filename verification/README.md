# sketchlayer

A transparent drawing overlay for stylus sketching: strokes are drawn over the
desktop, erased by pixel or by whole stroke, undone and redone, and exported
as SVG or PNG files cut along a frame grid.

## Layout

- `src/` is the verified editing core:
  - `state/geometry.rs`: cell ranges and the spatial index of stroke cells;
  - `state/history.rs`: strokes as the editing logic sees them, undoable edits,
    sorting by id;
  - `state/app_state.rs`: the editing state and its operations (drawing,
    vector erasing, undo, redo, clearing, loading, history capping);
  - `state/coherence.rs`, `state/transitions.rs`, `state/laws.rs`,
    `state/index_laws.rs`: the state invariant, proofs that every operation
    keeps it, and the undo/redo and index laws;
  - `events/`: keyboard shortcuts, the stylus press/motion/release decisions,
    and the law of a whole eraser gesture;
  - `ui/`: redraw planning, the cache laws, and menu helpers;
  - `render/export.rs`: which grid cells an export writes;
  - `config.rs`: how configured paths are resolved.
- `app/` is the GTK program around it: windows, input controllers, cairo
  rendering, files, clipboard, and everything measured in floating point
  (ink points, bounding boxes, zoom), which it turns into grid cells before
  handing them to the library.
- `tests/` runs the library on concrete sessions.
