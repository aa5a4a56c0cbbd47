# dockviewers_core

The engine of a packed-grid tiling layout: tiles have a starting size, snap to an integer step
grid, never overlap once settled, and leave whitespace below. Panes tab together, tear apart,
resize from a corner grip, maximize, and the arrangement is stored as versioned JSON.

## Layout

- `src/` — the library, verified with Verus.
  - `model/group.rs` — a tile's tab strip.
  - `model/layout.rs` — grid geometry, the stable index sort and the settle, as mathematics with
    executable counterparts.
  - `model/packed.rs` — the packed grid: placing, resizing, reflowing, closing, dropping, and the
    pointer-to-target resolution, each with its exact contract.
  - `model/stable.rs` — when a reflow changes nothing.
  - `model/distinct.rs` — distinct group ids and panels, tallied, and the edits that keep them so.
  - `model/sizes.rs` — tiles honouring their minimum sizes.
  - `model/serial.rs` — the versioned envelope a layout is stored in.
  - `state.rs` — the gesture reducer: drags, corner resizes, the keyboard, the undo history and
    the view model a template renders, all in grid steps.
  - `config.rs` — keybinds, step counts and the responsive bands.
  - `unique.rs` — distinct identities across the reducer's layout and history.
  - `reload.rs` — the invariant under which saving and reloading in the same view gives the
    layout back unchanged, and how each operation keeps it.
  - `laws.rs` — properties relating several operations.
- `app/` — browser-side glue: pixel geometry and inline styles, the JSON encoding,
  `localStorage`, DOM tab measurement, host chords, and the Dioxus and Leptos bindings.
- `tests/` — unit tests, scenario tests of the reducer and a deterministic model fuzzer.
