# dioxus-workbench

A dockable panel workbench for Dioxus: tabbed panel groups (tiles) in a
binary tree of resizable splits, with drag-to-dock, keyboard equivalents,
reconciliation against a panel registry, and persisted layouts.

The layout model and every decision the workspace makes about it are a
Verus-verified library; the Dioxus components around it are ordinary Rust.

## Layout

- `src/` — the verified library.
  - `ids` — panel, tile and split identifiers, and decimal numbering.
  - `model` — tiles, the layout tree, dock zones, placements, errors, and
    the mathematical model (`NodeModel`) every contract speaks of.
  - `tree` — each tree operation as a spec function; `ops` — the
    executable versions, proved to compute them.
  - `layout` — `PanelLayout`: reconciliation, docking, splitting, moving,
    closing, id allocation, and the first-open arrangement from homes.
  - `validate` — validation of hand-built and persisted layouts, with the
    message that names the first violation.
  - `wf` — well-formedness and the lemmas about each operation.
  - `laws` — what holds across operations: validation is well-formedness;
    reconciliation registers exactly the registry, leaves placed panels in
    place, sends arrivals home, removes only unclaimed empty tiles, and
    settles; docking, moving, splitting and closing keep a layout valid
    without losing a panel and leave every uninvolved tile as it was.
  - `closing` — finishing closes once the registry confirms them: what
    stays pending, the layout that results, and where focus goes.
  - `interaction` — keyboard mappings, splitter steps, DOM ids, and the
    edge-triggered programmatic activation.
  - `strings` — the default user-facing strings.
- `app/` — the Dioxus components (`PanelWorkspace`, `Workbench`,
  `ActivityRail`, `StatusBar`, …), DOM plumbing, and JSON persistence
  (`LayoutPersistence`).
- `tests/` — behaviour tests of the library.

Split ratios are integers: the first child's share in millionths, clamped
to `100_000..=900_000`. The JSON form carries them as fractions.
