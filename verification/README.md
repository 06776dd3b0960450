# kingdom-citymap

The build stage of a map that draws a codebase as a city: every folder a
ward, every file a holding, roads between them. This crate is the part of
it that decides things, written in Verus and proved against its contracts.

## Layout

- `src/` — the verified library.
  - `model`, `paths`, `classify`, `facts` — the tree a scan produces, what
    each file is for, and the facts counted from its text.
  - `imports`, `aliases`, `references` — reading import lines as paths,
    the names each file answers to, and how many files lean on each.
  - `scan`, `tree` — which files are kept, how each becomes a node, and how
    the tree is planted, ordered and totalled.
  - `layout`, `scene`, `scenery`, `wayfinding`, `manifest`, `captions` — the
    integer rules behind how holdings and wards look and what the manifest
    says about them.
  - `routes`, `traffic` — the cheapest right-angled route across a grid of
    blocked cells, and how much traffic each road of the road tree carries.
  - `viewer` — the viewer's decisions that draw nothing, among them which
    slice of a world is raised next.
  - `text` — characters, lines, splitting and ordering of strings.
- `tests/` — the library exercised on concrete values.
- `app/` — what cannot be verified: walking and reading the disk, and the
  floating-point grid a road is planned on.

Public `law_*` proof functions state what holds across calls: a truncated
scan keeps the largest files, ordering only moves nodes, folders carry the
sums of their files, a repeated import counts once, a kerb is always darker
than its ground, and so on.
