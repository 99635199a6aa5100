# bth_rigging

Engineering core of a pick-planning tool for round-sling rigging, written in
Verus. The functions in `src/` carry contracts that Verus proves, except a
few small wrappers around outside calls (a random UUID, the system clock,
UUID text, `String::push`), whose contracts are trusted; `now_millis`
reads the clock, so its value is not stated, only what is done with it.

## Layout

- `src/catalog*` — WSTDA-RS-1 polyester roundsling ratings, Crosby-style
  shackle ratings and bearing-width table, with their lookups.
- `src/calc.rs` — legs per hitch, apex shackle counts, endpoints a layer
  presents to the next, and the status stamp precedence of a layer.
- `src/layers/split.rs` — even split of a layer's slings onto the endpoints
  above (outer ends first), with conservation and evenness laws.
- `src/rig/*` — the rig graph: identifiers, node roles, body kinds, component ratings,
  parameter dependencies (cycles, unknown references, table findings),
  quantity algebra, structural validation (dangling references, placement,
  root, member shapes, connectivity), validation together with the
  parameter table, and the wiring of a layered pick (parameters, bodies,
  nodes, and members with their hardware) into a graph that always passes
  those checks. The graph's tables are plain vectors; that identifiers are
  keys (no two nodes, bodies or parameters share one) and that segment
  findings are of segment kinds is the `topology_wf` invariant, which
  validation requires. The wiring takes random version-4 identifiers, so
  it keeps that invariant whenever the drawn identifiers are distinct.
- `src/print.rs` — calc-package records and the file name they are saved
  under.
- `src/store/keys.rs` — point coordinates and hyperedge identifiers used by
  the database.
- `app/` — a command-line front end: storage in InfiniteDb, the
  floating-point tension, geometry and mat-bearing calculations, and the
  assembly of the printed sheets.
- `tests/` — tests of the library on concrete values.
