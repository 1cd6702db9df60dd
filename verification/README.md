# routefinder_api

A route-planning service over a navigation database: given two airports it
plans a route along the airway network (A* search guided by a chord
heuristic), and answers queries about airports, procedures, waypoints and
airways.

## Layout

- `src/` — the verified library (Verus).
  - `graph.rs` — the airway graph: vertices, edges, route names, name index,
    fixed-point positions and the integer chord distance; leg extraction.
  - `search.rs` — A* search with its proof: the result is a walk of the
    returned cost through distinct vertices, found exactly when one exists,
    and the cheapest when the heuristic is consistent; a check of that
    consistency, and the unguided search that route planning falls back to
    when it fails.
  - `finder.rs` — the airway network keyed by database ids, joining airports
    to their procedure fixes, route planning, route text and legs.
  - `database.rs` — the pure steps between database rows and answers:
    BCD frequency decoding, configuration rows, terminal links, airway
    chain ordering, procedure headers.
  - `models.rs` — shared data types.
- `app/` — the HTTP service and the SQLite access: I/O, serialisation, and
  the floating-point geometry (great-circle distance, bearings, conversion
  of latitude/longitude to fixed-point positions).
- `tests/` — tests of the library.

Distances inside the library are whole thousandths of a nautical mile.
