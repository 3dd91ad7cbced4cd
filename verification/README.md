# sim_mechanics (verified discrete core)

The discrete part of a rigid-body mechanics engine, written in Verus and
proved against its contracts:

- `body` — body kinds, shape handles and the append-only shape store, and the
  two-sided collision-group filter.
- `collision` — which broadphase candidates reach the narrowphase, the
  narrowphase routine of each shape pair, the box–box separating-axis
  numbering and axis cache, and the numbering of contact features (box faces
  and edges, polytope vertices, compound parts).
- `sleep` — a union–find whose roots are the smallest member of their set,
  contact islands (connected components of dynamic–dynamic contacts, each
  labelled by its smallest body index), and the island-wide sleep decision.
- `events` — contact start/end events from one step to the next.
- `contact` — the warm-start cache of the contact solver: inheritance decision
  and garbage collection.
- `sketch` — edge-selection tables of 2D polygon booleans, stitching of the
  selected edges into walks, and the index bookkeeping of ear-clipping
  triangulation (loop ranges, hole bridging, ear removal), and the triangle
  list of an extruded prism.
- `hull` — horizon extraction and face replacement of incremental convex-hull
  construction, and vertex compaction of triangle lists.
- `gjk`, `soft_body` — simplex subset enumeration and rope topology.

Everything that decides by comparing floating-point values (integration,
narrowphase geometry, contact impulses, angle ranking) lies outside the
verified library. `app/` holds that side for the 2D sketch pipeline
(booleans, triangulation, extrusion), the convex hull and the sleep timers,
each calling into the library for its discrete steps. Tests are under
`tests/`.
