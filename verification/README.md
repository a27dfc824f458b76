# gvpe

The integer and bookkeeping core of the GVPE physics runtime, written in
Verus: every function under `src/` carries a `requires`/`ensures` contract
that Verus proves, and the laws that tie functions together stand as public
proof functions (`law_*`).

## Layout

- `src/handle.rs`, `src/marker.rs`, `src/tags.rs`: handles with their
  sentinels, marker traits, solver/LOD/determinism/shape tags.
- `src/memory/`: the fixed-size `Pool` (most recently released slot reused
  first), the generational `Slab`, and the byte accounting of the bump
  `Arena`.
- `src/graph/`: the knowledge-graph store (`Graph`), its bounded depth- and
  breadth-first traversals, connected components, and their laws
  (`traversal_laws.rs`, `bfs_reach.rs`).
- `src/scheduler/`: stage kinds, the four-stage sequential `Scheduler`, job
  handles and worker pools.
- `src/collision/`: the sweep-and-prune broad phase over order keys of box
  bounds, and the rim bookkeeping of the expanding polytope.
- `src/dynamics/`: `BodyStore`, the body and island bookkeeping of the
  dynamics world.
- `src/text.rs`: decimal and hexadecimal digit text used by the `to_string`
  methods.
- `tests/`: the tests, run against the compiled library.
- `app/`: the floating-point side (vector math, shapes, GJK/EPA, rigid-body
  integration, profiles and descriptors), typed arena allocation, error
  types with messages, `bytemuck` layouts and the C ABI, built on the
  library.
