# orbitnav-core

Voxel navigation over a dense occupancy grid, with its integer logic verified by Verus.

A uniform grid of cubic cells, each free or solid, plus what a mover needs to cross it: which free
cells touch solid (SURFACE), which free cells reach each other (COMPONENTS), the `NAVD` dump format,
the bookkeeping of a worker pool, the handles a caller holds to its volumes, and the integer
decisions a route search makes before and after its float loop.

## Layout

- `src/` — the verified library (`orbitnav_core`). Each module states its model as spec functions
  and proves its executable functions against them:
  - `grid` — flat indexing, x fastest; index/cell round trip.
  - `occupancy` — solid bytes and the exact solid bounding box.
  - `surface` — the per-cell SURFACE arrays, the chunk split and the join, and the law that a
    chunked derive equals the serial one.
  - `components` — the two flood-fill labellings, and the law that the canonical (seed-scan)
    labelling is unique, so frontier order is unobservable.
  - `volume` — occupancy plus the five derived arrays; the component draw; derive uniqueness.
  - `navd` — the dump reader and writer, with round-trip laws in both directions.
  - `jobs` — the job table: ids, states, pickup, finish, cancel, drop, stale results.
  - `registry` — volume handles and generations; publishing makes older results stale.
  - `astar`, `snap`, `voxelize` — search outcomes and their integer decisions, snap radii, mesh
    sidedness.
- `tests/` — executable tests of the library.
- `app/` — the Godot extension around the library: the floating-point world-space half (placement,
  line of sight, snapping, A*, smoothing, voxelizing), the threads (worker pool, parallel SURFACE
  pass) and the engine class.
