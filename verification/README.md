# rollgrid

Rolling grids: fixed-size 2D and 3D grids that can be moved across an unbounded
`i32` coordinate space. Moving a grid reuses its cells in place, like a ring buffer,
so only the cells that change position are handed to a reload callback; resizing
hands the cells that leave to an unload callback and asks a load callback for the
cells that enter.

The library is written in Verus. Each public function states its behaviour in
`requires` / `ensures` clauses over a mathematical view of the data (a `Map` from
positions to values for the grids, a `Seq` for arrays and iterators), and Verus proves
the code against them.

Layout:

- `src/bounds2d.rs`, `src/bounds3d.rs`: axis-aligned bounds and their point iterators.
- `src/fixedarray.rs`: the fixed-size array the grids are built on, and the index
  arithmetic of 2D and 3D regions.
- `src/grid2d.rs`, `src/grid3d.rs`: plain grids at an offset.
- `src/rollgrid2d.rs`, `src/rollgrid3d.rs`: the rolling grids, with the plans that fix
  which cells a move reloads and which cells a resize unloads, in which order; the
  calls a resize makes on its manager when it succeeds (`managed_from`,
  `try_managed_from`) and up to the call that failed (`try_stopped_from`).
- `src/math.rs`: conversions between `i32` and `u32` and component-wise coordinate
  arithmetic.
- `src/lib.rs`: the cell manager traits used by resizing, the record of the calls a
  resize or move makes on a manager (`ManagerCall`, `manager_runs`), and `CellManager`,
  which calls closures.
- `tests/`: tests run against the compiled library.
- `app/`: serde-enabled copies of the bounds types.
