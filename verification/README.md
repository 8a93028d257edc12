# fluid_simulator

A 2D SPH fluid simulation. Neighbour search uses spatial hashing: every particle
is put in a grid cell, each cell is hashed to a bucket key, the particle slots
are sorted by key, and a start table records where each bucket begins.

- `src/` is the verified library: the cell hash (`spatial_hashing`) and the
  bucket tables with their sort and neighbour lookup (`spatial_index`), with
  proofs that a lookup finds exactly the particles of the cells asked for.
- `app/` is the program: window, input, drawing, and the floating-point physics
  (kernels, densities, forces, integration), which asks the library for
  neighbours.
- `tests/` runs the library on concrete particle layouts.
