# msbg

Multiresolution sparse block grids, with contracts that Verus checks.

A sparse grid covers its voxels with cubic blocks and gives memory only to the blocks that were
written; all others read as an empty or a full value. On top of that stand typed channels, several
resolution levels with 2:1 graded refinement, halo gathering, colored stencil sweeps, the splatting of
particles, and a staggered grid for fluid transfer.

Everything under `src/` is verified. Numbers with a fraction are held there as bit patterns; the
formulas over them enter as functions, and the contracts say which values they are applied to. `app/`
holds those formulas (interpolation weights, kernels, cameras, color maps) around the library.

Blocks are aligned to cache lines by a vector type of `core::arch::x86_64`, so the crate builds for
x86_64 only.

- `src/blockmap.rs`: open-addressing map from block ids
- `src/blockpool.rs`, `src/sparse_grid.rs`: blocks, their pool, and the single-level grid
- `src/channel.rs`: element types and the table of channels
- `src/math/`: boundary conditions, windows for sampling, stencil taps
- `src/multires/`: refinement, levels, cell flags and distances, halos, downsampling, block order
- `src/solver.rs`: colored sweeps
- `src/particles/`, `src/io/`: surface reconstruction from point clouds
- `src/fluid/`: particles to a staggered grid and back
- `src/render.rs`: pixels, slices and block walks
- `src/par.rs`: the parallel primitives, from rayon
