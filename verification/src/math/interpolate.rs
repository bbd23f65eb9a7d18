//! Trilinear interpolation straight from the voxels of a grid.

use crate::sparse_grid::SparseGrid;
use vstd::prelude::*;

verus! {

/// The eight corners of cell `(x, y, z)`, x fastest.
pub open spec fn corners<D, const BSX: usize, const N: usize>(
    grid: &SparseGrid<D, BSX, N>,
    x: int,
    y: int,
    z: int,
) -> Seq<D> where D: Copy + Default + Send + Sync {
    seq![
        grid.voxel(x, y, z),
        grid.voxel(x + 1, y, z),
        grid.voxel(x, y + 1, z),
        grid.voxel(x + 1, y + 1, z),
        grid.voxel(x, y, z + 1),
        grid.voxel(x + 1, y, z + 1),
        grid.voxel(x, y + 1, z + 1),
        grid.voxel(x + 1, y + 1, z + 1),
    ]
}

/// `r` is what `blend` makes of the corners of cell `(x, y, z)`.
pub open spec fn is_blended<D, const BSX: usize, const N: usize, R, F: Fn([D; 8]) -> R>(
    grid: &SparseGrid<D, BSX, N>,
    x: int,
    y: int,
    z: int,
    blend: &F,
    r: R,
) -> bool where D: Copy + Default + Send + Sync {
    exists|c: [D; 8]| c@ == corners(grid, x, y, z) && #[trigger] call_ensures(*blend, (c,), r)
}

impl<D, const BSX: usize, const N: usize> SparseGrid<D, BSX, N> where
    D: Copy + Default + Send + Sync,
 {
    /// Blends the eight corners of cell `(ix, iy, iz)`, which must lie in the domain with all its
    /// corners.
    pub fn interpolate_linear<R, F: Fn([D; 8]) -> R>(
        &self,
        ix: usize,
        iy: usize,
        iz: usize,
        blend: &F,
    ) -> (r: R)
        requires
            self.wf(),
            ix + 1 < self.sx,
            iy + 1 < self.sy,
            iz + 1 < self.sz,
            forall|c: [D; 8]| #[trigger] call_requires(*blend, (c,)),
        ensures
            is_blended(self, ix as int, iy as int, iz as int, blend, r),
    {
        let c: [D; 8] = [
            self.get_voxel(ix, iy, iz),
            self.get_voxel(ix + 1, iy, iz),
            self.get_voxel(ix, iy + 1, iz),
            self.get_voxel(ix + 1, iy + 1, iz),
            self.get_voxel(ix, iy, iz + 1),
            self.get_voxel(ix + 1, iy, iz + 1),
            self.get_voxel(ix, iy + 1, iz + 1),
            self.get_voxel(ix + 1, iy + 1, iz + 1),
        ];
        assert(c@ =~= corners(self, ix as int, iy as int, iz as int));
        blend(c)
    }
}

/// Corner `(i, j, k)` of a cell, x fastest, is the voxel that many steps from the cell, in whichever
/// block that lies.
pub proof fn law_corners_are_voxels<D, const BSX: usize, const N: usize>(
    grid: &SparseGrid<D, BSX, N>,
    x: int,
    y: int,
    z: int,
    i: int,
    j: int,
    k: int,
) where D: Copy + Default + Send + Sync
    requires
        0 <= i < 2,
        0 <= j < 2,
        0 <= k < 2,
    ensures
        corners(grid, x, y, z).len() == 8,
        corners(grid, x, y, z)[i + 2 * j + 4 * k] == grid.voxel(x + i, y + j, z + k),
{
}

/// The corners are what linear sampling of the same cell sees, under every boundary condition.
pub proof fn law_corners_are_linear_window<D, O, const BSX: usize, const N: usize>(
    grid: &SparseGrid<D, BSX, N>,
    x: int,
    y: int,
    z: int,
    bc: crate::math::boundary::BoundaryCondition,
    c: int,
) where D: crate::math::gather::Dequant<O>
    requires
        0 <= x < grid.sx - 1,
        0 <= y < grid.sy - 1,
        0 <= z < grid.sz - 1,
        0 <= c < 8,
    ensures
        crate::math::sample::sample_window::<D, O, BSX, N>(
            grid,
            crate::math::boundary::Interpolation::Linear,
            x,
            y,
            z,
            bc,
        )[c] == corners(grid, x, y, z)[c].spec_dequant(),
{
    let (i, j, k) = (c % 2, (c / 2) % 2, c / 4);
    assert(c == i + 2 * j + 4 * k);
    crate::math::sample::law_linear_window_inside::<D, O, BSX, N>(grid, x, y, z, bc, i, j, k);
    law_corners_are_voxels(grid, x, y, z, i, j, k);
}

/// Cells next to each other share a face: the upper corners of one along an axis are the lower
/// corners of the next.
pub proof fn law_cells_share_faces<D, const BSX: usize, const N: usize>(
    grid: &SparseGrid<D, BSX, N>,
    x: int,
    y: int,
    z: int,
    a: int,
    b: int,
) where D: Copy + Default + Send + Sync
    requires
        0 <= a < 2,
        0 <= b < 2,
    ensures
        corners(grid, x, y, z)[1 + 2 * a + 4 * b] == corners(grid, x + 1, y, z)[2 * a + 4 * b],
        corners(grid, x, y, z)[a + 2 + 4 * b] == corners(grid, x, y + 1, z)[a + 4 * b],
        corners(grid, x, y, z)[a + 2 * b + 4] == corners(grid, x, y, z + 1)[a + 2 * b],
{
}

/// What is blended for a cell are the voxel of the cell and the next ones along each axis: corner
/// `i + 2 j + 4 k` is the voxel `i`, `j` and `k` steps along x, y and z.
pub proof fn law_blend_of_corners<D, const BSX: usize, const N: usize, R, F: Fn([D; 8]) -> R>(
    grid: &SparseGrid<D, BSX, N>,
    x: int,
    y: int,
    z: int,
    blend: &F,
    r: R,
) -> (c: [D; 8]) where D: Copy + Default + Send + Sync
    requires
        is_blended(grid, x, y, z, blend, r),
    ensures
        call_ensures(*blend, (c,), r),
        forall|i: int, j: int, k: int|
            0 <= i < 2 && 0 <= j < 2 && 0 <= k < 2 ==> c@[i + 2 * j + 4 * k] == #[trigger] grid.voxel(
                x + i,
                y + j,
                z + k,
            ),
{
    let c = choose|c: [D; 8]| c@ == corners(grid, x, y, z) && #[trigger] call_ensures(*blend, (c,), r);
    assert forall|i: int, j: int, k: int|
        0 <= i < 2 && 0 <= j < 2 && 0 <= k < 2 implies c@[i + 2 * j + 4 * k] == #[trigger] grid.voxel(
        x + i,
        y + j,
        z + k,
    ) by {
        law_corners_are_voxels(grid, x, y, z, i, j, k);
    }
    c
}

} // verus!
