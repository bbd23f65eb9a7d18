//! Reading windows of voxels out of a sparse grid, each resolved against the domain border and
//! mapped into the sampling domain.

use crate::channel::{Pressure, Scalar, Vec3, Velocity};
use crate::math::boundary::{resolve_axis, BoundaryCondition};
use crate::sparse_grid::SparseGrid;
use vstd::prelude::*;

verus! {

/// Maps a stored element into the sampling domain.
pub trait Dequant<O>: Copy + Default + Send + Sync {
    /// What the element stands for.
    spec fn spec_dequant(self) -> O;

    /// What the element stands for.
    fn dequant(self) -> (r: O)
        ensures
            r == self.spec_dequant(),
    ;
}

impl Dequant<Scalar> for Scalar {
    open spec fn spec_dequant(self) -> Scalar {
        self
    }

    fn dequant(self) -> (r: Scalar) {
        self
    }
}

impl Dequant<Scalar> for Pressure {
    open spec fn spec_dequant(self) -> Scalar {
        self.0
    }

    fn dequant(self) -> (r: Scalar) {
        self.0
    }
}

impl Dequant<Vec3> for Velocity {
    open spec fn spec_dequant(self) -> Vec3 {
        self.0
    }

    fn dequant(self) -> (r: Vec3) {
        self.0
    }
}

/// The grid has voxels, and every index can be resolved against its sizes.
pub open spec fn addressable<D, const BSX: usize, const N: usize>(
    grid: &SparseGrid<D, BSX, N>,
    bc: BoundaryCondition,
) -> bool where D: Copy + Default + Send + Sync {
    &&& 1 <= grid.sx <= i32::MAX
    &&& 1 <= grid.sy <= i32::MAX
    &&& 1 <= grid.sz <= i32::MAX
    &&& crate::math::boundary::resolvable(grid.sx - 1, bc)
    &&& crate::math::boundary::resolvable(grid.sy - 1, bc)
    &&& crate::math::boundary::resolvable(grid.sz - 1, bc)
}

/// The element read at `(x, y, z)`, which may lie beyond the domain.
pub open spec fn element_at<D, const BSX: usize, const N: usize>(
    grid: &SparseGrid<D, BSX, N>,
    x: int,
    y: int,
    z: int,
    bc: BoundaryCondition,
) -> D where D: Copy + Default + Send + Sync {
    match (
        crate::math::boundary::resolved(x, grid.sx - 1, bc),
        crate::math::boundary::resolved(y, grid.sy - 1, bc),
        crate::math::boundary::resolved(z, grid.sz - 1, bc),
    ) {
        (Some(rx), Some(ry), Some(rz)) => grid.voxel(rx, ry, rz),
        _ => grid.empty_value,
    }
}

/// Reads the element at coordinates that are resolved already, or the empty value.
pub(crate) fn read_resolved<D, const BSX: usize, const N: usize>(
    grid: &SparseGrid<D, BSX, N>,
    rx: Option<i32>,
    ry: Option<i32>,
    rz: Option<i32>,
) -> (r: D) where D: Copy + Default + Send + Sync
    requires
        grid.wf(),
        rx matches Some(x) ==> 0 <= x < grid.sx,
        ry matches Some(y) ==> 0 <= y < grid.sy,
        rz matches Some(z) ==> 0 <= z < grid.sz,
    ensures
        r == (match (rx, ry, rz) {
            (Some(x), Some(y), Some(z)) => grid.voxel(x as int, y as int, z as int),
            _ => grid.empty_value,
        }),
{
    match (rx, ry, rz) {
        (Some(x), Some(y), Some(z)) => grid.get_voxel(x as usize, y as usize, z as usize),
        _ => grid.empty_value,
    }
}

/// `out` begins with the window of `dmax + 1` voxels along each axis from `(ix0, iy0, iz0)` on, x
/// fastest.
pub open spec fn is_gathered<D, O, const BSX: usize, const N: usize>(
    grid: &SparseGrid<D, BSX, N>,
    ix0: int,
    iy0: int,
    iz0: int,
    bc: BoundaryCondition,
    dmax: int,
    out: Seq<O>,
) -> bool where D: Dequant<O> {
    forall|i: int, j: int, k: int|
        0 <= i <= dmax && 0 <= j <= dmax && 0 <= k <= dmax
            ==> out[#[trigger] crate::layout::index3(i, j, k, dmax + 1, dmax + 1)] == element_at(
            grid,
            ix0 + i,
            iy0 + j,
            iz0 + k,
            bc,
        ).spec_dequant()
}

/// Gathers the window of `dmax + 1` voxels along each axis that starts at `(ix0, iy0, iz0)`, x
/// fastest, and maps each element through `dequant`. Voxels beyond the domain are resolved by `bc`.
pub fn gather_map<D, O, const BSX: usize, const N: usize>(
    grid: &SparseGrid<D, BSX, N>,
    ix0: i32,
    iy0: i32,
    iz0: i32,
    bc: BoundaryCondition,
    dmax: usize,
    out: &mut [O],
) where D: Dequant<O>, O: Copy
    requires
        grid.wf(),
        addressable(grid, bc),
        dmax < i32::MAX,
        ix0 + dmax <= i32::MAX,
        iy0 + dmax <= i32::MAX,
        iz0 + dmax <= i32::MAX,
        old(out)@.len() == (dmax + 1) * (dmax + 1) * (dmax + 1),
    ensures
        final(out)@.len() == old(out)@.len(),
        is_gathered(grid, ix0 as int, iy0 as int, iz0 as int, bc, dmax as int, final(out)@),
{
    let span: usize = dmax + 1;
    let sx_max: i32 = grid.sx as i32 - 1;
    let sy_max: i32 = grid.sy as i32 - 1;
    let sz_max: i32 = grid.sz as i32 - 1;
    let total: usize = out.len();
    let ghost n = span as int;
    let mut s: usize = 0;
    while s < total
        invariant
            grid.wf(),
            addressable(grid, bc),
            span == dmax + 1,
            n == span,
            dmax < i32::MAX,
            ix0 + dmax <= i32::MAX,
            iy0 + dmax <= i32::MAX,
            iz0 + dmax <= i32::MAX,
            sx_max == grid.sx - 1,
            sy_max == grid.sy - 1,
            sz_max == grid.sz - 1,
            total == n * n * n,
            out@.len() == total,
            s <= total,
            forall|t: int|
                0 <= t < s ==> #[trigger] out@[t] == element_at(
                    grid,
                    ix0 + crate::layout::coord_x(t, n),
                    iy0 + crate::layout::coord_y(t, n, n),
                    iz0 + crate::layout::coord_z(t, n, n),
                    bc,
                ).spec_dequant(),
        decreases total - s,
    {
        proof {
            crate::layout::lemma_coords3(s as int, n, n, n);
        }
        let i: usize = s % span;
        let j: usize = (s / span) % span;
        let k: usize = (s / span) / span;
        let rx: Option<i32> = resolve_axis(ix0 + i as i32, sx_max, bc);
        let ry: Option<i32> = resolve_axis(iy0 + j as i32, sy_max, bc);
        let rz: Option<i32> = resolve_axis(iz0 + k as i32, sz_max, bc);
        out[s] = read_resolved(grid, rx, ry, rz).dequant();
        s = s + 1;
    }
    proof {
        assert forall|i: int, j: int, k: int|
            0 <= i <= dmax && 0 <= j <= dmax && 0 <= k <= dmax implies out@[#[trigger] crate::layout::index3(
            i,
            j,
            k,
            dmax + 1,
            dmax + 1,
        )] == element_at(grid, ix0 + i, iy0 + j, iz0 + k, bc).spec_dequant() by {
            crate::layout::lemma_index3(i, j, k, n, n, n);
        }
    }
}

/// Inside the domain every boundary condition reads the voxel itself.
pub proof fn law_inside_reads_voxel<D, const BSX: usize, const N: usize>(
    grid: &SparseGrid<D, BSX, N>,
    x: int,
    y: int,
    z: int,
    bc: BoundaryCondition,
) where D: Copy + Default + Send + Sync
    requires
        0 <= x < grid.sx,
        0 <= y < grid.sy,
        0 <= z < grid.sz,
    ensures
        element_at(grid, x, y, z, bc) == grid.voxel(x, y, z),
{
}

/// Outside of the domain along any axis, Dirichlet reads the empty value.
pub proof fn law_dirichlet_reads_empty<D, const BSX: usize, const N: usize>(
    grid: &SparseGrid<D, BSX, N>,
    x: int,
    y: int,
    z: int,
) where D: Copy + Default + Send + Sync
    requires
        !(0 <= x < grid.sx && 0 <= y < grid.sy && 0 <= z < grid.sz),
    ensures
        element_at(grid, x, y, z, BoundaryCondition::Dirichlet) == grid.empty_value,
{
}

/// Clamping reads the border voxel of the same row, axis by axis: what lies before the domain reads
/// as its first cell, what lies behind it as its last.
pub proof fn law_clamp_reads_border<D, const BSX: usize, const N: usize>(
    grid: &SparseGrid<D, BSX, N>,
    x: int,
    y: int,
    z: int,
) where D: Copy + Default + Send + Sync
    requires
        1 <= grid.sx,
        1 <= grid.sy,
        1 <= grid.sz,
    ensures
        ({
            let at = |x: int, y: int, z: int| element_at(grid, x, y, z, BoundaryCondition::Clamp);
            &&& x < 0 ==> at(x, y, z) == at(0, y, z)
            &&& x >= grid.sx ==> at(x, y, z) == at(grid.sx - 1, y, z)
            &&& y < 0 ==> at(x, y, z) == at(x, 0, z)
            &&& y >= grid.sy ==> at(x, y, z) == at(x, grid.sy - 1, z)
            &&& z < 0 ==> at(x, y, z) == at(x, y, 0)
            &&& z >= grid.sz ==> at(x, y, z) == at(x, y, grid.sz - 1)
        }),
{
}

/// Neumann reads mirrored at the sides of the domain, axis by axis.
pub proof fn law_neumann_reads_mirrored<D, const BSX: usize, const N: usize>(
    grid: &SparseGrid<D, BSX, N>,
    x: int,
    y: int,
    z: int,
) where D: Copy + Default + Send + Sync
    requires
        1 <= grid.sx,
        1 <= grid.sy,
        1 <= grid.sz,
    ensures
        ({
            let at = |x: int, y: int, z: int| element_at(grid, x, y, z, BoundaryCondition::Neumann);
            &&& at(-1 - x, y, z) == at(x, y, z)
            &&& at(2 * grid.sx - 1 - x, y, z) == at(x, y, z)
            &&& at(x, -1 - y, z) == at(x, y, z)
            &&& at(x, 2 * grid.sy - 1 - y, z) == at(x, y, z)
            &&& at(x, y, -1 - z) == at(x, y, z)
            &&& at(x, y, 2 * grid.sz - 1 - z) == at(x, y, z)
        }),
{
    crate::math::boundary::law_neumann_reflects(x, grid.sx - 1);
    crate::math::boundary::law_neumann_reflects(y, grid.sy - 1);
    crate::math::boundary::law_neumann_reflects(z, grid.sz - 1);
}

/// The scalar channels hand out the number that they hold, and velocities their vector.
pub proof fn law_dequant_keeps(s: Scalar, p: Scalar, v: Vec3)
    ensures
        Dequant::<Scalar>::spec_dequant(s) == s,
        Dequant::<Scalar>::spec_dequant(Pressure(p)) == p,
        Dequant::<Vec3>::spec_dequant(Velocity(v)) == v,
{
}

/// What is gathered stands row by row and layer by layer: one step along y is a row of the window,
/// one step along z a layer.
pub proof fn law_gathered_in_rows<D, O, const BSX: usize, const N: usize>(
    grid: &SparseGrid<D, BSX, N>,
    ix0: int,
    iy0: int,
    iz0: int,
    bc: BoundaryCondition,
    dmax: int,
    out: Seq<O>,
    i: int,
    j: int,
    k: int,
) where D: Dequant<O>
    requires
        is_gathered(grid, ix0, iy0, iz0, bc, dmax, out),
        0 <= i <= dmax,
        0 <= j <= dmax,
        0 <= k <= dmax,
    ensures
        out[i + (dmax + 1) * j + (dmax + 1) * (dmax + 1) * k] == element_at(
            grid,
            ix0 + i,
            iy0 + j,
            iz0 + k,
            bc,
        ).spec_dequant(),
{
    crate::layout::law_coords_of_cell(i, j, k, dmax + 1, dmax + 1, dmax + 1);
    assert(crate::layout::index3(i, j, k, dmax + 1, dmax + 1) == i + (dmax + 1) * j + (dmax + 1) * (dmax
        + 1) * k);
}

} // verus!
