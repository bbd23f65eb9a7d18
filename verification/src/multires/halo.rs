//! Staging a block together with a halo of the voxels around it.

use crate::math::boundary::{resolve_axis, BoundaryCondition};
use crate::math::gather::{read_resolved, Dequant};
use crate::sparse_grid::SparseGrid;
use vstd::prelude::*;

verus! {

/// A cube of edge `HSX` that holds a block of edge `BSX` and a halo on every side of it.
pub struct HaloBlock<O, const BSX: usize, const HSX: usize> {
    pub data: Vec<O>,
}

/// Halo cell `v` lies outside the block along its axis.
pub open spec fn in_halo(v: int, halo: int, bsx: int) -> bool {
    v < halo || v >= halo + bsx
}

/// Cell `(x, y, z)` is filled: all are in a full fill, else all but those beside the block along x
/// whose row passes the block by.
pub open spec fn is_filled(x: int, y: int, z: int, halo: int, bsx: int, full: bool) -> bool {
    full || !in_halo(x, halo, bsx) || !(in_halo(y, halo, bsx) || in_halo(z, halo, bsx))
}

impl<O, const BSX: usize, const HSX: usize> HaloBlock<O, BSX, HSX> where O: Copy + Default {
    /// The cube has all its cells.
    pub open spec fn wf(&self) -> bool {
        self.data@.len() == HSX * HSX * HSX
    }

    /// The value of cell `(x, y, z)`.
    pub open spec fn at(&self, x: int, y: int, z: int) -> O {
        self.data@[crate::layout::index3(x, y, z, HSX as int, HSX as int)]
    }

    /// All cells have the default value of `O`.
    pub open spec fn is_default(&self) -> bool {
        exists|v: O| #[trigger]
            call_ensures(O::default, (), v) && self.data@ == Seq::new(
                (HSX * HSX * HSX) as nat,
                |i: int| v,
            )
    }

    /// A cube with the default value everywhere.
    pub fn new() -> (r: Self)
        requires
            HSX * HSX <= usize::MAX,
            HSX * HSX * HSX <= usize::MAX,
        ensures
            r.wf(),
            r.is_default(),
    {
        let v: O = O::default();
        HaloBlock { data: crate::arith::filled(HSX * HSX * HSX, v) }
    }

    /// The value of cell `(x, y, z)`.
    pub fn get(&self, x: usize, y: usize, z: usize) -> (r: O)
        requires
            self.wf(),
            HSX * HSX * HSX <= usize::MAX,
            x < HSX,
            y < HSX,
            z < HSX,
        ensures
            r == self.at(x as int, y as int, z as int),
    {
        self.data[crate::blockpool::voxel_index::<HSX>(x, y, z)]
    }

    /// What filling the cube `before` from block `bid` of `grid` gives.
    pub open spec fn is_fill<D, const N: usize>(
        before: Self,
        after: Self,
        grid: &SparseGrid<D, BSX, N>,
        bid: int,
        halo: int,
        full: bool,
        bc: BoundaryCondition,
    ) -> bool where D: Dequant<O> {
        &&& after.wf()
        &&& forall|x: int, y: int, z: int|
            0 <= x < HSX && 0 <= y < HSX && 0 <= z < HSX ==> #[trigger] after.at(x, y, z) == (
            if is_filled(x, y, z, halo, BSX as int, full) {
                crate::math::gather::element_at(
                    grid,
                    BSX * crate::layout::coord_x(bid, grid.nx as int) + x - halo,
                    BSX * crate::layout::coord_y(bid, grid.nx as int, grid.ny as int) + y - halo,
                    BSX * crate::layout::coord_z(bid, grid.nx as int, grid.ny as int) + z - halo,
                    bc,
                ).spec_dequant()
            } else {
                before.at(x, y, z)
            })
    }

    /// A fill of the faces alone is part of a full one: where it leaves a cell as it was, the cell
    /// lies beside the block along x and along another axis, and everywhere else both give the same.
    pub proof fn law_faces_are_part_of_full<D, const N: usize>(
        before: Self,
        faces: Self,
        other: Self,
        whole: Self,
        grid: &SparseGrid<D, BSX, N>,
        bid: int,
        halo: int,
        bc: BoundaryCondition,
    ) where D: Dequant<O>
        requires
            Self::is_fill(before, faces, grid, bid, halo, false, bc),
            Self::is_fill(other, whole, grid, bid, halo, true, bc),
        ensures
            forall|x: int, y: int, z: int|
                0 <= x < HSX && 0 <= y < HSX && 0 <= z < HSX ==> #[trigger] faces.at(x, y, z) == (
                if in_halo(x, halo, BSX as int) && (in_halo(y, halo, BSX as int) || in_halo(
                    z,
                    halo,
                    BSX as int,
                )) {
                    before.at(x, y, z)
                } else {
                    whole.at(x, y, z)
                }),
    {
        assert forall|x: int, y: int, z: int|
            0 <= x < HSX && 0 <= y < HSX && 0 <= z < HSX implies #[trigger] faces.at(x, y, z) == (
        if in_halo(x, halo, BSX as int) && (in_halo(y, halo, BSX as int) || in_halo(
            z,
            halo,
            BSX as int,
        )) {
            before.at(x, y, z)
        } else {
            whole.at(x, y, z)
        }) by {
            assert(whole.at(x, y, z) == whole.at(x, y, z));
        }
    }

    /// Fills the cube from block `bid` of `grid` and the voxels around it, mapping each element
    /// through `dequant`. `HALO` is the width of the halo. With `FULL` all cells are filled; without
    /// it the block, the rows beside it and the faces along x are, and the other cells keep what they
    /// hold.
    pub fn fill<const HALO: usize, const FULL: bool, D, const N: usize>(
        &mut self,
        grid: &SparseGrid<D, BSX, N>,
        bid: usize,
        bc: BoundaryCondition,
    ) where D: Dequant<O>
        requires
            old(self).wf(),
            HSX == BSX + 2 * HALO,
            HSX * HSX * HSX <= usize::MAX,
            grid.wf(),
            crate::math::gather::addressable(grid, bc),
            bid < grid.n_blocks,
            grid.sx + BSX + 2 * HALO <= i32::MAX,
            grid.sy + BSX + 2 * HALO <= i32::MAX,
            grid.sz + BSX + 2 * HALO <= i32::MAX,
        ensures
            Self::is_fill(*old(self), *final(self), grid, bid as int, HALO as int, FULL, bc),
    {
        let (bx, by, bz) = grid.get_block_coords_by_id(bid);
        let ghost b = BSX as int;
        let ghost h = HSX as int;
        let ghost halo = HALO as int;
        proof {
            lemma_origin(bx as int, grid.sx as int, b);
            lemma_origin(by as int, grid.sy as int, b);
            lemma_origin(bz as int, grid.sz as int, b);
        }
        let x0: i32 = (BSX * bx) as i32;
        let y0: i32 = (BSX * by) as i32;
        let z0: i32 = (BSX * bz) as i32;
        let halo_i: i32 = HALO as i32;
        let sx_max: i32 = grid.sx as i32 - 1;
        let sy_max: i32 = grid.sy as i32 - 1;
        let sz_max: i32 = grid.sz as i32 - 1;
        let total: usize = self.data.len();
        let mut t: usize = 0;
        while t < total
            invariant
                self.wf(),
                old(self).wf(),
                grid.wf(),
                crate::math::gather::addressable(grid, bc),
                b == BSX,
                h == HSX,
                halo == HALO,
                HSX == BSX + 2 * HALO,
                total == h * h * h,
                grid.sx + BSX + 2 * HALO <= i32::MAX,
                grid.sy + BSX + 2 * HALO <= i32::MAX,
                grid.sz + BSX + 2 * HALO <= i32::MAX,
                0 <= x0 < grid.sx,
                0 <= y0 < grid.sy,
                0 <= z0 < grid.sz,
                x0 == b * bx,
                y0 == b * by,
                z0 == b * bz,
                halo_i == HALO,
                sx_max == grid.sx - 1,
                sy_max == grid.sy - 1,
                sz_max == grid.sz - 1,
                t <= total,
                forall|i: int|
                    0 <= i < total ==> #[trigger] self.data@[i] == (if i < t && is_filled(
                        crate::layout::coord_x(i, h),
                        crate::layout::coord_y(i, h, h),
                        crate::layout::coord_z(i, h, h),
                        halo,
                        b,
                        FULL,
                    ) {
                        crate::math::gather::element_at(
                            grid,
                            b * bx + crate::layout::coord_x(i, h) - halo,
                            b * by + crate::layout::coord_y(i, h, h) - halo,
                            b * bz + crate::layout::coord_z(i, h, h) - halo,
                            bc,
                        ).spec_dequant()
                    } else {
                        old(self).data@[i]
                    }),
            decreases total - t,
        {
            proof {
                crate::layout::lemma_coords3(t as int, h, h, h);
            }
            let x: usize = t % HSX;
            let y: usize = (t / HSX) % HSX;
            let z: usize = (t / HSX) / HSX;
            let beside: bool = x < HALO || x >= HALO + BSX;
            let center_row: bool = y >= HALO && y < HALO + BSX && z >= HALO && z < HALO + BSX;
            if FULL || !beside || center_row {
                let rx: Option<i32> = resolve_axis(x0 + x as i32 - halo_i, sx_max, bc);
                let ry: Option<i32> = resolve_axis(y0 + y as i32 - halo_i, sy_max, bc);
                let rz: Option<i32> = resolve_axis(z0 + z as i32 - halo_i, sz_max, bc);
                self.data[t] = read_resolved(grid, rx, ry, rz).dequant();
            }
            t = t + 1;
        }
        proof {
            assert forall|x: int, y: int, z: int|
                0 <= x < HSX && 0 <= y < HSX && 0 <= z < HSX implies #[trigger] self.at(x, y, z) == (
            if is_filled(x, y, z, halo, b, FULL) {
                crate::math::gather::element_at(
                    grid,
                    b * bx + x - halo,
                    b * by + y - halo,
                    b * bz + z - halo,
                    bc,
                ).spec_dequant()
            } else {
                old(self).at(x, y, z)
            }) by {
                crate::layout::lemma_index3(x, y, z, h, h, h);
                let i = crate::layout::index3(x, y, z, h, h);
                assert(self.data@[i] == self.at(x, y, z));
            }
        }
    }
}

/// Halo cubes for a number of workers, one each.
pub struct HaloBlockPool<O, const BSX: usize, const HSX: usize> {
    pub slots: Vec<HaloBlock<O, BSX, HSX>>,
}

impl<O, const BSX: usize, const HSX: usize> HaloBlockPool<O, BSX, HSX> where O: Copy + Default {
    /// Every worker has a cube with all its cells.
    pub open spec fn wf(&self) -> bool {
        forall|i: int| 0 <= i < self.slots@.len() ==> (#[trigger] self.slots@[i]).wf()
    }

    /// A pool for `num_threads` workers.
    pub fn new(num_threads: usize) -> (r: Self)
        requires
            HSX * HSX <= usize::MAX,
            HSX * HSX * HSX <= usize::MAX,
        ensures
            r.wf(),
            r.slots@.len() == num_threads,
            forall|i: int| 0 <= i < num_threads ==> (#[trigger] r.slots@[i]).is_default(),
    {
        let mut slots: Vec<HaloBlock<O, BSX, HSX>> = Vec::with_capacity(num_threads);
        let mut i: usize = 0;
        while i < num_threads
            invariant
                i <= num_threads,
                HSX * HSX <= usize::MAX,
                HSX * HSX * HSX <= usize::MAX,
                slots@.len() == i,
                forall|k: int| 0 <= k < i ==> (#[trigger] slots@[k]).wf(),
                forall|k: int| 0 <= k < i ==> (#[trigger] slots@[k]).is_default(),
            decreases num_threads - i,
        {
            slots.push(HaloBlock::new());
            i = i + 1;
        }
        HaloBlockPool { slots }
    }

    /// The cube of worker `idx`. What is done to it leaves those of the other workers alone.
    pub fn get_mut(&mut self, idx: usize) -> (r: &mut HaloBlock<O, BSX, HSX>)
        requires
            idx < old(self).slots@.len(),
        ensures
            *r == old(self).slots@[idx as int],
            final(self).slots@ == old(self).slots@.update(idx as int, *final(r)),
    {
        &mut self.slots[idx]
    }
}

/// A block that covers part of `s` voxels starts inside them.
pub proof fn lemma_origin(k: int, s: int, b: int)
    requires
        0 < b,
        0 <= s,
        0 <= k < crate::layout::ceil_div(s, b),
    ensures
        0 <= b * k < s,
{
    crate::layout::lemma_ceil_div_bounds(s, b);
    let n = crate::layout::ceil_div(s, b);
    assert(b * k + b <= b * n) by (nonlinear_arith)
        requires
            k + 1 <= n,
            0 < b,
    ;
    assert(0 <= b * k) by (nonlinear_arith)
        requires
            0 <= k,
            0 < b,
    ;
}

/// Which cells a fill reaches: all of them with a full halo; else those of the block, those beside it
/// along x in the rows of the block, and the cells before and behind it along y and z.
pub proof fn law_filled_cells(x: int, y: int, z: int, halo: int, bsx: int)
    requires
        0 <= halo,
        0 < bsx,
    ensures
        is_filled(x, y, z, halo, bsx, true),
        halo <= x < halo + bsx ==> is_filled(x, y, z, halo, bsx, false),
        halo <= y < halo + bsx && halo <= z < halo + bsx ==> is_filled(x, y, z, halo, bsx, false),
        (x < halo || halo + bsx <= x) && (y < halo || halo + bsx <= y) ==> !is_filled(
            x,
            y,
            z,
            halo,
            bsx,
            false,
        ),
        (x < halo || halo + bsx <= x) && (z < halo || halo + bsx <= z) ==> !is_filled(
            x,
            y,
            z,
            halo,
            bsx,
            false,
        ),
{
}

/// Where the domain has a voxel, a filled cell holds it: cell `(x, y, z)` of the cube of the block at
/// `(bx, by, bz)` is the voxel as far from the first of the block as the cell is from the end of the
/// halo.
pub proof fn law_fill_reads_domain<O, D, const BSX: usize, const HSX: usize, const N: usize>(
    before: HaloBlock<O, BSX, HSX>,
    after: HaloBlock<O, BSX, HSX>,
    grid: &SparseGrid<D, BSX, N>,
    bx: int,
    by: int,
    bz: int,
    halo: int,
    full: bool,
    bc: BoundaryCondition,
    x: int,
    y: int,
    z: int,
) where O: Copy + Default, D: Dequant<O>
    requires
        0 <= bx < grid.nx,
        0 <= by < grid.ny,
        0 <= bz < grid.nz,
        HaloBlock::<O, BSX, HSX>::is_fill(
            before,
            after,
            grid,
            bx + grid.nx * by + grid.nx * grid.ny * bz,
            halo,
            full,
            bc,
        ),
        0 <= x < HSX,
        0 <= y < HSX,
        0 <= z < HSX,
        full || halo <= x < halo + BSX || (halo <= y < halo + BSX && halo <= z < halo + BSX),
        0 <= BSX * bx + x - halo < grid.sx,
        0 <= BSX * by + y - halo < grid.sy,
        0 <= BSX * bz + z - halo < grid.sz,
    ensures
        after.data@[x + HSX * y + HSX * HSX * z] == grid.voxel(
            BSX * bx + x - halo,
            BSX * by + y - halo,
            BSX * bz + z - halo,
        ).spec_dequant(),
{
    let h = HSX as int;
    crate::layout::law_coords_of_cell(x, y, z, h, h, h);
    crate::layout::law_coords_of_cell(
        bx,
        by,
        bz,
        grid.nx as int,
        grid.ny as int,
        grid.nz as int,
    );
    assert(after.at(x, y, z) == after.data@[x + HSX * y + HSX * HSX * z]);
    crate::math::gather::law_inside_reads_voxel(
        grid,
        BSX * bx + x - halo,
        BSX * by + y - halo,
        BSX * bz + z - halo,
        bc,
    );
}

/// Outside of the domain, a filled cell of the cube reads as the boundary condition says.
pub proof fn law_fill_reads_boundary<O, D, const BSX: usize, const HSX: usize, const N: usize>(
    before: HaloBlock<O, BSX, HSX>,
    after: HaloBlock<O, BSX, HSX>,
    grid: &SparseGrid<D, BSX, N>,
    bx: int,
    by: int,
    bz: int,
    halo: int,
    full: bool,
    bc: BoundaryCondition,
    x: int,
    y: int,
    z: int,
) where O: Copy + Default, D: Dequant<O>
    requires
        0 <= bx < grid.nx,
        0 <= by < grid.ny,
        0 <= bz < grid.nz,
        HaloBlock::<O, BSX, HSX>::is_fill(
            before,
            after,
            grid,
            bx + grid.nx * by + grid.nx * grid.ny * bz,
            halo,
            full,
            bc,
        ),
        0 <= x < HSX,
        0 <= y < HSX,
        0 <= z < HSX,
    ensures
        full || halo <= x < halo + BSX || (halo <= y < halo + BSX && halo <= z < halo + BSX)
            ==> after.data@[x + HSX * y + HSX * HSX * z] == crate::math::gather::element_at(
            grid,
            BSX * bx + x - halo,
            BSX * by + y - halo,
            BSX * bz + z - halo,
            bc,
        ).spec_dequant(),
        !full && !(halo <= x < halo + BSX) && !(halo <= y < halo + BSX && halo <= z < halo + BSX)
            ==> after.data@[x + HSX * y + HSX * HSX * z] == before.data@[x + HSX * y + HSX * HSX * z],
{
    let h = HSX as int;
    crate::layout::law_coords_of_cell(x, y, z, h, h, h);
    crate::layout::law_coords_of_cell(
        bx,
        by,
        bz,
        grid.nx as int,
        grid.ny as int,
        grid.nz as int,
    );
    assert(after.at(x, y, z) == after.data@[x + HSX * y + HSX * HSX * z]);
    assert(before.at(x, y, z) == before.data@[x + HSX * y + HSX * HSX * z]);
}

} // verus!
