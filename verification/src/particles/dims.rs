//! Grid sizes, and the integer footprints of particles.

use vstd::prelude::*;

verus! {

/// Voxel and block counts of a grid.
#[derive(Clone, Copy, Debug, PartialEq, Eq, Structural)]
pub struct GridDims {
    pub sx: usize,
    pub sy: usize,
    pub sz: usize,
    pub nx: usize,
    pub ny: usize,
    pub nz: usize,
    pub nxy: usize,
    pub bsx: usize,
}

/// A range of blocks along each axis, both ends included. It may reach beyond the grid.
#[derive(Clone, Copy, Debug, PartialEq, Eq, Structural)]
pub struct BlockBox {
    pub x1: i32,
    pub x2: i32,
    pub y1: i32,
    pub y2: i32,
    pub z1: i32,
    pub z2: i32,
}

impl GridDims {
    /// The counts fit together.
    pub open spec fn wf(&self) -> bool {
        &&& 0 < self.bsx
        &&& self.nx == crate::layout::ceil_div(self.sx as int, self.bsx as int)
        &&& self.ny == crate::layout::ceil_div(self.sy as int, self.bsx as int)
        &&& self.nz == crate::layout::ceil_div(self.sz as int, self.bsx as int)
        &&& self.nxy == self.nx * self.ny
        &&& self.nxy * self.nz <= usize::MAX
    }

    /// How many blocks the grid has.
    pub open spec fn count(&self) -> int {
        self.nx * self.ny * self.nz
    }

    /// The block coordinates of `bid`.
    pub open spec fn x_of(&self, bid: int) -> int {
        crate::layout::coord_x(bid, self.nx as int)
    }

    pub open spec fn y_of(&self, bid: int) -> int {
        crate::layout::coord_y(bid, self.nx as int, self.ny as int)
    }

    pub open spec fn z_of(&self, bid: int) -> int {
        crate::layout::coord_z(bid, self.nx as int, self.ny as int)
    }

    /// Block `bid` lies in the footprint `b`.
    pub open spec fn in_footprint(&self, b: BlockBox, bid: int) -> bool {
        &&& 0 <= bid < self.count()
        &&& b.x1 <= self.x_of(bid) <= b.x2
        &&& b.y1 <= self.y_of(bid) <= b.y2
        &&& b.z1 <= self.z_of(bid) <= b.z2
    }

    /// Counts of a grid of `sx * sy * sz` voxels in blocks of edge `bsx`.
    pub fn new(sx: usize, sy: usize, sz: usize, bsx: usize) -> (r: Self)
        requires
            crate::arith::is_pow2(bsx as int),
            0 < bsx,
            sx + bsx <= usize::MAX,
            sy + bsx <= usize::MAX,
            sz + bsx <= usize::MAX,
            crate::layout::ceil_div(sx as int, bsx as int) * crate::layout::ceil_div(
                sy as int,
                bsx as int,
            ) <= usize::MAX,
            crate::layout::ceil_div(sx as int, bsx as int) * crate::layout::ceil_div(
                sy as int,
                bsx as int,
            ) * crate::layout::ceil_div(sz as int, bsx as int) <= usize::MAX,
        ensures
            r.wf(),
            r.sx == sx,
            r.sy == sy,
            r.sz == sz,
            r.bsx == bsx,
    {
        let nx: usize = (sx + bsx - 1) / bsx;
        let ny: usize = (sy + bsx - 1) / bsx;
        let nz: usize = (sz + bsx - 1) / bsx;
        GridDims { sx, sy, sz, nx, ny, nz, nxy: nx * ny, bsx }
    }

    /// How many blocks the grid has.
    pub fn n_blocks(&self) -> (r: usize)
        requires
            self.wf(),
        ensures
            r == self.count(),
    {
        self.nxy * self.nz
    }

    /// The longest edge, in voxels.
    pub open spec fn longest(&self) -> int {
        crate::arith::max(crate::arith::max(self.sx as int, self.sy as int), self.sz as int)
    }

    /// The shortest edge, in voxels.
    pub open spec fn shortest(&self) -> int {
        crate::arith::min(crate::arith::min(self.sx as int, self.sy as int), self.sz as int)
    }

    /// The longest edge, in voxels.
    pub fn sxyz_max(&self) -> (r: usize)
        ensures
            r == self.longest(),
    {
        let xy: usize = if self.sx < self.sy { self.sy } else { self.sx };
        if xy < self.sz {
            self.sz
        } else {
            xy
        }
    }

    /// The shortest edge, in voxels.
    pub fn sxyz_min(&self) -> (r: usize)
        ensures
            r == self.shortest(),
    {
        let xy: usize = if self.sx < self.sy { self.sx } else { self.sy };
        if xy < self.sz {
            xy
        } else {
            self.sz
        }
    }

    /// The block coordinates of `bid`.
    pub fn coords(&self, bid: usize) -> (r: (usize, usize, usize))
        requires
            self.wf(),
            bid < self.count(),
        ensures
            r.0 == self.x_of(bid as int),
            r.1 == self.y_of(bid as int),
            r.2 == self.z_of(bid as int),
            crate::layout::in_box(
                r.0 as int,
                r.1 as int,
                r.2 as int,
                self.nx as int,
                self.ny as int,
                self.nz as int,
            ),
            crate::layout::index3(
                r.0 as int,
                r.1 as int,
                r.2 as int,
                self.nx as int,
                self.ny as int,
            ) == bid,
    {
        proof {
            crate::layout::lemma_coords3(
                bid as int,
                self.nx as int,
                self.ny as int,
                self.nz as int,
            );
        }
        assert(0 < self.nx * self.ny) by (nonlinear_arith)
            requires
                0 < self.nx,
                0 < self.ny,
        ;
        (bid % self.nx, (bid / self.nx) % self.ny, bid / self.nxy)
    }
}

impl GridDims {
    /// The block that voxel `(x, y, z)` lies in.
    pub open spec fn spec_block_of(&self, x: int, y: int, z: int) -> int {
        crate::layout::index3(
            x / self.bsx as int,
            y / self.bsx as int,
            z / self.bsx as int,
            self.nx as int,
            self.ny as int,
        )
    }

    /// The block that voxel `(x, y, z)` lies in.
    pub fn block_of(&self, x: usize, y: usize, z: usize) -> (r: usize)
        requires
            self.wf(),
            x < self.sx,
            y < self.sy,
            z < self.sz,
        ensures
            r == self.spec_block_of(x as int, y as int, z as int),
            r < self.count(),
    {
        let bx: usize = x / self.bsx;
        let by: usize = y / self.bsx;
        let bz: usize = z / self.bsx;
        proof {
            let b = self.bsx as int;
            crate::layout::lemma_ceil_div(x as int, self.sx as int, b);
            crate::layout::lemma_ceil_div(y as int, self.sy as int, b);
            crate::layout::lemma_ceil_div(z as int, self.sz as int, b);
            crate::layout::lemma_index3(
                bx as int,
                by as int,
                bz as int,
                self.nx as int,
                self.ny as int,
                self.nz as int,
            );
        }
        bx + by * self.nx + bz * self.nxy
    }
}

/// The part of the range `[lo, hi]` that lies in `[0, n)`, as its start and its length.
pub fn clip_range(lo: i32, hi: i32, n: usize) -> (r: (usize, usize))
    ensures
        forall|v: int|
            #![trigger in_range(v, r.0 as int, r.1 as int)]
            in_range(v, r.0 as int, r.1 as int) <==> lo <= v <= hi && 0 <= v < n,
        r.0 + r.1 <= n,
{
    if n == 0 || hi < 0 || hi < lo {
        return (0, 0);
    }
    let first: usize = if lo < 0 { 0 } else { lo as usize };
    let last: usize = if (hi as usize) < n { hi as usize } else { n - 1 };
    if first > last {
        return (0, 0);
    }
    (first, last - first + 1)
}

/// `v` is one of the `len` numbers from `start` on.
pub open spec fn in_range(v: int, start: int, len: int) -> bool {
    start <= v < start + len
}

/// The voxel that is `(u, v, w)` into the block at `(i, j, k)` belongs to that block, and blocks are
/// numbered along x first, then y, then z.
pub proof fn law_block_of_voxel(
    d: &GridDims,
    i: int,
    j: int,
    k: int,
    u: int,
    v: int,
    w: int,
)
    requires
        0 <= u < d.bsx,
        0 <= v < d.bsx,
        0 <= w < d.bsx,
    ensures
        d.spec_block_of(d.bsx * i + u, d.bsx * j + v, d.bsx * k + w) == i + d.nx * j + d.nx * d.ny * k,
{
    let b = d.bsx as int;
    assert(b * i == i * b && b * j == j * b && b * k == k * b) by (nonlinear_arith);
    vstd::arithmetic::div_mod::lemma_fundamental_div_mod_converse(b * i + u, b, i, u);
    vstd::arithmetic::div_mod::lemma_fundamental_div_mod_converse(b * j + v, b, j, v);
    vstd::arithmetic::div_mod::lemma_fundamental_div_mod_converse(b * k + w, b, k, w);
    let (nx, ny) = (d.nx as int, d.ny as int);
    assert(j * nx == nx * j && k * (nx * ny) == nx * ny * k) by (nonlinear_arith);
}

/// A block is in a footprint exactly if each of its coordinates is in the range along that axis.
pub proof fn law_footprint_by_coordinates(d: &GridDims, b: BlockBox, x: int, y: int, z: int)
    requires
        0 <= x < d.nx,
        0 <= y < d.ny,
        0 <= z < d.nz,
    ensures
        d.in_footprint(b, x + d.nx * y + d.nx * d.ny * z) <==> b.x1 <= x <= b.x2 && b.y1 <= y <= b.y2
            && b.z1 <= z <= b.z2,
        d.x_of(x + d.nx * y + d.nx * d.ny * z) == x,
        d.y_of(x + d.nx * y + d.nx * d.ny * z) == y,
        d.z_of(x + d.nx * y + d.nx * d.ny * z) == z,
{
    crate::layout::law_coords_of_cell(x, y, z, d.nx as int, d.ny as int, d.nz as int);
}

/// No block outside of the grid is in a footprint.
pub proof fn law_footprint_stays_inside(d: &GridDims, b: BlockBox, bid: int)
    requires
        d.in_footprint(b, bid),
    ensures
        0 <= bid < d.nx * d.ny * d.nz,
{
}

/// A range begins at its start, and grows by the number that follows it.
pub proof fn law_range_grows(v: int, start: int, len: int)
    requires
        0 <= len,
    ensures
        !in_range(v, start, 0),
        in_range(v, start, len + 1) <==> in_range(v, start, len) || v == start + len,
{
}

/// No edge is longer than the longest or shorter than the shortest, and both are edges.
pub proof fn law_edges(d: &GridDims)
    ensures
        d.sx <= d.longest() && d.sy <= d.longest() && d.sz <= d.longest(),
        d.longest() == d.sx || d.longest() == d.sy || d.longest() == d.sz,
        d.shortest() <= d.sx && d.shortest() <= d.sy && d.shortest() <= d.sz,
        d.shortest() == d.sx || d.shortest() == d.sy || d.shortest() == d.sz,
{
}

/// There are as many blocks along each axis as it takes to hold the voxels, and no more.
pub proof fn law_dims_cover(d: &GridDims)
    requires
        d.wf(),
    ensures
        0 < d.sx ==> d.bsx * (d.nx - 1) < d.sx <= d.bsx * d.nx,
        0 < d.sy ==> d.bsx * (d.ny - 1) < d.sy <= d.bsx * d.ny,
        0 < d.sz ==> d.bsx * (d.nz - 1) < d.sz <= d.bsx * d.nz,
        d.count() == d.nx * d.ny * d.nz,
{
    crate::sparse_grid::lemma_blocks_along(d.sx as int, d.bsx as int);
    crate::sparse_grid::lemma_blocks_along(d.sy as int, d.bsx as int);
    crate::sparse_grid::lemma_blocks_along(d.sz as int, d.bsx as int);
}

} // verus!
