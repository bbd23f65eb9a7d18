//! A single-resolution sparse grid of blocks.
//!
//! The grid covers `sx * sy * sz` voxels with cubic blocks. Blocks take memory when they are first
//! written; until then a block is virtual and reads as a constant.

pub use crate::blockpool::BlockPtr;
use crate::blockpool::{Block, BlockPool};
use vstd::prelude::*;

verus! {

/// Access to one block that keeps the shared `empty` and `full` dummies from being changed.
pub enum BlockRef<'a, D: Copy + Default + Send + Sync, const BSX: usize, const N: usize> {
    /// An allocated block with data of its own.
    Allocated(&'a mut Block<D, BSX, N>),
    /// A virtual block that is entirely empty.
    Empty,
    /// A virtual block that is entirely full (a solid obstacle, for one).
    Full,
}

/// What stands behind a block id.
#[derive(Clone, Copy, Debug, PartialEq, Eq, Structural)]
pub enum BlockKind {
    /// Reads as the empty value.
    Empty,
    /// Reads as the full value.
    Full,
    /// Has data of its own.
    Allocated(BlockPtr),
}

/// Sparse three-dimensional grid of `BSX`-cubed blocks.
pub struct SparseGrid<D, const BSX: usize, const N: usize> where D: Copy + Default + Send + Sync {
    /// Diagnostic label.
    pub name: String,
    /// Voxels along x.
    pub sx: usize,
    /// Voxels along y.
    pub sy: usize,
    /// Voxels along z.
    pub sz: usize,
    /// Blocks along x.
    pub nx: usize,
    /// Blocks along y.
    pub ny: usize,
    /// Blocks along z.
    pub nz: usize,
    /// Blocks of one z slice, `nx * ny`.
    pub nxy: usize,
    /// Blocks in all.
    pub n_blocks: usize,
    /// The handle of each block, by block id.
    pub blockmap: Vec<Option<BlockPtr>>,
    /// Where the blocks live.
    pub block_pool: BlockPool<D, BSX, N>,
    /// The dummy that empty blocks share.
    pub empty_block: BlockPtr,
    /// The dummy that full blocks share.
    pub full_block: BlockPtr,
    /// What empty blocks read as.
    pub empty_value: D,
    /// What full blocks read as.
    pub full_value: D,
}

impl<D, const BSX: usize, const N: usize> SparseGrid<D, BSX, N> where
    D: Copy + Default + Send + Sync,
 {
    /// The sizes fit together: the blocks cover the voxels, and none is to spare.
    pub open spec fn wf_shape(&self) -> bool {
        &&& crate::blockpool::block_shape(BSX as int, N as int)
        &&& self.nx == crate::layout::ceil_div(self.sx as int, BSX as int)
        &&& self.ny == crate::layout::ceil_div(self.sy as int, BSX as int)
        &&& self.nz == crate::layout::ceil_div(self.sz as int, BSX as int)
        &&& self.nxy == self.nx * self.ny
        &&& self.n_blocks == self.nxy * self.nz
        &&& self.blockmap@.len() == self.n_blocks
    }

    /// The invariant of the grid: the sizes fit together, the dummies hold their constants, and no
    /// two block ids share an allocated block.
    pub open spec fn wf(&self) -> bool {
        &&& self.wf_shape()
        &&& self.block_pool.wf()
        &&& self.empty_block.0 < self.block_pool.spec_allocated()
        &&& self.full_block.0 < self.block_pool.spec_allocated()
        &&& self.empty_block != self.full_block
        &&& self.block_pool.spec_block(self.empty_block.0 as int).is_filled_with(self.empty_value)
        &&& self.block_pool.spec_block(self.full_block.0 as int).is_filled_with(self.full_value)
        &&& forall|b: int|
            0 <= b < self.n_blocks && (#[trigger] self.blockmap@[b]) is Some ==> self.blockmap@[b].unwrap().0
                < self.block_pool.spec_allocated()
        &&& forall|a: int, b: int|
            0 <= a < self.n_blocks && 0 <= b < self.n_blocks && self.kind(a) is Allocated
                && #[trigger] self.blockmap@[a] == #[trigger] self.blockmap@[b] ==> a == b
    }

    /// What stands behind block id `bid`.
    pub open spec fn kind(&self, bid: int) -> BlockKind {
        match self.blockmap@[bid] {
            None => BlockKind::Empty,
            Some(p) => if p == self.empty_block {
                BlockKind::Empty
            } else if p == self.full_block {
                BlockKind::Full
            } else {
                BlockKind::Allocated(p)
            },
        }
    }

    /// The value of voxel `vid` of block `bid`.
    pub open spec fn block_value(&self, bid: int, vid: int) -> D {
        match self.kind(bid) {
            BlockKind::Empty => self.empty_value,
            BlockKind::Full => self.full_value,
            BlockKind::Allocated(p) => self.block_pool.spec_block(p.0 as int).data@[vid],
        }
    }

    /// The id of the block that voxel `(x, y, z)` lies in.
    pub open spec fn bid_of(&self, x: int, y: int, z: int) -> int {
        crate::layout::index3(
            x / BSX as int,
            y / BSX as int,
            z / BSX as int,
            self.nx as int,
            self.ny as int,
        )
    }

    /// The id of voxel `(x, y, z)` within its block.
    pub open spec fn vid_of(x: int, y: int, z: int) -> int {
        crate::layout::index3(
            x % BSX as int,
            y % BSX as int,
            z % BSX as int,
            BSX as int,
            BSX as int,
        )
    }

    /// The value of voxel `(x, y, z)`.
    pub open spec fn voxel(&self, x: int, y: int, z: int) -> D {
        self.block_value(self.bid_of(x, y, z), Self::vid_of(x, y, z))
    }

    /// `(x, y, z)` is a voxel of the grid.
    pub open spec fn has_voxel(&self, x: int, y: int, z: int) -> bool {
        crate::layout::in_box(x, y, z, self.sx as int, self.sy as int, self.sz as int)
    }

    /// How many more blocks can be allocated.
    pub open spec fn spec_free(&self) -> int {
        self.block_pool.spec_limit() - self.block_pool.spec_allocated()
    }

    /// The two grids have the same name, sizes and constants.
    pub open spec fn same_shape(&self, other: &Self) -> bool {
        &&& self.name == other.name
        &&& self.sx == other.sx
        &&& self.sy == other.sy
        &&& self.sz == other.sz
        &&& self.nx == other.nx
        &&& self.ny == other.ny
        &&& self.nz == other.nz
        &&& self.nxy == other.nxy
        &&& self.n_blocks == other.n_blocks
        &&& self.empty_value == other.empty_value
        &&& self.full_value == other.full_value
    }

    /// Block `bid` is the same in both grids.
    pub open spec fn same_block(&self, other: &Self, bid: int) -> bool {
        &&& self.kind(bid) == other.kind(bid)
        &&& forall|v: int| #[trigger] self.block_value(bid, v) == other.block_value(bid, v)
    }

    /// The block and the voxel of a grid cell are in range.
    pub proof fn lemma_ids(&self, x: int, y: int, z: int)
        requires
            self.wf_shape(),
            self.has_voxel(x, y, z),
        ensures
            0 <= self.bid_of(x, y, z) < self.n_blocks,
            0 <= Self::vid_of(x, y, z) < N,
            crate::layout::in_box(
                x / BSX as int,
                y / BSX as int,
                z / BSX as int,
                self.nx as int,
                self.ny as int,
                self.nz as int,
            ),
            crate::layout::in_box(
                x % BSX as int,
                y % BSX as int,
                z % BSX as int,
                BSX as int,
                BSX as int,
                BSX as int,
            ),
    {
        let b = BSX as int;
        crate::layout::lemma_ceil_div(x, self.sx as int, b);
        crate::layout::lemma_ceil_div(y, self.sy as int, b);
        crate::layout::lemma_ceil_div(z, self.sz as int, b);
        crate::layout::lemma_index3(
            x / b,
            y / b,
            z / b,
            self.nx as int,
            self.ny as int,
            self.nz as int,
        );
        crate::layout::lemma_index3(x % b, y % b, z % b, b, b, b);
    }

    /// Different voxels have different ids.
    pub proof fn law_voxel_ids_injective(&self, x: int, y: int, z: int, x2: int, y2: int, z2: int)
        requires
            self.wf_shape(),
            self.has_voxel(x, y, z),
            self.has_voxel(x2, y2, z2),
            self.bid_of(x, y, z) == self.bid_of(x2, y2, z2),
            Self::vid_of(x, y, z) == Self::vid_of(x2, y2, z2),
        ensures
            x == x2,
            y == y2,
            z == z2,
    {
        let b = BSX as int;
        self.lemma_ids(x, y, z);
        self.lemma_ids(x2, y2, z2);
        crate::layout::lemma_index3_injective(
            x / b,
            y / b,
            z / b,
            x2 / b,
            y2 / b,
            z2 / b,
            self.nx as int,
            self.ny as int,
            self.nz as int,
        );
        crate::layout::lemma_index3_injective(
            x % b,
            y % b,
            z % b,
            x2 % b,
            y2 % b,
            z2 % b,
            b,
            b,
            b,
        );
        crate::layout::lemma_ceil_div(x, self.sx as int, b);
        crate::layout::lemma_ceil_div(y, self.sy as int, b);
        crate::layout::lemma_ceil_div(z, self.sz as int, b);
        crate::layout::lemma_ceil_div(x2, self.sx as int, b);
        crate::layout::lemma_ceil_div(y2, self.sy as int, b);
        crate::layout::lemma_ceil_div(z2, self.sz as int, b);
    }

    /// A grid of `sx * sy * sz` voxels, all of its blocks empty. Two blocks of the pool become the
    /// dummies.
    pub fn new(
        name: String,
        sx: usize,
        sy: usize,
        sz: usize,
        empty_value: D,
        full_value: D,
        block_pool: BlockPool<D, BSX, N>,
    ) -> (r: Self)
        requires
            crate::blockpool::block_shape(BSX as int, N as int),
            block_pool.wf(),
            block_pool.spec_allocated() + 2 <= block_pool.spec_limit(),
            sx + BSX <= usize::MAX,
            sy + BSX <= usize::MAX,
            sz + BSX <= usize::MAX,
            crate::layout::ceil_div(sx as int, BSX as int) * crate::layout::ceil_div(
                sy as int,
                BSX as int,
            ) <= usize::MAX,
            crate::layout::ceil_div(sx as int, BSX as int) * crate::layout::ceil_div(
                sy as int,
                BSX as int,
            ) * crate::layout::ceil_div(sz as int, BSX as int) <= usize::MAX,
        ensures
            r.wf(),
            r.name == name,
            r.sx == sx,
            r.sy == sy,
            r.sz == sz,
            r.empty_value == empty_value,
            r.full_value == full_value,
            r.blockmap@ == Seq::new(r.n_blocks as nat, |i: int| None::<BlockPtr>),
            r.empty_block.0 == block_pool.spec_allocated(),
            r.full_block.0 == block_pool.spec_allocated() + 1,
            r.spec_free() == block_pool.spec_limit() - block_pool.spec_allocated() - 2,
            forall|b: int| 0 <= b < r.n_blocks ==> #[trigger] r.kind(b) is Empty,
            forall|x: int, y: int, z: int|
                r.has_voxel(x, y, z) ==> #[trigger] r.voxel(x, y, z) == empty_value,
    {
        let mut pool = block_pool;
        let empty_block = pool.alloc_block();
        let full_block = pool.alloc_block();
        proof {
            pool.lemma_wf();
        }
        fill_block(&mut pool, empty_block, empty_value);
        fill_block(&mut pool, full_block, full_value);
        let nx: usize = (sx + BSX - 1) / BSX;
        let ny: usize = (sy + BSX - 1) / BSX;
        let nz: usize = (sz + BSX - 1) / BSX;
        let nxy: usize = nx * ny;
        let n_blocks: usize = nxy * nz;
        let r = SparseGrid {
            name,
            sx,
            sy,
            sz,
            nx,
            ny,
            nz,
            nxy,
            n_blocks,
            blockmap: crate::arith::filled(n_blocks, None),
            block_pool: pool,
            empty_block,
            full_block,
            empty_value,
            full_value,
        };
        proof {
            assert forall|x: int, y: int, z: int| r.has_voxel(x, y, z) implies #[trigger] r.voxel(
                x,
                y,
                z,
            ) == empty_value by {
                r.lemma_ids(x, y, z);
            }
        }
        r
    }

    /// The id of the block that voxel `(x, y, z)` lies in.
    pub fn get_block_id(&self, x: usize, y: usize, z: usize) -> (r: usize)
        requires
            0 < BSX,
            self.nxy == self.nx * self.ny,
            self.bid_of(x as int, y as int, z as int) <= usize::MAX,
        ensures
            r == self.bid_of(x as int, y as int, z as int),
            self.wf_shape() && self.has_voxel(x as int, y as int, z as int) ==> r < self.n_blocks,
    {
        let bx: usize = x / BSX;
        let by: usize = y / BSX;
        let bz: usize = z / BSX;
        proof {
            assert(0 <= by * self.nx) by (nonlinear_arith)
                requires
                    0 <= by,
                    0 <= self.nx,
            ;
            assert(0 <= bz * self.nxy) by (nonlinear_arith)
                requires
                    0 <= bz,
                    0 <= self.nxy,
            ;
            if self.wf_shape() && self.has_voxel(x as int, y as int, z as int) {
                self.lemma_ids(x as int, y as int, z as int);
            }
        }
        bx + (by * self.nx) + (bz * self.nxy)
    }

    /// The id of voxel `(x, y, z)` within its block.
    pub fn get_voxel_id(x: usize, y: usize, z: usize) -> (r: usize)
        requires
            crate::blockpool::block_shape(BSX as int, N as int),
        ensures
            r == Self::vid_of(x as int, y as int, z as int),
            r < N,
    {
        crate::blockpool::voxel_index::<BSX>(x % BSX, y % BSX, z % BSX)
    }

    /// The block coordinates of block `bid`.
    pub fn get_block_coords_by_id(&self, bid: usize) -> (r: (usize, usize, usize))
        requires
            self.wf_shape(),
            bid < self.n_blocks,
        ensures
            r.0 == crate::layout::coord_x(bid as int, self.nx as int),
            r.1 == crate::layout::coord_y(bid as int, self.nx as int, self.ny as int),
            r.2 == crate::layout::coord_z(bid as int, self.nx as int, self.ny as int),
            crate::layout::in_box(
                r.0 as int,
                r.1 as int,
                r.2 as int,
                self.nx as int,
                self.ny as int,
                self.nz as int,
            ),
            crate::layout::index3(
                r.0 as int,
                r.1 as int,
                r.2 as int,
                self.nx as int,
                self.ny as int,
            ) == bid,
    {
        proof {
            crate::layout::lemma_coords3(
                bid as int,
                self.nx as int,
                self.ny as int,
                self.nz as int,
            );
        }
        assert(0 < self.nx * self.ny) by (nonlinear_arith)
            requires
                0 < self.nx,
                0 < self.ny,
        ;
        (bid % self.nx, (bid / self.nx) % self.ny, bid / self.nxy)
    }

    /// What stands behind block id `bid`.
    pub fn block_kind(&self, bid: usize) -> (r: BlockKind)
        requires
            bid < self.blockmap@.len(),
        ensures
            r == self.kind(bid as int),
    {
        match self.blockmap[bid] {
            None => BlockKind::Empty,
            Some(p) => {
                if p == self.empty_block {
                    BlockKind::Empty
                } else if p == self.full_block {
                    BlockKind::Full
                } else {
                    BlockKind::Allocated(p)
                }
            },
        }
    }

    /// Whether block `bid` is virtual and reads as the empty value.
    pub fn is_empty_block(&self, bid: usize) -> (r: bool)
        requires
            bid < self.blockmap@.len(),
        ensures
            r == (self.kind(bid as int) is Empty),
    {
        match self.block_kind(bid) {
            BlockKind::Empty => true,
            _ => false,
        }
    }

    /// Access to block `bid`: its data where it is allocated, else which dummy it is.
    pub fn get_block(&mut self, bid: usize) -> (r: BlockRef<'_, D, BSX, N>)
        requires
            old(self).wf(),
            bid < old(self).n_blocks,
        ensures
            final(self).wf(),
            match old(self).kind(bid as int) {
                BlockKind::Empty => r is Empty && *final(self) == *old(self),
                BlockKind::Full => r is Full && *final(self) == *old(self),
                BlockKind::Allocated(p) => {
                    &&& r is Allocated
                    &&& *(r->Allocated_0) == old(self).block_pool.spec_block(p.0 as int)
                    &&& final(self).same_shape(old(self))
                    &&& final(self).spec_free() == old(self).spec_free()
                    &&& final(self).kind(bid as int) == old(self).kind(bid as int)
                    &&& forall|v: int| #[trigger]
                        final(self).block_value(bid as int, v) == final(r->Allocated_0).data@[v]
                    &&& forall|b: int|
                        0 <= b < old(self).n_blocks && b != bid
                            ==> #[trigger] final(self).same_block(old(self), b)
                },
            },
    {
        match self.block_kind(bid) {
            BlockKind::Empty => BlockRef::Empty,
            BlockKind::Full => BlockRef::Full,
            BlockKind::Allocated(p) => {
                proof {
                    self.block_pool.lemma_wf();
                    assert(self.blockmap@[bid as int] == Some(p));
                }
                BlockRef::Allocated(self.block_pool.block_mut(p))
            },
        }
    }

    /// The value of voxel `vid` of block `bid`, without allocating.
    pub fn value_at(&self, bid: usize, vid: usize) -> (r: D)
        requires
            self.wf(),
            bid < self.n_blocks,
            vid < N,
        ensures
            r == self.block_value(bid as int, vid as int),
    {
        match self.block_kind(bid) {
            BlockKind::Empty => self.empty_value,
            BlockKind::Full => self.full_value,
            BlockKind::Allocated(p) => self.block_pool.block(p).data[vid],
        }
    }

    /// The value of voxel `(x, y, z)`, without allocating.
    pub fn get_voxel(&self, x: usize, y: usize, z: usize) -> (r: D)
        requires
            self.wf(),
            self.has_voxel(x as int, y as int, z as int),
        ensures
            r == self.voxel(x as int, y as int, z as int),
    {
        proof {
            self.lemma_ids(x as int, y as int, z as int);
        }
        self.value_at(self.get_block_id(x, y, z), Self::get_voxel_id(x, y, z))
    }

    /// `after` is `before` with memory of its own for block `bid`, filled with the empty value
    /// unless it had some.
    pub open spec fn block_ensured(before: Self, after: Self, bid: usize) -> bool {
        &&& after.wf()
        &&& after.same_shape(&before)
        &&& after.kind(bid as int) is Allocated
        &&& before.kind(bid as int) is Allocated ==> after == before
        &&& !(before.kind(bid as int) is Allocated) ==> {
            &&& after.spec_free() == before.spec_free() - 1
            &&& forall|v: int|
                0 <= v < N ==> #[trigger] after.block_value(bid as int, v) == before.empty_value
        }
        &&& forall|b: int|
            0 <= b < before.n_blocks && b != bid ==> #[trigger] after.same_block(&before, b)
    }

    /// Gives block `bid` memory of its own, filled with the empty value, unless it has some.
    pub fn ensure_block(&mut self, bid: usize)
        requires
            old(self).wf(),
            bid < old(self).n_blocks,
            old(self).kind(bid as int) is Allocated || old(self).spec_free() > 0,
        ensures
            Self::block_ensured(*old(self), *final(self), bid),
    {
        if let BlockKind::Allocated(_) = self.block_kind(bid) {
            return;
        }
        proof {
            self.block_pool.lemma_wf();
        }
        let p = self.block_pool.alloc_block();
        proof {
            self.block_pool.lemma_wf();
        }
        fill_block(&mut self.block_pool, p, self.empty_value);
        self.blockmap[bid] = Some(p);
        proof {
            assert forall|b: int| 0 <= b < self.n_blocks && b != bid implies #[trigger] self.same_block(
                old(self),
                b,
            ) by {
                assert(self.blockmap@[b] == old(self).blockmap@[b]);
                assert(self.kind(b) == old(self).kind(b));
            }
            assert forall|a: int, b: int|
                0 <= a < self.n_blocks && 0 <= b < self.n_blocks && self.kind(a) is Allocated
                    && #[trigger] self.blockmap@[a] == #[trigger] self.blockmap@[b] implies a
                == b by {
                if a != bid {
                    assert(self.same_block(old(self), a));
                    assert(self.blockmap@[a] is Some);
                }
                if b != bid {
                    assert(self.same_block(old(self), b));
                    assert(self.blockmap@[b] is Some);
                }
            }
        }
    }

    /// `after` is `before` with `val` at place `vid` of block `bid`.
    pub open spec fn value_written(before: Self, after: Self, bid: usize, vid: usize, val: D) -> bool {
        &&& after.wf()
        &&& after.same_shape(&before)
        &&& after.spec_free() == before.spec_free()
        &&& after.kind(bid as int) == before.kind(bid as int)
        &&& forall|v: int|
            0 <= v < N ==> #[trigger] after.block_value(bid as int, v) == (if v == vid {
                val
            } else {
                before.block_value(bid as int, v)
            })
        &&& forall|b: int|
            0 <= b < before.n_blocks && b != bid ==> #[trigger] after.same_block(&before, b)
    }

    /// Writes voxel `vid` of block `bid`, which is allocated.
    pub fn write_at(&mut self, bid: usize, vid: usize, val: D)
        requires
            old(self).wf(),
            bid < old(self).n_blocks,
            vid < N,
            old(self).kind(bid as int) is Allocated,
        ensures
            Self::value_written(*old(self), *final(self), bid, vid, val),
    {
        let block = self.get_block(bid);
        if let BlockRef::Allocated(block) = block {
            block.data[vid] = val;
        }
    }

    /// `after` is `before` with `val` at voxel `(x, y, z)`, the block of which has memory of its own.
    pub open spec fn voxel_written(
        before: Self,
        after: Self,
        x: usize,
        y: usize,
        z: usize,
        val: D,
    ) -> bool {
        &&& after.wf()
        &&& after.same_shape(&before)
        &&& after.spec_free() == before.spec_free()
        &&& forall|b: int|
            0 <= b < before.n_blocks ==> #[trigger] after.kind(b) == before.kind(b)
        &&& after.voxel(x as int, y as int, z as int) == val
        &&& forall|x2: int, y2: int, z2: int|
            before.has_voxel(x2, y2, z2) && (x2, y2, z2) != (x as int, y as int, z as int)
                ==> #[trigger] after.voxel(x2, y2, z2) == before.voxel(x2, y2, z2)
    }

    /// Writes voxel `(x, y, z)`, whose block is allocated.
    pub fn write_voxel(&mut self, x: usize, y: usize, z: usize, val: D)
        requires
            old(self).wf(),
            old(self).has_voxel(x as int, y as int, z as int),
            old(self).kind(old(self).bid_of(x as int, y as int, z as int)) is Allocated,
        ensures
            Self::voxel_written(*old(self), *final(self), x, y, z, val),
    {
        proof {
            self.lemma_ids(x as int, y as int, z as int);
        }
        let bid: usize = self.get_block_id(x, y, z);
        let vid: usize = Self::get_voxel_id(x, y, z);
        self.write_at(bid, vid, val);
        proof {
            assert forall|b: int| 0 <= b < old(self).n_blocks implies #[trigger] self.kind(b) == old(
                self,
            ).kind(b) by {
                if b != bid {
                    assert(self.same_block(old(self), b));
                }
            }
            assert forall|x2: int, y2: int, z2: int|
                old(self).has_voxel(x2, y2, z2) && (x2, y2, z2) != (
                    x as int,
                    y as int,
                    z as int,
                ) implies #[trigger] self.voxel(x2, y2, z2) == old(self).voxel(x2, y2, z2) by {
                old(self).lemma_ids(x2, y2, z2);
                let b2 = old(self).bid_of(x2, y2, z2);
                let v2 = Self::vid_of(x2, y2, z2);
                if b2 == bid {
                    if v2 == vid {
                        old(self).law_voxel_ids_injective(x2, y2, z2, x as int, y as int, z as int);
                    }
                    assert(self.voxel(x2, y2, z2) == self.block_value(bid as int, v2));
                } else {
                    assert(self.same_block(old(self), b2));
                    assert(self.block_value(b2, v2) == old(self).block_value(b2, v2));
                }
            }
        }
    }

    /// `after` is `before` with `data` for block `bid`.
    pub open spec fn block_replaced(before: Self, after: Self, bid: usize, data: Seq<D>) -> bool {
        &&& after.wf()
        &&& after.same_shape(&before)
        &&& after.spec_free() == before.spec_free()
        &&& after.kind(bid as int) == before.kind(bid as int)
        &&& forall|v: int|
            0 <= v < N ==> #[trigger] after.block_value(bid as int, v) == data[v]
        &&& forall|b: int|
            0 <= b < before.n_blocks && b != bid ==> #[trigger] after.same_block(&before, b)
    }

    /// Replaces the data of block `bid`, which is allocated.
    pub fn set_block(&mut self, bid: usize, data: &Vec<D>)
        requires
            old(self).wf(),
            bid < old(self).n_blocks,
            data@.len() == N,
            old(self).kind(bid as int) is Allocated,
        ensures
            Self::block_replaced(*old(self), *final(self), bid, data@),
    {
        let mut v: usize = 0;
        while v < N
            invariant
                v <= N,
                bid < old(self).n_blocks,
                data@.len() == N,
                old(self).kind(bid as int) is Allocated,
                self.wf(),
                self.same_shape(old(self)),
                self.spec_free() == old(self).spec_free(),
                self.kind(bid as int) == old(self).kind(bid as int),
                forall|k: int| 0 <= k < v ==> #[trigger] self.block_value(bid as int, k) == data@[k],
                forall|b: int|
                    0 <= b < old(self).n_blocks && b != bid ==> #[trigger] self.same_block(
                        old(self),
                        b,
                    ),
            decreases N - v,
        {
            let ghost prior = *self;
            self.write_at(bid, v, data[v]);
            proof {
                assert forall|b: int|
                    0 <= b < old(self).n_blocks && b != bid implies #[trigger] self.same_block(
                    old(self),
                    b,
                ) by {
                    assert(self.same_block(&prior, b));
                    assert(prior.same_block(old(self), b));
                }
                assert forall|k: int| 0 <= k < v + 1 implies #[trigger] self.block_value(
                    bid as int,
                    k,
                ) == data@[k] by {
                    if k < v {
                        assert(prior.block_value(bid as int, k) == data@[k]);
                    }
                }
            }
            v = v + 1;
        }
    }

    /// The data of block `bid`.
    pub open spec fn block_data(&self, bid: int) -> Seq<D> {
        Seq::new(N as nat, |v: int| self.block_value(bid, v))
    }

    /// One of the updates is for block `b`.
    pub open spec fn is_updated(bids: Seq<usize>, updates: Seq<Option<Vec<D>>>, b: int) -> bool {
        exists|k: int| 0 <= k < bids.len() && #[trigger] bids[k] == b && updates[k] is Some
    }

    /// `data` is one of the updates for block `b`.
    pub open spec fn is_update_of(
        bids: Seq<usize>,
        updates: Seq<Option<Vec<D>>>,
        b: int,
        data: Seq<D>,
    ) -> bool {
        exists|k: int|
            0 <= k < bids.len() && #[trigger] bids[k] == b && updates[k] is Some
                && updates[k].unwrap()@ == data
    }

    /// `after` is `before` with the given data for the listed blocks.
    pub open spec fn blocks_replaced(
        before: Self,
        after: Self,
        bids: Seq<usize>,
        updates: Seq<Option<Vec<D>>>,
    ) -> bool {
        &&& after.wf()
        &&& after.same_shape(&before)
        &&& after.spec_free() == before.spec_free()
        &&& forall|b: int|
            0 <= b < before.n_blocks ==> #[trigger] after.kind(b) == before.kind(b)
        &&& forall|b: int|
            0 <= b < before.n_blocks && !Self::is_updated(bids, updates, b)
                ==> #[trigger] after.same_block(&before, b)
        &&& forall|b: int|
            0 <= b < before.n_blocks && Self::is_updated(bids, updates, b)
                ==> Self::is_update_of(
                bids,
                updates,
                b,
                #[trigger] after.block_data(b),
            )
    }

    /// Replaces the data of the listed blocks for which there is an update. They are allocated.
    pub fn set_blocks(&mut self, bids: &Vec<usize>, updates: &Vec<Option<Vec<D>>>)
        requires
            old(self).wf(),
            updates@.len() == bids@.len(),
            forall|k: int| 0 <= k < bids@.len() ==> (#[trigger] bids@[k]) < old(self).n_blocks,
            forall|k: int|
                0 <= k < bids@.len() && (#[trigger] updates@[k]) is Some ==> old(self).kind(
                    bids@[k] as int,
                ) is Allocated && updates@[k].unwrap()@.len() == N,
        ensures
            Self::blocks_replaced(*old(self), *final(self), bids@, updates@),
    {
        let mut i: usize = 0;
        while i < bids.len()
            invariant
                i <= bids@.len(),
                updates@.len() == bids@.len(),
                self.wf(),
                self.same_shape(old(self)),
                self.spec_free() == old(self).spec_free(),
                forall|k: int| 0 <= k < bids@.len() ==> (#[trigger] bids@[k]) < old(self).n_blocks,
                forall|k: int|
                    0 <= k < bids@.len() && (#[trigger] updates@[k]) is Some ==> old(self).kind(
                        bids@[k] as int,
                    ) is Allocated && updates@[k].unwrap()@.len() == N,
                forall|b: int|
                    0 <= b < old(self).n_blocks ==> #[trigger] self.kind(b) == old(self).kind(b),
                forall|b: int|
                    0 <= b < old(self).n_blocks && (forall|k: int|
                        0 <= k < i ==> #[trigger] bids@[k] != b || updates@[k] is None)
                        ==> #[trigger] self.same_block(old(self), b),
                forall|k: int|
                    0 <= k < i && updates@[k] is Some ==> Self::is_update_of(
                        bids@,
                        updates@,
                        #[trigger] bids@[k] as int,
                        self.block_data(bids@[k] as int),
                    ),
            decreases bids@.len() - i,
        {
            let ghost prior = *self;
            let bid: usize = bids[i];
            assert(bids@[i as int] < old(self).n_blocks);
            assert(self.kind(bid as int) == old(self).kind(bid as int));
            if let Some(data) = &updates[i] {
                assert(updates@[i as int] is Some);
                self.set_block(bid, data);
                proof {
                    assert(self.block_data(bid as int) =~= data@);
                    assert forall|b: int| 0 <= b < old(self).n_blocks implies #[trigger] self.kind(b)
                        == old(self).kind(b) by {
                        if b != bid {
                            assert(self.same_block(&prior, b));
                        }
                    }
                    assert forall|b: int|
                        0 <= b < old(self).n_blocks && (forall|k: int|
                            0 <= k < i + 1 ==> #[trigger] bids@[k] != b || updates@[k] is None) implies #[trigger] self.same_block(
                        old(self),
                        b,
                    ) by {
                        assert(bids@[i as int] != b);
                        assert(self.same_block(&prior, b));
                        assert(prior.same_block(old(self), b));
                    }
                    assert forall|k: int| 0 <= k < i + 1 && updates@[k] is Some implies Self::is_update_of(
                        bids@,
                        updates@,
                        #[trigger] bids@[k] as int,
                        self.block_data(bids@[k] as int),
                    ) by {
                        if bids@[k] != bid {
                            assert(self.same_block(&prior, bids@[k] as int));
                            assert(self.block_data(bids@[k] as int) =~= prior.block_data(
                                bids@[k] as int,
                            )) by {
                                assert forall|v: int| 0 <= v < N implies self.block_value(
                                    bids@[k] as int,
                                    v,
                                ) == prior.block_value(bids@[k] as int, v) by {}
                            }
                        } else {
                            assert(bids@[i as int] == bids@[k]);
                            assert(updates@[i as int].unwrap()@ == data@);
                        }
                    }
                }
            }
            i = i + 1;
        }
        proof {
            assert forall|b: int|
                0 <= b < old(self).n_blocks && !Self::is_updated(bids@, updates@, b) implies #[trigger] self.same_block(
                old(self),
                b,
            ) by {
                assert forall|k: int| 0 <= k < bids@.len() implies #[trigger] bids@[k] != b
                    || updates@[k] is None by {}
            }
            assert forall|b: int|
                0 <= b < old(self).n_blocks && Self::is_updated(bids@, updates@, b) implies Self::is_update_of(
                bids@,
                updates@,
                b,
                #[trigger] self.block_data(b),
            ) by {
                let k = choose|k: int|
                    0 <= k < bids@.len() && #[trigger] bids@[k] == b && updates@[k] is Some;
                assert(bids@[k] as int == b);
            }
        }
    }

    /// How many different blocks among the first `n` that are listed have no memory of their own.
    pub open spec fn missing(&self, bids: Seq<usize>, n: int) -> int
        decreases n,
    {
        if n <= 0 {
            0
        } else {
            self.missing(bids, n - 1) + if self.kind(bids[n - 1] as int) is Allocated || bids.take(
                n - 1,
            ).contains(bids[n - 1]) {
                0int
            } else {
                1int
            }
        }
    }

    /// The more blocks are listed, the more may be missing, and never more than are listed.
    pub proof fn lemma_missing(&self, bids: Seq<usize>, m: int, n: int)
        requires
            0 <= m <= n,
        ensures
            0 <= self.missing(bids, m) <= self.missing(bids, n) <= n,
        decreases n,
    {
        if m < n {
            self.lemma_missing(bids, m, n - 1);
        } else if 0 < n {
            self.lemma_missing(bids, n - 1, n - 1);
        }
    }

    /// `after` is `before` with memory of their own for the listed blocks, filled with the empty
    /// value unless they had some.
    pub open spec fn blocks_ensured(before: Self, after: Self, bids: Seq<usize>) -> bool {
        &&& after.wf()
        &&& after.same_shape(&before)
        &&& after.spec_free() == before.spec_free() - before.missing(
            bids,
            bids.len() as int,
        )
        &&& forall|i: int|
            0 <= i < bids.len() ==> after.kind(#[trigger] bids[i] as int) is Allocated
        &&& forall|b: int|
            0 <= b < before.n_blocks && !bids.contains(b as usize)
                ==> #[trigger] after.same_block(&before, b)
        &&& forall|b: int|
            0 <= b < before.n_blocks && before.kind(b) is Allocated
                ==> #[trigger] after.same_block(&before, b)
        &&& forall|b: int, v: int|
            0 <= b < before.n_blocks && bids.contains(b as usize) && !(before.kind(
                b,
            ) is Allocated) && 0 <= v < N ==> #[trigger] after.block_value(b, v) == before.empty_value
    }

    /// Gives each listed block memory of its own, filled with the empty value, unless it has some.
    pub fn ensure_blocks(&mut self, bids: &Vec<usize>)
        requires
            old(self).wf(),
            forall|i: int| 0 <= i < bids@.len() ==> (#[trigger] bids@[i]) < old(self).n_blocks,
            old(self).missing(bids@, bids@.len() as int) <= old(self).spec_free(),
        ensures
            Self::blocks_ensured(*old(self), *final(self), bids@),
    {
        let mut i: usize = 0;
        while i < bids.len()
            invariant
                i <= bids@.len(),
                old(self).wf(),
                self.wf(),
                self.same_shape(old(self)),
                forall|k: int| 0 <= k < bids@.len() ==> (#[trigger] bids@[k]) < old(self).n_blocks,
                old(self).missing(bids@, bids@.len() as int) <= old(self).spec_free(),
                self.spec_free() == old(self).spec_free() - old(self).missing(bids@, i as int),
                forall|k: int|
                    0 <= k < i ==> self.kind(#[trigger] bids@[k] as int) is Allocated,
                forall|b: int|
                    0 <= b < old(self).n_blocks && old(self).kind(b) is Allocated
                        ==> #[trigger] self.same_block(old(self), b),
                forall|b: int|
                    0 <= b < old(self).n_blocks && (forall|k: int|
                        0 <= k < i ==> #[trigger] bids@[k] != b) ==> #[trigger] self.same_block(
                        old(self),
                        b,
                    ),
                forall|b: int, v: int|
                    0 <= b < old(self).n_blocks && !(old(self).kind(b) is Allocated) && self.kind(
                        b,
                    ) is Allocated && 0 <= v < N ==> #[trigger] self.block_value(b, v) == old(
                        self,
                    ).empty_value,
            decreases bids@.len() - i,
        {
            let ghost prior = *self;
            let bid: usize = bids[i];
            proof {
                let taken = bids@.take(i as int);
                if taken.contains(bid) {
                    let k = choose|k: int| 0 <= k < taken.len() && taken[k] == bid;
                    assert(bids@[k] == bid);
                    assert(self.kind(bids@[k] as int) is Allocated);
                } else {
                    assert forall|k: int| 0 <= k < i implies #[trigger] bids@[k] != bid as int by {
                        assert(taken[k] == bids@[k]);
                    }
                    assert(self.same_block(old(self), bid as int));
                }
                old(self).lemma_missing(bids@, i + 1, bids@.len() as int);
            }
            self.ensure_block(bid);
            proof {
                assert forall|b: int| 0 <= b < old(self).n_blocks && b != bid implies #[trigger] self.same_block(
                    &prior,
                    b,
                ) by {}
                assert forall|b: int|
                    0 <= b < old(self).n_blocks && old(self).kind(b) is Allocated implies #[trigger] self.same_block(
                    old(self),
                    b,
                ) by {
                    assert(prior.same_block(old(self), b));
                    if b != bid {
                        assert(self.same_block(&prior, b));
                    }
                }
                assert forall|b: int|
                    0 <= b < old(self).n_blocks && (forall|k: int|
                        0 <= k < i + 1 ==> #[trigger] bids@[k] != b) implies #[trigger] self.same_block(
                    old(self),
                    b,
                ) by {
                    assert(bids@[i as int] != b);
                    assert(self.same_block(&prior, b));
                    assert(prior.same_block(old(self), b));
                }
                assert forall|b: int, v: int|
                    0 <= b < old(self).n_blocks && !(old(self).kind(b) is Allocated) && self.kind(
                        b,
                    ) is Allocated && 0 <= v < N implies #[trigger] self.block_value(b, v) == old(
                    self,
                ).empty_value by {
                    if b != bid {
                        assert(self.same_block(&prior, b));
                        assert(self.block_value(b, v) == prior.block_value(b, v));
                    } else if prior.kind(b) is Allocated {
                        assert(self.block_value(b, v) == prior.block_value(b, v));
                    }
                }
                assert forall|k: int| 0 <= k < i + 1 implies self.kind(#[trigger] bids@[k] as int) is Allocated by {
                    if bids@[k] != bid {
                        assert(self.same_block(&prior, bids@[k] as int));
                    }
                }
            }
            i = i + 1;
        }
        proof {
            assert forall|b: int| 0 <= b < old(self).n_blocks && !bids@.contains(
                b as usize,
            ) implies #[trigger] self.same_block(old(self), b) by {
                assert forall|k: int| 0 <= k < bids@.len() implies #[trigger] bids@[k] != b by {
                    if bids@[k] == b {
                        assert(bids@.contains(b as usize));
                    }
                }
            }
            assert forall|b: int, v: int|
                0 <= b < old(self).n_blocks && bids@.contains(b as usize) && !(old(self).kind(
                    b,
                ) is Allocated) && 0 <= v < N implies #[trigger] self.block_value(b, v) == old(
                self,
            ).empty_value by {
                let k = choose|k: int| 0 <= k < bids@.len() && bids@[k] == b as usize;
                assert(self.kind(bids@[k] as int) is Allocated);
            }
        }
    }

    /// `after` is `before` with `val` all over the listed blocks.
    pub open spec fn blocks_filled(before: Self, after: Self, bids: Seq<usize>, val: D) -> bool {
        &&& after.wf()
        &&& after.same_shape(&before)
        &&& after.spec_free() == before.spec_free()
        &&& forall|b: int|
            0 <= b < before.n_blocks ==> #[trigger] after.kind(b) == before.kind(b)
        &&& forall|b: int, v: int|
            0 <= b < before.n_blocks && bids.contains(b as usize) && 0 <= v < N
                ==> #[trigger] after.block_value(b, v) == val
        &&& forall|b: int|
            0 <= b < before.n_blocks && !bids.contains(b as usize)
                ==> #[trigger] after.same_block(&before, b)
    }

    /// Gives all voxels of each listed block the value `val`. The blocks are allocated.
    pub fn fill_blocks(&mut self, bids: &Vec<usize>, val: D)
        requires
            old(self).wf(),
            forall|i: int|
                0 <= i < bids@.len() ==> (#[trigger] bids@[i]) < old(self).n_blocks && old(
                    self,
                ).kind(bids@[i] as int) is Allocated,
        ensures
            Self::blocks_filled(*old(self), *final(self), bids@, val),
    {
        let data: Vec<D> = crate::arith::filled(N, val);
        let mut i: usize = 0;
        while i < bids.len()
            invariant
                i <= bids@.len(),
                data@ == Seq::new(N as nat, |k: int| val),
                self.wf(),
                self.same_shape(old(self)),
                self.spec_free() == old(self).spec_free(),
                forall|k: int|
                    0 <= k < bids@.len() ==> (#[trigger] bids@[k]) < old(self).n_blocks && old(
                        self,
                    ).kind(bids@[k] as int) is Allocated,
                forall|b: int|
                    0 <= b < old(self).n_blocks ==> #[trigger] self.kind(b) == old(self).kind(b),
                forall|k: int, v: int|
                    0 <= k < i && 0 <= v < N ==> #[trigger] self.block_value(bids@[k] as int, v)
                        == val,
                forall|b: int|
                    0 <= b < old(self).n_blocks && (forall|k: int|
                        0 <= k < i ==> #[trigger] bids@[k] != b) ==> #[trigger] self.same_block(
                        old(self),
                        b,
                    ),
            decreases bids@.len() - i,
        {
            let ghost prior = *self;
            let bid: usize = bids[i];
            assert(old(self).kind(bids@[i as int] as int) is Allocated);
            assert(self.kind(bid as int) == old(self).kind(bid as int));
            self.set_block(bid, &data);
            proof {
                assert forall|b: int| 0 <= b < old(self).n_blocks implies #[trigger] self.kind(b)
                    == old(self).kind(b) by {
                    if b != bid {
                        assert(self.same_block(&prior, b));
                    }
                }
                assert forall|k: int, v: int| 0 <= k < i + 1 && 0 <= v < N implies #[trigger] self.block_value(
                    bids@[k] as int,
                    v,
                ) == val by {
                    if bids@[k] != bid {
                        assert(self.same_block(&prior, bids@[k] as int));
                        assert(prior.block_value(bids@[k] as int, v) == val);
                    }
                }
                assert forall|b: int|
                    0 <= b < old(self).n_blocks && (forall|k: int|
                        0 <= k < i + 1 ==> #[trigger] bids@[k] != b) implies #[trigger] self.same_block(
                    old(self),
                    b,
                ) by {
                    assert(bids@[i as int] != b);
                    assert(self.same_block(&prior, b));
                    assert(prior.same_block(old(self), b));
                }
            }
            i = i + 1;
        }
        proof {
            assert forall|b: int, v: int|
                0 <= b < old(self).n_blocks && bids@.contains(b as usize) && 0 <= v < N implies #[trigger] self.block_value(
                b,
                v,
            ) == val by {
                let k = choose|k: int| 0 <= k < bids@.len() && bids@[k] == b as usize;
                assert(self.block_value(bids@[k] as int, v) == val);
            }
            assert forall|b: int| 0 <= b < old(self).n_blocks && !bids@.contains(
                b as usize,
            ) implies #[trigger] self.same_block(old(self), b) by {
                assert forall|k: int| 0 <= k < bids@.len() implies #[trigger] bids@[k] != b by {
                    if bids@[k] == b {
                        assert(bids@.contains(b as usize));
                    }
                }
            }
        }
    }

    /// `after` is `before` with `val` at voxel `(x, y, z)`, and memory of its own for its block.
    pub open spec fn voxel_set(
        before: Self,
        after: Self,
        x: usize,
        y: usize,
        z: usize,
        val: D,
    ) -> bool {
        &&& after.wf()
        &&& after.same_shape(&before)
        &&& after.kind(before.bid_of(x as int, y as int, z as int)) is Allocated
        &&& after.spec_free() == before.spec_free() - (if before.kind(
            before.bid_of(x as int, y as int, z as int),
        ) is Allocated {
            0int
        } else {
            1
        })
        &&& after.voxel(x as int, y as int, z as int) == val
        &&& forall|v: int|
            0 <= v < N && v != Self::vid_of(x as int, y as int, z as int)
                ==> #[trigger] after.block_value(
                before.bid_of(x as int, y as int, z as int),
                v,
            ) == (if before.kind(before.bid_of(x as int, y as int, z as int)) is Full {
                before.empty_value
            } else {
                before.block_value(before.bid_of(x as int, y as int, z as int), v)
            })
        &&& forall|b: int|
            0 <= b < before.n_blocks && b != before.bid_of(x as int, y as int, z as int)
                ==> #[trigger] after.same_block(&before, b)
        &&& forall|x2: int, y2: int, z2: int|
            before.has_voxel(x2, y2, z2) && (x2, y2, z2) != (x as int, y as int, z as int)
                ==> #[trigger] after.voxel(x2, y2, z2) == (if before.bid_of(x2, y2, z2)
                == before.bid_of(x as int, y as int, z as int) && before.kind(
                before.bid_of(x2, y2, z2),
            ) is Full {
                before.empty_value
            } else {
                before.voxel(x2, y2, z2)
            })
    }

    /// Sets voxel `(x, y, z)`, and gives its block memory first where it has none.
    pub fn set_voxel(&mut self, x: usize, y: usize, z: usize, val: D)
        requires
            old(self).wf(),
            old(self).has_voxel(x as int, y as int, z as int),
            old(self).kind(old(self).bid_of(x as int, y as int, z as int)) is Allocated || old(
                self,
            ).spec_free() > 0,
        ensures
            Self::voxel_set(*old(self), *final(self), x, y, z, val),
    {
        proof {
            self.lemma_ids(x as int, y as int, z as int);
        }
        let bid: usize = self.get_block_id(x, y, z);
        let vid: usize = Self::get_voxel_id(x, y, z);
        self.ensure_block(bid);
        let ghost mid = *self;
        self.write_at(bid, vid, val);
        proof {
            assert forall|b: int| 0 <= b < old(self).n_blocks && b != bid implies #[trigger] self.same_block(
                old(self),
                b,
            ) by {
                assert(self.same_block(&mid, b));
                assert(mid.same_block(old(self), b));
            }
            assert forall|x2: int, y2: int, z2: int|
                old(self).has_voxel(x2, y2, z2) && (x2, y2, z2) != (
                    x as int,
                    y as int,
                    z as int,
                ) implies #[trigger] self.voxel(x2, y2, z2) == (if old(self).bid_of(x2, y2, z2)
                == bid && old(self).kind(old(self).bid_of(x2, y2, z2)) is Full {
                old(self).empty_value
            } else {
                old(self).voxel(x2, y2, z2)
            }) by {
                old(self).lemma_ids(x2, y2, z2);
                let b2 = old(self).bid_of(x2, y2, z2);
                let v2 = Self::vid_of(x2, y2, z2);
                if b2 == bid {
                    if v2 == vid {
                        old(self).law_voxel_ids_injective(x2, y2, z2, x as int, y as int, z as int);
                    }
                    assert(self.voxel(x2, y2, z2) == self.block_value(bid as int, v2));
                } else {
                    assert(self.same_block(old(self), b2));
                    assert(self.block_value(b2, v2) == old(self).block_value(b2, v2));
                }
            }
        }
    }

    /// What empty blocks read as.
    pub fn empty_value(&self) -> (r: D)
        ensures
            r == self.empty_value,
    {
        self.empty_value
    }

    /// `after` is `before` with `val` for the empty value.
    pub open spec fn empty_value_set(before: Self, after: Self, val: D) -> bool {
        &&& after.wf()
        &&& after.empty_value == val
        &&& after.full_value == before.full_value
        &&& after.name == before.name
        &&& after.sx == before.sx
        &&& after.sy == before.sy
        &&& after.sz == before.sz
        &&& after.n_blocks == before.n_blocks
        &&& after.spec_free() == before.spec_free()
        &&& forall|b: int|
            0 <= b < before.n_blocks ==> #[trigger] after.kind(b) == before.kind(b)
        &&& forall|b: int, v: int|
            0 <= b < before.n_blocks ==> #[trigger] after.block_value(b, v) == (if before.kind(b) is Empty {
                val
            } else {
                before.block_value(b, v)
            })
    }

    /// Changes what empty blocks read as.
    pub fn set_empty_value(&mut self, val: D)
        requires
            old(self).wf(),
        ensures
            Self::empty_value_set(*old(self), *final(self), val),
    {
        proof {
            self.block_pool.lemma_wf();
        }
        fill_block(&mut self.block_pool, self.empty_block, val);
        self.empty_value = val;
        proof {
            assert forall|b: int| 0 <= b < old(self).n_blocks implies #[trigger] self.kind(b) == old(
                self,
            ).kind(b) by {}
            assert forall|b: int, v: int| 0 <= b < old(self).n_blocks implies #[trigger] self.block_value(
                b,
                v,
            ) == (if old(self).kind(b) is Empty {
                val
            } else {
                old(self).block_value(b, v)
            }) by {
                assert(self.kind(b) == old(self).kind(b));
            }
        }
    }

    /// `after` is `before` with block `bid` full.
    pub open spec fn full_block_set(before: Self, after: Self, bid: usize) -> bool {
        &&& after.wf()
        &&& after.same_shape(&before)
        &&& after.spec_free() == before.spec_free()
        &&& after.kind(bid as int) is Full
        &&& forall|b: int|
            0 <= b < before.n_blocks && b != bid ==> #[trigger] after.same_block(&before, b)
    }

    /// Makes block `bid` the full dummy.
    pub fn set_full_block(&mut self, bid: usize)
        requires
            old(self).wf(),
            bid < old(self).n_blocks,
        ensures
            Self::full_block_set(*old(self), *final(self), bid),
    {
        self.blockmap[bid] = Some(self.full_block);
        proof {
            assert forall|b: int| 0 <= b < self.n_blocks && b != bid implies #[trigger] self.same_block(
                old(self),
                b,
            ) by {
                assert(self.blockmap@[b] == old(self).blockmap@[b]);
                assert(self.kind(b) == old(self).kind(b));
            }
            assert forall|a: int, b: int|
                0 <= a < self.n_blocks && 0 <= b < self.n_blocks && self.kind(a) is Allocated
                    && #[trigger] self.blockmap@[a] == #[trigger] self.blockmap@[b] implies a
                == b by {
                assert(a != bid && b != bid);
                assert(self.same_block(old(self), a));
                assert(self.same_block(old(self), b));
            }
        }
    }
}

/// Gives all voxels of the block behind `ptr` the value `val`.
fn fill_block<D, const BSX: usize, const N: usize>(
    pool: &mut BlockPool<D, BSX, N>,
    ptr: BlockPtr,
    val: D,
) where D: Copy + Default + Send + Sync
    requires
        old(pool).wf(),
        ptr.0 < old(pool).spec_allocated(),
    ensures
        final(pool).wf(),
        final(pool).spec_allocated() == old(pool).spec_allocated(),
        final(pool).spec_limit() == old(pool).spec_limit(),
        final(pool).spec_len() == old(pool).spec_len(),
        final(pool).spec_block(ptr.0 as int).is_filled_with(val),
        forall|i: int|
            0 <= i < old(pool).spec_len() && i != ptr.0 ==> #[trigger] final(pool).spec_block(i)
                == old(pool).spec_block(i),
{
    let block = pool.block_mut(ptr);
    block.data = [val; N];
    assert(block.data@ =~= Seq::new(N as nat, |i: int| val));
}

/// The voxel that is `(u, v, w)` into the block at `(i, j, k)` belongs to that block, at that place:
/// blocks are numbered along x first, then y, then z, and so are the voxels in each.
pub proof fn law_place_of_voxel<D, const BSX: usize, const N: usize>(
    g: &SparseGrid<D, BSX, N>,
    i: int,
    j: int,
    k: int,
    u: int,
    v: int,
    w: int,
) where D: Copy + Default + Send + Sync
    requires
        0 <= u < BSX,
        0 <= v < BSX,
        0 <= w < BSX,
    ensures
        g.bid_of(BSX * i + u, BSX * j + v, BSX * k + w) == i + g.nx * j + g.nx * g.ny * k,
        SparseGrid::<D, BSX, N>::vid_of(BSX * i + u, BSX * j + v, BSX * k + w) == u + BSX * v + BSX
            * BSX * w,
{
    let b = BSX as int;
    assert(b * i == i * b && b * j == j * b && b * k == k * b) by (nonlinear_arith);
    vstd::arithmetic::div_mod::lemma_fundamental_div_mod_converse(b * i + u, b, i, u);
    vstd::arithmetic::div_mod::lemma_fundamental_div_mod_converse(b * j + v, b, j, v);
    vstd::arithmetic::div_mod::lemma_fundamental_div_mod_converse(b * k + w, b, k, w);
    let (nx, ny) = (g.nx as int, g.ny as int);
    assert(j * nx == nx * j && k * (nx * ny) == nx * ny * k && v * b == b * v && w * (b * b) == b * b
        * w) by (nonlinear_arith);
}

/// Every voxel of the domain lies in a block of the grid, and every block holds a voxel of the
/// domain: there are as many blocks along each axis as it takes, and no more.
pub proof fn law_blocks_cover<D, const BSX: usize, const N: usize>(g: &SparseGrid<D, BSX, N>) where
    D: Copy + Default + Send + Sync,

    requires
        g.wf_shape(),
    ensures
        0 < g.sx ==> BSX * (g.nx - 1) < g.sx <= BSX * g.nx,
        0 < g.sy ==> BSX * (g.ny - 1) < g.sy <= BSX * g.ny,
        0 < g.sz ==> BSX * (g.nz - 1) < g.sz <= BSX * g.nz,
        g.sx == 0 ==> g.nx == 0,
        g.sy == 0 ==> g.ny == 0,
        g.sz == 0 ==> g.nz == 0,
        g.n_blocks == g.nx * g.ny * g.nz,
        N == BSX * BSX * BSX,
{
    let b = BSX as int;
    lemma_blocks_along(g.sx as int, b);
    lemma_blocks_along(g.sy as int, b);
    lemma_blocks_along(g.sz as int, b);
}

pub proof fn lemma_blocks_along(s: int, b: int)
    requires
        0 <= s,
        0 < b,
    ensures
        0 < s ==> b * (crate::layout::ceil_div(s, b) - 1) < s <= b * crate::layout::ceil_div(s, b),
        s == 0 ==> crate::layout::ceil_div(s, b) == 0,
{
    let n = crate::layout::ceil_div(s, b);
    vstd::arithmetic::div_mod::lemma_fundamental_div_mod(s + b - 1, b);
    vstd::arithmetic::div_mod::lemma_mod_bound(s + b - 1, b);
    assert(b * (n - 1) == b * n - b) by (nonlinear_arith);
    if s == 0 {
        vstd::arithmetic::div_mod::lemma_fundamental_div_mod_converse(b - 1, b, 0, b - 1);
    }
}

/// What a voxel reads: the element at its place in the memory of its block, or the empty value where
/// the block has none.
pub proof fn law_voxel_reads_memory<D, const BSX: usize, const N: usize>(
    g: &SparseGrid<D, BSX, N>,
    i: int,
    j: int,
    k: int,
    u: int,
    v: int,
    w: int,
) where D: Copy + Default + Send + Sync
    requires
        g.wf(),
        0 <= i < g.nx,
        0 <= j < g.ny,
        0 <= k < g.nz,
        0 <= u < BSX,
        0 <= v < BSX,
        0 <= w < BSX,
    ensures
        ({
            let bid = i + g.nx * j + g.nx * g.ny * k;
            let vid = u + BSX * v + BSX * BSX * w;
            &&& 0 <= bid < g.n_blocks
            &&& 0 <= vid < N
            &&& g.voxel(BSX * i + u, BSX * j + v, BSX * k + w) == (match g.blockmap@[bid] {
                Some(p) => g.block_pool.spec_block(p.0 as int).data@[vid],
                None => g.empty_value,
            })
        }),
{
    law_place_of_voxel(g, i, j, k, u, v, w);
    let b = BSX as int;
    crate::layout::law_coords_of_cell(i, j, k, g.nx as int, g.ny as int, g.nz as int);
    crate::layout::law_coords_of_cell(u, v, w, b, b, b);
    crate::blockpool::law_filled_everywhere(
        &g.block_pool.spec_block(g.empty_block.0 as int),
        g.empty_value,
    );
    crate::blockpool::law_filled_everywhere(
        &g.block_pool.spec_block(g.full_block.0 as int),
        g.full_value,
    );
}

/// The kinds of blocks: full blocks read the full value everywhere, empty ones the empty value, and
/// only the others have memory of their own, which no other block shares.
pub proof fn law_kinds<D, const BSX: usize, const N: usize>(
    g: &SparseGrid<D, BSX, N>,
    a: int,
    b: int,
    v: int,
) where D: Copy + Default + Send + Sync
    requires
        g.wf(),
        0 <= a < g.n_blocks,
        0 <= b < g.n_blocks,
        0 <= v < N,
    ensures
        g.kind(a) is Empty <==> g.blockmap@[a] is None || g.blockmap@[a] == Some(g.empty_block),
        g.kind(a) is Full <==> g.blockmap@[a] == Some(g.full_block),
        g.kind(a) is Empty ==> g.block_value(a, v) == g.empty_value,
        g.kind(a) is Full ==> g.block_value(a, v) == g.full_value,
        g.kind(a) matches BlockKind::Allocated(p) ==> g.blockmap@[a] == Some(p),
        g.kind(a) is Allocated && g.kind(a) == g.kind(b) ==> a == b,
{
}

/// Grids of one shape in which a block is the same read the same voxels in it.
pub proof fn law_same_block_reads_same<D, const BSX: usize, const N: usize>(
    g: &SparseGrid<D, BSX, N>,
    h: &SparseGrid<D, BSX, N>,
    x: int,
    y: int,
    z: int,
) where D: Copy + Default + Send + Sync
    requires
        g.same_shape(h),
        g.same_block(h, g.bid_of(x, y, z)),
    ensures
        g.voxel(x, y, z) == h.voxel(x, y, z),
        g.has_voxel(x, y, z) <==> h.has_voxel(x, y, z),
        g.has_voxel(x, y, z) <==> 0 <= x < g.sx && 0 <= y < g.sy && 0 <= z < g.sz,
{
    assert(g.block_value(
        g.bid_of(x, y, z),
        SparseGrid::<D, BSX, N>::vid_of(x, y, z),
    ) == h.block_value(g.bid_of(x, y, z), SparseGrid::<D, BSX, N>::vid_of(x, y, z)));
}

/// The listed blocks that have no memory of their own.
pub open spec fn lacking<D, const BSX: usize, const N: usize>(
    g: &SparseGrid<D, BSX, N>,
    bids: Seq<usize>,
) -> Set<usize> where D: Copy + Default + Send + Sync {
    bids.to_set().filter(|b: usize| !(g.kind(b as int) is Allocated))
}

/// As many blocks are missing as are listed without memory of their own, each counted once.
pub proof fn law_missing_counts<D, const BSX: usize, const N: usize>(
    g: &SparseGrid<D, BSX, N>,
    bids: Seq<usize>,
    n: int,
) where D: Copy + Default + Send + Sync
    requires
        0 <= n <= bids.len(),
    ensures
        lacking(g, bids.take(n)).finite(),
        g.missing(bids, n) == lacking(g, bids.take(n)).len(),
    decreases n,
{
    if n == 0 {
        assert(lacking(g, bids.take(0)) =~= Set::empty());
    } else {
        law_missing_counts(g, bids, n - 1);
        let b = bids[n - 1];
        let (s, t) = (bids.take(n - 1), bids.take(n));
        assert(t =~= s.push(b));
        assert forall|c: usize| t.contains(c) <==> s.contains(c) || c == b by {
            if s.contains(c) {
                let i = choose|i: int| 0 <= i < s.len() && s[i] == c;
                assert(t[i] == c);
            }
            assert(t[n - 1] == b);
            if t.contains(c) && c != b {
                let i = choose|i: int| 0 <= i < t.len() && t[i] == c;
                assert(s[i] == c);
            }
        }
        if g.kind(b as int) is Allocated || s.contains(b) {
            assert(lacking(g, t) =~= lacking(g, s));
        } else {
            assert(lacking(g, t) =~= lacking(g, s).insert(b));
        }
    }
}

/// Giving a block memory of its own changes no voxel, but that a full block reads empty from then
/// on. It takes one block of the pool, and none if the block had memory of its own.
pub proof fn law_ensured_reads<D, const BSX: usize, const N: usize>(
    before: SparseGrid<D, BSX, N>,
    after: SparseGrid<D, BSX, N>,
    bid: usize,
    x: int,
    y: int,
    z: int,
) where D: Copy + Default + Send + Sync
    requires
        before.wf(),
        SparseGrid::block_ensured(before, after, bid),
        0 <= x < before.sx,
        0 <= y < before.sy,
        0 <= z < before.sz,
    ensures
        after.voxel(x, y, z) == (if before.bid_of(x, y, z) == bid && before.kind(bid as int) is Full {
            before.empty_value
        } else {
            before.voxel(x, y, z)
        }),
        after.kind(bid as int) is Allocated,
        before.bid_of(x, y, z) != bid ==> after.kind(before.bid_of(x, y, z)) == before.kind(
            before.bid_of(x, y, z),
        ),
        after.spec_free() == before.spec_free() - (if before.kind(bid as int) is Allocated {
            0int
        } else {
            1
        }),
{
    before.lemma_ids(x, y, z);
    let b = before.bid_of(x, y, z);
    let v = SparseGrid::<D, BSX, N>::vid_of(x, y, z);
    assert(after.bid_of(x, y, z) == b);
    if b != bid {
        assert(after.same_block(&before, b));
        assert(after.block_value(b, v) == before.block_value(b, v));
    } else {
        assert(!(before.kind(b) is Allocated) ==> after.block_value(b, v) == before.empty_value);
    }
}

/// What was written at a place of a block is read there, and all other voxels read as before.
pub proof fn law_written_reads<D, const BSX: usize, const N: usize>(
    before: SparseGrid<D, BSX, N>,
    after: SparseGrid<D, BSX, N>,
    bid: usize,
    vid: usize,
    val: D,
    x: int,
    y: int,
    z: int,
) where D: Copy + Default + Send + Sync
    requires
        before.wf(),
        SparseGrid::value_written(before, after, bid, vid, val),
        0 <= x < before.sx,
        0 <= y < before.sy,
        0 <= z < before.sz,
    ensures
        after.voxel(x, y, z) == (if before.bid_of(x, y, z) == bid && SparseGrid::<D, BSX, N>::vid_of(
            x,
            y,
            z,
        ) == vid {
            val
        } else {
            before.voxel(x, y, z)
        }),
        after.kind(before.bid_of(x, y, z)) == before.kind(before.bid_of(x, y, z)),
{
    before.lemma_ids(x, y, z);
    let b = before.bid_of(x, y, z);
    let v = SparseGrid::<D, BSX, N>::vid_of(x, y, z);
    assert(after.bid_of(x, y, z) == b);
    if b != bid {
        assert(after.same_block(&before, b));
    }
    assert(b == bid || after.block_value(b, v) == before.block_value(b, v));
    assert(b == bid ==> after.block_value(bid as int, v) == (if v == vid {
        val
    } else {
        before.block_value(bid as int, v)
    }));
}

/// The voxel that was set reads the value, and all others read as before, but that those of a full
/// block read empty from then on.
pub proof fn law_set_voxel_reads<D, const BSX: usize, const N: usize>(
    before: SparseGrid<D, BSX, N>,
    after: SparseGrid<D, BSX, N>,
    x1: usize,
    y1: usize,
    z1: usize,
    val: D,
    x: int,
    y: int,
    z: int,
) where D: Copy + Default + Send + Sync
    requires
        before.wf(),
        SparseGrid::voxel_set(before, after, x1, y1, z1, val),
        before.has_voxel(x1 as int, y1 as int, z1 as int),
        0 <= x < before.sx,
        0 <= y < before.sy,
        0 <= z < before.sz,
    ensures
        after.voxel(x, y, z) == (if x == x1 && y == y1 && z == z1 {
            val
        } else if before.bid_of(x, y, z) == before.bid_of(x1 as int, y1 as int, z1 as int)
            && before.kind(before.bid_of(x, y, z)) is Full {
            before.empty_value
        } else {
            before.voxel(x, y, z)
        }),
        after.kind(before.bid_of(x1 as int, y1 as int, z1 as int)) is Allocated,
        after.sx == before.sx && after.sy == before.sy && after.sz == before.sz,
        after.empty_value == before.empty_value && after.full_value == before.full_value,
{
    before.lemma_ids(x, y, z);
    let b = before.bid_of(x, y, z);
    let v = SparseGrid::<D, BSX, N>::vid_of(x, y, z);
    assert(after.bid_of(x, y, z) == b);
    assert(before.has_voxel(x, y, z));
    assert(after.voxel(x, y, z) == after.voxel(x, y, z));
}

/// The voxel that was written reads the value, and all others read as before.
pub proof fn law_write_voxel_reads<D, const BSX: usize, const N: usize>(
    before: SparseGrid<D, BSX, N>,
    after: SparseGrid<D, BSX, N>,
    x1: usize,
    y1: usize,
    z1: usize,
    val: D,
    x: int,
    y: int,
    z: int,
) where D: Copy + Default + Send + Sync
    requires
        before.wf(),
        SparseGrid::voxel_written(before, after, x1, y1, z1, val),
        0 <= x < before.sx,
        0 <= y < before.sy,
        0 <= z < before.sz,
    ensures
        after.voxel(x, y, z) == (if x == x1 && y == y1 && z == z1 {
            val
        } else {
            before.voxel(x, y, z)
        }),
        after.kind(before.bid_of(x, y, z)) == before.kind(before.bid_of(x, y, z)),
{
    before.lemma_ids(x, y, z);
    let b = before.bid_of(x, y, z);
    let v = SparseGrid::<D, BSX, N>::vid_of(x, y, z);
    assert(after.bid_of(x, y, z) == b);
    assert(before.has_voxel(x, y, z));
    assert(after.voxel(x, y, z) == after.voxel(x, y, z));
}

/// A block that was replaced reads the data, x fastest, and all other voxels read as before.
pub proof fn law_replaced_block_reads<D, const BSX: usize, const N: usize>(
    before: SparseGrid<D, BSX, N>,
    after: SparseGrid<D, BSX, N>,
    bid: usize,
    data: Seq<D>,
    x: int,
    y: int,
    z: int,
) where D: Copy + Default + Send + Sync
    requires
        before.wf(),
        SparseGrid::block_replaced(before, after, bid, data),
        0 <= x < before.sx,
        0 <= y < before.sy,
        0 <= z < before.sz,
    ensures
        after.voxel(x, y, z) == (if before.bid_of(x, y, z) == bid {
            data[SparseGrid::<D, BSX, N>::vid_of(x, y, z)]
        } else {
            before.voxel(x, y, z)
        }),
        after.kind(before.bid_of(x, y, z)) == before.kind(before.bid_of(x, y, z)),
{
    before.lemma_ids(x, y, z);
    let b = before.bid_of(x, y, z);
    let v = SparseGrid::<D, BSX, N>::vid_of(x, y, z);
    assert(after.bid_of(x, y, z) == b);
    if b != bid {
        assert(after.same_block(&before, b));
        assert(after.block_value(b, v) == before.block_value(b, v));
    } else {
        assert(after.block_value(bid as int, v) == data[v]);
    }
}

/// A voxel reads the data that was given for its block, and as before if none was.
pub proof fn law_replaced_blocks_read<D, const BSX: usize, const N: usize>(
    before: SparseGrid<D, BSX, N>,
    after: SparseGrid<D, BSX, N>,
    bids: Seq<usize>,
    updates: Seq<Option<Vec<D>>>,
    x: int,
    y: int,
    z: int,
) where D: Copy + Default + Send + Sync
    requires
        before.wf(),
        SparseGrid::blocks_replaced(before, after, bids, updates),
        0 <= x < before.sx,
        0 <= y < before.sy,
        0 <= z < before.sz,
    ensures
        (forall|k: int|
            0 <= k < bids.len() && #[trigger] bids[k] == before.bid_of(x, y, z) ==> updates[k] is None)
            ==> after.voxel(x, y, z) == before.voxel(x, y, z),
        (exists|k: int|
            0 <= k < bids.len() && #[trigger] bids[k] == before.bid_of(x, y, z) && updates[k] is Some)
            ==> exists|k: int|
            0 <= k < bids.len() && #[trigger] bids[k] == before.bid_of(x, y, z) && updates[k] is Some
                && after.voxel(x, y, z) == updates[k].unwrap()@[SparseGrid::<D, BSX, N>::vid_of(
                x,
                y,
                z,
            )],
        after.kind(before.bid_of(x, y, z)) == before.kind(before.bid_of(x, y, z)),
{
    before.lemma_ids(x, y, z);
    let b = before.bid_of(x, y, z);
    let v = SparseGrid::<D, BSX, N>::vid_of(x, y, z);
    assert(after.bid_of(x, y, z) == b);
    assert(after.kind(b) == before.kind(b));
    if SparseGrid::<D, BSX, N>::is_updated(bids, updates, b) {
        assert(SparseGrid::<D, BSX, N>::is_update_of(bids, updates, b, after.block_data(b)));
        assert(after.block_data(b)[v] == after.block_value(b, v));
    } else {
        assert(after.same_block(&before, b));
        assert(after.block_value(b, v) == before.block_value(b, v));
    }
}

/// Giving the listed blocks memory of their own changes no voxel, but that full blocks among them
/// read empty from then on. It takes a block of the pool for each that had none.
pub proof fn law_ensured_blocks_read<D, const BSX: usize, const N: usize>(
    before: SparseGrid<D, BSX, N>,
    after: SparseGrid<D, BSX, N>,
    bids: Seq<usize>,
    x: int,
    y: int,
    z: int,
) where D: Copy + Default + Send + Sync
    requires
        before.wf(),
        SparseGrid::blocks_ensured(before, after, bids),
        0 <= x < before.sx,
        0 <= y < before.sy,
        0 <= z < before.sz,
    ensures
        after.voxel(x, y, z) == (if bids.contains(before.bid_of(x, y, z) as usize) && before.kind(
            before.bid_of(x, y, z),
        ) is Full {
            before.empty_value
        } else {
            before.voxel(x, y, z)
        }),
        bids.contains(before.bid_of(x, y, z) as usize) ==> after.kind(
            before.bid_of(x, y, z),
        ) is Allocated,
        !bids.contains(before.bid_of(x, y, z) as usize) ==> after.kind(before.bid_of(x, y, z))
            == before.kind(before.bid_of(x, y, z)),
        after.spec_free() == before.spec_free() - lacking(&before, bids).len(),
{
    before.lemma_ids(x, y, z);
    let b = before.bid_of(x, y, z);
    let v = SparseGrid::<D, BSX, N>::vid_of(x, y, z);
    assert(after.bid_of(x, y, z) == b);
    law_missing_counts(&before, bids, bids.len() as int);
    assert(bids.take(bids.len() as int) =~= bids);
    if bids.contains(b as usize) {
        let k = choose|k: int| 0 <= k < bids.len() && bids[k] == b as usize;
        assert(after.kind(bids[k] as int) is Allocated);
    }
    if !bids.contains(b as usize) || before.kind(b) is Allocated {
        assert(after.same_block(&before, b));
        assert(after.block_value(b, v) == before.block_value(b, v));
    } else {
        assert(after.block_value(b, v) == before.empty_value);
    }
}

/// The listed blocks read the value everywhere, and all other voxels read as before.
pub proof fn law_filled_blocks_read<D, const BSX: usize, const N: usize>(
    before: SparseGrid<D, BSX, N>,
    after: SparseGrid<D, BSX, N>,
    bids: Seq<usize>,
    val: D,
    x: int,
    y: int,
    z: int,
) where D: Copy + Default + Send + Sync
    requires
        before.wf(),
        SparseGrid::blocks_filled(before, after, bids, val),
        0 <= x < before.sx,
        0 <= y < before.sy,
        0 <= z < before.sz,
    ensures
        after.voxel(x, y, z) == (if bids.contains(before.bid_of(x, y, z) as usize) {
            val
        } else {
            before.voxel(x, y, z)
        }),
        after.kind(before.bid_of(x, y, z)) == before.kind(before.bid_of(x, y, z)),
{
    before.lemma_ids(x, y, z);
    let b = before.bid_of(x, y, z);
    let v = SparseGrid::<D, BSX, N>::vid_of(x, y, z);
    assert(after.bid_of(x, y, z) == b);
    assert(after.kind(b) == before.kind(b));
    if bids.contains(b as usize) {
        assert(after.block_value(b, v) == val);
    } else {
        assert(after.same_block(&before, b));
        assert(after.block_value(b, v) == before.block_value(b, v));
    }
}

/// A block that was made full reads the full value everywhere, and all other voxels read as before.
pub proof fn law_full_block_reads<D, const BSX: usize, const N: usize>(
    before: SparseGrid<D, BSX, N>,
    after: SparseGrid<D, BSX, N>,
    bid: usize,
    x: int,
    y: int,
    z: int,
) where D: Copy + Default + Send + Sync
    requires
        before.wf(),
        SparseGrid::full_block_set(before, after, bid),
        0 <= x < before.sx,
        0 <= y < before.sy,
        0 <= z < before.sz,
    ensures
        after.voxel(x, y, z) == (if before.bid_of(x, y, z) == bid {
            before.full_value
        } else {
            before.voxel(x, y, z)
        }),
{
    before.lemma_ids(x, y, z);
    let b = before.bid_of(x, y, z);
    let v = SparseGrid::<D, BSX, N>::vid_of(x, y, z);
    assert(after.bid_of(x, y, z) == b);
    if b != bid {
        assert(after.same_block(&before, b));
        assert(after.block_value(b, v) == before.block_value(b, v));
    }
}

/// With another empty value the voxels of empty blocks read it, and all other voxels read as before.
pub proof fn law_empty_value_reads<D, const BSX: usize, const N: usize>(
    before: SparseGrid<D, BSX, N>,
    after: SparseGrid<D, BSX, N>,
    val: D,
    x: int,
    y: int,
    z: int,
) where D: Copy + Default + Send + Sync
    requires
        before.wf(),
        SparseGrid::empty_value_set(before, after, val),
        0 <= x < before.sx,
        0 <= y < before.sy,
        0 <= z < before.sz,
    ensures
        after.voxel(x, y, z) == (if before.kind(before.bid_of(x, y, z)) is Empty {
            val
        } else {
            before.voxel(x, y, z)
        }),
        after.kind(before.bid_of(x, y, z)) == before.kind(before.bid_of(x, y, z)),
{
    before.lemma_ids(x, y, z);
    let b = before.bid_of(x, y, z);
    let v = SparseGrid::<D, BSX, N>::vid_of(x, y, z);
    assert(after.bid_of(x, y, z) == b);
    assert(after.kind(b) == before.kind(b));
    assert(after.block_value(b, v) == (if before.kind(b) is Empty {
        val
    } else {
        before.block_value(b, v)
    }));
}

} // verus!
