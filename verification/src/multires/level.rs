//! The data of one resolution level, and the closed set of block sizes.
//!
//! One sparse map leads from block id to one block record. The metadata of a block (cell flags and
//! fine-coarse distance) is always there; density and faces come when they are first asked for.

use crate::blockmap::BlockMap;
use crate::channel::{CellFlags, DistFineCoarse, Scalar};
use crate::multires::blockinfo::{BlockFlags, BlockInfoStore, CELL_EMPTY_VAL};
use crate::multires::cells::{
    init_cell_flags, init_dist_fine_coarse, propagate_dist_fine_coarse_full,
};
use crate::multires::refinement::{BlockGridDims, RefinementMap};
use vstd::prelude::*;

verus! {

/// The density of a block.
pub struct DensityBlock<const N: usize> {
    pub data: Vec<Scalar>,
}

/// The face channels of a block: area and coefficient, three components each.
pub struct FaceBlock<const BSX: usize, const N: usize> {
    pub face_area: [Vec<Scalar>; 3],
    pub face_coeff: [Vec<Scalar>; 3],
}

/// One block of a resolution level.
pub struct LevelBlock<const BSX: usize, const N: usize> {
    /// Cell flags of each voxel.
    pub cell_flags: Vec<CellFlags>,
    /// Distance to the coarser side of each voxel.
    pub dist_fine_coarse: Vec<DistFineCoarse>,
    /// Density of each voxel; where there is none it reads as zero.
    pub density: Option<DensityBlock<N>>,
    /// Face channels, where they were asked for.
    pub faces: Option<FaceBlock<BSX, N>>,
}

impl<const N: usize> DensityBlock<N> {
    /// The block has `N` values.
    pub open spec fn wf(&self) -> bool {
        self.data@.len() == N
    }

    fn new() -> (r: Self)
        ensures
            r.data@ == Seq::new(N as nat, |i: int| Scalar(0)),
    {
        DensityBlock { data: crate::arith::filled(N, Scalar(0)) }
    }
}

impl<const BSX: usize, const N: usize> FaceBlock<BSX, N> {
    /// All components are zero.
    pub open spec fn is_zero(&self) -> bool {
        forall|c: int|
            0 <= c < 3 ==> (#[trigger] self.face_area@[c])@ == Seq::new(N as nat, |i: int| Scalar(0))
                && (#[trigger] self.face_coeff@[c])@ == Seq::new(N as nat, |i: int| Scalar(0))
    }

    fn new() -> (r: Self)
        ensures
            r.is_zero(),
    {
        FaceBlock {
            face_area: [
                crate::arith::filled(N, Scalar(0)),
                crate::arith::filled(N, Scalar(0)),
                crate::arith::filled(N, Scalar(0)),
            ],
            face_coeff: [
                crate::arith::filled(N, Scalar(0)),
                crate::arith::filled(N, Scalar(0)),
                crate::arith::filled(N, Scalar(0)),
            ],
        }
    }
}

impl<const BSX: usize, const N: usize> LevelBlock<BSX, N> {
    /// Each channel that is there has `N` values.
    pub open spec fn wf(&self) -> bool {
        &&& self.cell_flags@.len() == N
        &&& self.dist_fine_coarse@.len() == N
        &&& self.density matches Some(d) ==> d.wf()
    }

    /// A block as it is when it is new: empty cells, zero distance, no density and no faces.
    pub open spec fn is_fresh(&self) -> bool {
        &&& self.cell_flags@ == Seq::new(N as nat, |i: int| CellFlags(CELL_EMPTY_VAL))
        &&& self.dist_fine_coarse@ == Seq::new(N as nat, |i: int| DistFineCoarse(0))
        &&& self.density is None
        &&& self.faces is None
    }
}

/// The data of one resolution level.
pub struct LevelData<const BSX: usize, const N: usize> {
    pub sx: usize,
    pub sy: usize,
    pub sz: usize,
    pub nx: usize,
    pub ny: usize,
    pub nz: usize,
    pub nxy: usize,
    pub n_blocks: usize,
    /// From block id to the place of its record.
    pub blocks: BlockMap<usize>,
    /// The records.
    pub pool: Vec<LevelBlock<BSX, N>>,
}

impl<const BSX: usize, const N: usize> LevelData<BSX, N> {
    /// The invariant of the level: each materialized block has a record of its own.
    pub open spec fn wf(&self) -> bool {
        &&& 0 < BSX
        &&& crate::blockmap::ids_fit(self.n_blocks as int)
        &&& self.nxy == self.nx * self.ny
        &&& self.n_blocks == self.nx * self.ny * self.nz
        &&& self.blocks.wf()
        &&& self.blocks.compact()
        &&& forall|b: usize| #[trigger]
            self.blocks@.contains_key(b) ==> b < self.n_blocks && self.blocks@[b] < self.pool@.len()
        &&& forall|a: usize, b: usize|
            #![trigger self.blocks@[a], self.blocks@[b]]
            self.blocks@.contains_key(a) && self.blocks@.contains_key(b) && self.blocks@[a]
                == self.blocks@[b] ==> a == b
        &&& forall|i: int| 0 <= i < self.pool@.len() ==> (#[trigger] self.pool@[i]).wf()
    }

    /// Block `bid` is materialized.
    pub open spec fn has(&self, bid: int) -> bool {
        0 <= bid < self.n_blocks && self.blocks@.contains_key(bid as usize)
    }

    /// The record of block `bid`.
    pub open spec fn record(&self, bid: int) -> LevelBlock<BSX, N> {
        self.pool@[self.blocks@[bid as usize] as int]
    }

    /// The density of voxel `vid` of block `bid`: zero where there is none.
    pub open spec fn density_at(&self, bid: int, vid: int) -> Scalar {
        if self.has(bid) {
            match self.record(bid).density {
                Some(d) => d.data@[vid],
                None => Scalar(0),
            }
        } else {
            Scalar(0)
        }
    }

    /// The sizes are the same in both.
    pub open spec fn same_shape(&self, other: &Self) -> bool {
        &&& self.sx == other.sx
        &&& self.sy == other.sy
        &&& self.sz == other.sz
        &&& self.nx == other.nx
        &&& self.ny == other.ny
        &&& self.nz == other.nz
        &&& self.nxy == other.nxy
        &&& self.n_blocks == other.n_blocks
    }

    /// Block `bid` is the same in both.
    pub open spec fn same_block(&self, other: &Self, bid: int) -> bool {
        &&& self.has(bid) == other.has(bid)
        &&& self.has(bid) ==> self.record(bid) == other.record(bid)
    }

    /// Only the density of block `bid` differs from `before`: what else it has is as before, or as in
    /// a new block.
    pub open spec fn only_density_differs(&self, before: &Self, bid: int) -> bool {
        if before.has(bid) {
            &&& self.record(bid).cell_flags@ == before.record(bid).cell_flags@
            &&& self.record(bid).dist_fine_coarse@ == before.record(bid).dist_fine_coarse@
            &&& self.record(bid).faces == before.record(bid).faces
        } else {
            &&& self.record(bid).cell_flags@ == Seq::new(
                N as nat,
                |v: int| CellFlags(CELL_EMPTY_VAL),
            )
            &&& self.record(bid).dist_fine_coarse@ == Seq::new(N as nat, |v: int| DistFineCoarse(0))
            &&& self.record(bid).faces is None
        }
    }

    /// A level of `sx * sy * sz` voxels with no block materialized.
    pub fn new(sx: usize, sy: usize, sz: usize) -> (r: Self)
        requires
            0 < BSX,
            (sx as int / BSX as int) * (sy as int / BSX as int) <= usize::MAX,
            crate::blockmap::ids_fit(
                (sx as int / BSX as int) * (sy as int / BSX as int) * (sz as int / BSX as int),
            ),
        ensures
            r.wf(),
            r.sx == sx,
            r.sy == sy,
            r.sz == sz,
            r.nx == sx as int / BSX as int,
            r.ny == sy as int / BSX as int,
            r.nz == sz as int / BSX as int,
            forall|b: int| !#[trigger] r.has(b),
    {
        let nx: usize = sx / BSX;
        let ny: usize = sy / BSX;
        let nz: usize = sz / BSX;
        let nxy: usize = nx * ny;
        LevelData {
            sx,
            sy,
            sz,
            nx,
            ny,
            nz,
            nxy,
            n_blocks: nxy * nz,
            blocks: BlockMap::new(),
            pool: Vec::new(),
        }
    }

    /// `after` is `before` with a record for block `bid`, a fresh one unless it had one.
    pub open spec fn block_ensured(before: Self, after: Self, bid: usize) -> bool {
        &&& after.wf()
        &&& after.same_shape(&before)
        &&& after.has(bid as int)
        &&& before.has(bid as int) ==> after == before
        &&& !before.has(bid as int) ==> after.record(bid as int).is_fresh()
        &&& forall|b: int| b != bid ==> #[trigger] after.same_block(&before, b)
    }

    /// Materializes block `bid` unless it is there.
    pub fn ensure_block(&mut self, bid: usize)
        requires
            old(self).wf(),
            bid < old(self).n_blocks,
        ensures
            Self::block_ensured(*old(self), *final(self), bid),
    {
        if self.blocks.get(bid).is_some() {
            return;
        }
        proof {
            self.blocks.lemma_room_below(self.n_blocks as int);
        }
        let place: usize = self.pool.len();
        self.pool.push(
            LevelBlock {
                cell_flags: crate::arith::filled(N, CellFlags(CELL_EMPTY_VAL)),
                dist_fine_coarse: crate::arith::filled(N, DistFineCoarse(0)),
                density: None,
                faces: None,
            },
        );
        self.blocks.insert(bid, place);
        proof {
            assert forall|b: int| b != bid implies #[trigger] self.same_block(old(self), b) by {
                if 0 <= b < self.n_blocks {
                    assert(self.blocks@.contains_key(b as usize) == old(self).blocks@.contains_key(
                        b as usize,
                    ));
                }
            }
        }
    }

    /// `after` is `before` with a record for block `bid` that has densities, zero where it had none.
    pub open spec fn density_ensured(before: Self, after: Self, bid: usize) -> bool {
        &&& after.wf()
        &&& after.same_shape(&before)
        &&& after.has(bid as int)
        &&& after.record(bid as int).density is Some
        &&& forall|v: int|
            0 <= v < N ==> #[trigger] after.density_at(bid as int, v) == before.density_at(bid as int, v)
        &&& after.only_density_differs(&before, bid as int)
        &&& forall|b: int| b != bid ==> #[trigger] after.same_block(&before, b)
    }

    /// Materializes the density of block `bid`, as zero, unless it is there.
    pub fn ensure_density(&mut self, bid: usize)
        requires
            old(self).wf(),
            bid < old(self).n_blocks,
        ensures
            Self::density_ensured(*old(self), *final(self), bid),
    {
        self.ensure_block(bid);
        let ghost mid = *self;
        if let Some(place) = self.blocks.get(bid) {
            if self.pool[place].density.is_none() {
                self.pool[place].density = Some(DensityBlock::new());
            }
        }
        proof {
            assert forall|b: int| b != bid implies #[trigger] self.same_block(old(self), b) by {
                assert(mid.same_block(old(self), b));
                if mid.has(b) {
                    assert(mid.blocks@[b as usize] != mid.blocks@[bid]);
                }
            }
        }
    }

    /// `after` is `before` with a record for block `bid` that has faces, zero where it had none.
    pub open spec fn faces_ensured(before: Self, after: Self, bid: usize) -> bool {
        &&& after.wf()
        &&& after.same_shape(&before)
        &&& after.has(bid as int)
        &&& after.record(bid as int).faces is Some
        &&& before.has(bid as int) && before.record(bid as int).faces is Some
            ==> after.record(bid as int) == before.record(bid as int)
        &&& !(before.has(bid as int) && before.record(bid as int).faces is Some)
            ==> after.record(bid as int).faces.unwrap().is_zero()
        &&& before.has(bid as int) ==> {
            &&& after.record(bid as int).cell_flags == before.record(
                bid as int,
            ).cell_flags
            &&& after.record(bid as int).dist_fine_coarse == before.record(
                bid as int,
            ).dist_fine_coarse
            &&& after.record(bid as int).density == before.record(bid as int).density
        }
        &&& !before.has(bid as int) ==> {
            &&& after.record(bid as int).cell_flags@ == Seq::new(
                N as nat,
                |v: int| CellFlags(CELL_EMPTY_VAL),
            )
            &&& after.record(bid as int).dist_fine_coarse@ == Seq::new(
                N as nat,
                |v: int| DistFineCoarse(0),
            )
            &&& after.record(bid as int).density is None
        }
        &&& forall|b: int| b != bid ==> #[trigger] after.same_block(&before, b)
    }

    /// Materializes the faces of block `bid`, as zero, unless they are there.
    pub fn ensure_faces(&mut self, bid: usize)
        requires
            old(self).wf(),
            bid < old(self).n_blocks,
        ensures
            Self::faces_ensured(*old(self), *final(self), bid),
    {
        self.ensure_block(bid);
        let ghost mid = *self;
        if let Some(place) = self.blocks.get(bid) {
            if self.pool[place].faces.is_none() {
                self.pool[place].faces = Some(FaceBlock::new());
            }
        }
        proof {
            assert forall|b: int| b != bid implies #[trigger] self.same_block(old(self), b) by {
                assert(mid.same_block(old(self), b));
                if mid.has(b) {
                    assert(mid.blocks@[b as usize] != mid.blocks@[bid]);
                }
            }
        }
    }

    /// The density of voxel `vid` of block `bid`: zero where there is none.
    pub fn density(&self, bid: usize, vid: usize) -> (r: Scalar)
        requires
            self.wf(),
            bid < self.n_blocks,
            vid < N,
        ensures
            r == self.density_at(bid as int, vid as int),
    {
        match self.blocks.get(bid) {
            Some(place) => match &self.pool[place].density {
                Some(d) => d.data[vid],
                None => Scalar(0),
            },
            None => Scalar(0),
        }
    }

    /// `after` is `before` with density `val` at voxel `vid` of block `bid`.
    pub open spec fn density_set(
        before: Self,
        after: Self,
        bid: usize,
        vid: usize,
        val: Scalar,
    ) -> bool {
        &&& after.wf()
        &&& after.same_shape(&before)
        &&& forall|v: int|
            0 <= v < N ==> #[trigger] after.density_at(bid as int, v) == (if v == vid {
                val
            } else {
                before.density_at(bid as int, v)
            })
        &&& after.has(bid as int)
        &&& after.only_density_differs(&before, bid as int)
        &&& forall|b: int| b != bid ==> #[trigger] after.same_block(&before, b)
    }

    /// Sets the density of voxel `vid` of block `bid`, and materializes it first.
    pub fn set_density(&mut self, bid: usize, vid: usize, val: Scalar)
        requires
            old(self).wf(),
            bid < old(self).n_blocks,
            vid < N,
        ensures
            Self::density_set(*old(self), *final(self), bid, vid, val),
    {
        self.ensure_density(bid);
        let ghost mid = *self;
        if let Some(place) = self.blocks.get(bid) {
            if let Some(d) = &mut self.pool[place].density {
                d.data[vid] = val;
            }
        }
        proof {
            assert forall|b: int| b != bid implies #[trigger] self.same_block(old(self), b) by {
                assert(mid.same_block(old(self), b));
                if mid.has(b) {
                    assert(mid.blocks@[b as usize] != mid.blocks@[bid]);
                }
            }
            assert forall|v: int| 0 <= v < N implies #[trigger] self.density_at(bid as int, v) == (if v
                == vid {
                val
            } else {
                old(self).density_at(bid as int, v)
            }) by {
                assert(mid.density_at(bid as int, v) == old(self).density_at(bid as int, v));
            }
        }
    }

    /// `after` is `before` with the densities of block `bid`.
    pub open spec fn densities_set(before: Self, after: Self, bid: usize, data: Seq<Scalar>) -> bool {
        &&& after.wf()
        &&& after.same_shape(&before)
        &&& after.has(bid as int)
        &&& after.record(bid as int).density is Some
        &&& forall|v: int|
            0 <= v < N ==> #[trigger] after.density_at(bid as int, v) == data[v]
        &&& after.only_density_differs(&before, bid as int)
        &&& forall|b: int| b != bid ==> #[trigger] after.same_block(&before, b)
    }

    /// Replaces the density of block `bid`, and materializes the block first.
    pub fn set_density_block(&mut self, bid: usize, data: Vec<Scalar>)
        requires
            old(self).wf(),
            bid < old(self).n_blocks,
            data@.len() == N,
        ensures
            Self::densities_set(*old(self), *final(self), bid, data@),
    {
        self.ensure_block(bid);
        let ghost mid = *self;
        if let Some(place) = self.blocks.get(bid) {
            self.pool[place].density = Some(DensityBlock { data });
        }
        proof {
            assert forall|b: int| b != bid implies #[trigger] self.same_block(old(self), b) by {
                assert(mid.same_block(old(self), b));
                if mid.has(b) {
                    assert(mid.blocks@[b as usize] != mid.blocks@[bid]);
                }
            }
        }
    }

    /// `after` is `before` with the cell flags of block `bid`.
    pub open spec fn flags_set(before: Self, after: Self, bid: usize, flags: Vec<CellFlags>) -> bool {
        &&& after.wf()
        &&& after.same_shape(&before)
        &&& after.has(bid as int)
        &&& after.record(bid as int).cell_flags == flags
        &&& after.record(bid as int).dist_fine_coarse == before.record(
            bid as int,
        ).dist_fine_coarse
        &&& after.record(bid as int).density == before.record(bid as int).density
        &&& after.record(bid as int).faces == before.record(bid as int).faces
        &&& forall|b: int| b != bid ==> #[trigger] after.same_block(&before, b)
    }

    /// Replaces the cell flags of block `bid`, which is materialized.
    pub fn set_cell_flags(&mut self, bid: usize, flags: Vec<CellFlags>)
        requires
            old(self).wf(),
            old(self).has(bid as int),
            flags@.len() == N,
        ensures
            Self::flags_set(*old(self), *final(self), bid, flags),
    {
        if let Some(place) = self.blocks.get(bid) {
            self.pool[place].cell_flags = flags;
        }
        proof {
            assert forall|b: int| b != bid implies #[trigger] self.same_block(old(self), b) by {
                if old(self).has(b) {
                    assert(old(self).blocks@[b as usize] != old(self).blocks@[bid]);
                }
            }
        }
    }

    /// `after` is `before` with the distances of block `bid`.
    pub open spec fn dist_set(
        before: Self,
        after: Self,
        bid: usize,
        dist: Vec<DistFineCoarse>,
    ) -> bool {
        &&& after.wf()
        &&& after.same_shape(&before)
        &&& after.has(bid as int)
        &&& after.record(bid as int).dist_fine_coarse == dist
        &&& after.record(bid as int).cell_flags == before.record(bid as int).cell_flags
        &&& after.record(bid as int).density == before.record(bid as int).density
        &&& after.record(bid as int).faces == before.record(bid as int).faces
        &&& forall|b: int| b != bid ==> #[trigger] after.same_block(&before, b)
    }

    /// Replaces the fine-coarse distances of block `bid`, which is materialized.
    pub fn set_dist_fine_coarse(&mut self, bid: usize, dist: Vec<DistFineCoarse>)
        requires
            old(self).wf(),
            old(self).has(bid as int),
            dist@.len() == N,
        ensures
            Self::dist_set(*old(self), *final(self), bid, dist),
    {
        if let Some(place) = self.blocks.get(bid) {
            self.pool[place].dist_fine_coarse = dist;
        }
        proof {
            assert forall|b: int| b != bid implies #[trigger] self.same_block(old(self), b) by {
                if old(self).has(b) {
                    assert(old(self).blocks@[b as usize] != old(self).blocks@[bid]);
                }
            }
        }
    }

    /// The record of block `bid`, where it is materialized.
    pub fn block(&self, bid: usize) -> (r: Option<&LevelBlock<BSX, N>>)
        requires
            self.wf(),
            bid < self.n_blocks,
        ensures
            r is Some == self.has(bid as int),
            r matches Some(b) ==> *b == self.record(bid as int),
    {
        match self.blocks.get(bid) {
            Some(place) => Some(&self.pool[place]),
            None => None,
        }
    }

    /// The ids of all materialized blocks, each once, in no particular order.
    pub fn active_block_ids(&self) -> (r: Vec<usize>)
        requires
            self.wf(),
        ensures
            forall|i: int| 0 <= i < r@.len() ==> self.has(#[trigger] r@[i] as int),
            forall|b: int| #[trigger] self.has(b) ==> r@.contains(b as usize),
            r@.no_duplicates(),
    {
        let pairs: Vec<(usize, usize)> = self.blocks.iter();
        let mut r: Vec<usize> = Vec::with_capacity(pairs.len());
        let mut i: usize = 0;
        while i < pairs.len()
            invariant
                i <= pairs@.len(),
                r@.len() == i,
                forall|k: int| 0 <= k < i ==> #[trigger] r@[k] == pairs@[k].0,
            decreases pairs@.len() - i,
        {
            r.push(pairs[i].0);
            i = i + 1;
        }
        proof {
            assert forall|k: int| 0 <= k < r@.len() implies self.has(#[trigger] r@[k] as int) by {
                assert(self.blocks@.contains_key(pairs@[k].0));
            }
            assert forall|b: int| #[trigger] self.has(b) implies r@.contains(b as usize) by {
                let k = choose|k: int| 0 <= k < pairs@.len() && (#[trigger] pairs@[k]).0 == b as usize;
                assert(r@[k] == b as usize);
            }
            assert forall|a: int, b: int|
                0 <= a < r@.len() && 0 <= b < r@.len() && a != b implies r@[a] != r@[b] by {
                assert(r@[a] == pairs@[a].0 && r@[b] == pairs@[b].0);
            }
        }
        r
    }

    /// Whether block `bid` is materialized.
    pub fn is_value_block(&self, bid: usize) -> (r: bool)
        requires
            self.wf(),
            bid < self.n_blocks,
        ensures
            r == self.has(bid as int),
    {
        self.blocks.get(bid).is_some()
    }
}

/// A resolution level of one of the supported block sizes. The block size halves from each level to
/// the next, while the number of blocks stays the same.
pub enum Level {
    B32(LevelData<32, 32768>),
    B16(LevelData<16, 4096>),
    B8(LevelData<8, 512>),
    B4(LevelData<4, 64>),
    B2(LevelData<2, 8>),
    B1(LevelData<1, 1>),
}

impl Level {
    /// The invariant of the level.
    pub open spec fn wf(&self) -> bool {
        match self {
            Level::B32(l) => l.wf(),
            Level::B16(l) => l.wf(),
            Level::B8(l) => l.wf(),
            Level::B4(l) => l.wf(),
            Level::B2(l) => l.wf(),
            Level::B1(l) => l.wf(),
        }
    }

    /// How many blocks the level has.
    pub open spec fn spec_n_blocks(&self) -> int {
        match self {
            Level::B32(l) => l.n_blocks as int,
            Level::B16(l) => l.n_blocks as int,
            Level::B8(l) => l.n_blocks as int,
            Level::B4(l) => l.n_blocks as int,
            Level::B2(l) => l.n_blocks as int,
            Level::B1(l) => l.n_blocks as int,
        }
    }

    /// No block is materialized.
    pub open spec fn is_bare(&self) -> bool {
        match self {
            Level::B32(l) => forall|b: int| !#[trigger] l.has(b),
            Level::B16(l) => forall|b: int| !#[trigger] l.has(b),
            Level::B8(l) => forall|b: int| !#[trigger] l.has(b),
            Level::B4(l) => forall|b: int| !#[trigger] l.has(b),
            Level::B2(l) => forall|b: int| !#[trigger] l.has(b),
            Level::B1(l) => forall|b: int| !#[trigger] l.has(b),
        }
    }

    /// Edge of a block, in voxels.
    pub open spec fn spec_bsx(&self) -> int {
        match self {
            Level::B32(l) => 32,
            Level::B16(l) => 16,
            Level::B8(l) => 8,
            Level::B4(l) => 4,
            Level::B2(l) => 2,
            Level::B1(l) => 1,
        }
    }

    /// Edge of a block, in voxels.
    pub fn bsx(&self) -> (r: usize)
        ensures
            r == self.spec_bsx(),
    {
        match self {
            Level::B32(l) => 32,
            Level::B16(l) => 16,
            Level::B8(l) => 8,
            Level::B4(l) => 4,
            Level::B2(l) => 2,
            Level::B1(l) => 1,
        }
    }

    /// Voxels along x.
    pub open spec fn spec_sx(&self) -> int {
        match self {
            Level::B32(l) => l.sx as int,
            Level::B16(l) => l.sx as int,
            Level::B8(l) => l.sx as int,
            Level::B4(l) => l.sx as int,
            Level::B2(l) => l.sx as int,
            Level::B1(l) => l.sx as int,
        }
    }

    /// Voxels along x.
    pub fn sx(&self) -> (r: usize)
        ensures
            r == self.spec_sx(),
    {
        match self {
            Level::B32(l) => l.sx,
            Level::B16(l) => l.sx,
            Level::B8(l) => l.sx,
            Level::B4(l) => l.sx,
            Level::B2(l) => l.sx,
            Level::B1(l) => l.sx,
        }
    }

    /// Voxels along y.
    pub open spec fn spec_sy(&self) -> int {
        match self {
            Level::B32(l) => l.sy as int,
            Level::B16(l) => l.sy as int,
            Level::B8(l) => l.sy as int,
            Level::B4(l) => l.sy as int,
            Level::B2(l) => l.sy as int,
            Level::B1(l) => l.sy as int,
        }
    }

    /// Voxels along y.
    pub fn sy(&self) -> (r: usize)
        ensures
            r == self.spec_sy(),
    {
        match self {
            Level::B32(l) => l.sy,
            Level::B16(l) => l.sy,
            Level::B8(l) => l.sy,
            Level::B4(l) => l.sy,
            Level::B2(l) => l.sy,
            Level::B1(l) => l.sy,
        }
    }

    /// Voxels along z.
    pub open spec fn spec_sz(&self) -> int {
        match self {
            Level::B32(l) => l.sz as int,
            Level::B16(l) => l.sz as int,
            Level::B8(l) => l.sz as int,
            Level::B4(l) => l.sz as int,
            Level::B2(l) => l.sz as int,
            Level::B1(l) => l.sz as int,
        }
    }

    /// Voxels along z.
    pub fn sz(&self) -> (r: usize)
        ensures
            r == self.spec_sz(),
    {
        match self {
            Level::B32(l) => l.sz,
            Level::B16(l) => l.sz,
            Level::B8(l) => l.sz,
            Level::B4(l) => l.sz,
            Level::B2(l) => l.sz,
            Level::B1(l) => l.sz,
        }
    }

    /// Blocks along x.
    pub open spec fn spec_nx(&self) -> int {
        match self {
            Level::B32(l) => l.nx as int,
            Level::B16(l) => l.nx as int,
            Level::B8(l) => l.nx as int,
            Level::B4(l) => l.nx as int,
            Level::B2(l) => l.nx as int,
            Level::B1(l) => l.nx as int,
        }
    }

    /// Blocks along x.
    pub fn nx(&self) -> (r: usize)
        ensures
            r == self.spec_nx(),
    {
        match self {
            Level::B32(l) => l.nx,
            Level::B16(l) => l.nx,
            Level::B8(l) => l.nx,
            Level::B4(l) => l.nx,
            Level::B2(l) => l.nx,
            Level::B1(l) => l.nx,
        }
    }

    /// Blocks along y.
    pub open spec fn spec_ny(&self) -> int {
        match self {
            Level::B32(l) => l.ny as int,
            Level::B16(l) => l.ny as int,
            Level::B8(l) => l.ny as int,
            Level::B4(l) => l.ny as int,
            Level::B2(l) => l.ny as int,
            Level::B1(l) => l.ny as int,
        }
    }

    /// Blocks along y.
    pub fn ny(&self) -> (r: usize)
        ensures
            r == self.spec_ny(),
    {
        match self {
            Level::B32(l) => l.ny,
            Level::B16(l) => l.ny,
            Level::B8(l) => l.ny,
            Level::B4(l) => l.ny,
            Level::B2(l) => l.ny,
            Level::B1(l) => l.ny,
        }
    }

    /// Blocks along z.
    pub open spec fn spec_nz(&self) -> int {
        match self {
            Level::B32(l) => l.nz as int,
            Level::B16(l) => l.nz as int,
            Level::B8(l) => l.nz as int,
            Level::B4(l) => l.nz as int,
            Level::B2(l) => l.nz as int,
            Level::B1(l) => l.nz as int,
        }
    }

    /// Blocks along z.
    pub fn nz(&self) -> (r: usize)
        ensures
            r == self.spec_nz(),
    {
        match self {
            Level::B32(l) => l.nz,
            Level::B16(l) => l.nz,
            Level::B8(l) => l.nz,
            Level::B4(l) => l.nz,
            Level::B2(l) => l.nz,
            Level::B1(l) => l.nz,
        }
    }

    /// What `init_cell_flags` makes of a level.
    pub open spec fn cell_flags_filled(
        before: Level,
        after: Level,
        level: int,
        map: &RefinementMap,
        dims: BlockGridDims,
        store: &BlockInfoStore,
        block_flags: Option<Seq<BlockFlags>>,
    ) -> bool {
        match (before, after) {
            (Level::B32(b), Level::B32(a)) => crate::multires::cells::cell_flags_filled(b, a, level, map, dims, store, block_flags),
            (Level::B16(b), Level::B16(a)) => crate::multires::cells::cell_flags_filled(b, a, level, map, dims, store, block_flags),
            (Level::B8(b), Level::B8(a)) => crate::multires::cells::cell_flags_filled(b, a, level, map, dims, store, block_flags),
            (Level::B4(b), Level::B4(a)) => crate::multires::cells::cell_flags_filled(b, a, level, map, dims, store, block_flags),
            (Level::B2(b), Level::B2(a)) => crate::multires::cells::cell_flags_filled(b, a, level, map, dims, store, block_flags),
            (Level::B1(b), Level::B1(a)) => crate::multires::cells::cell_flags_filled(b, a, level, map, dims, store, block_flags),
            _ => false,
        }
    }

    /// What `init_dist_fine_coarse` makes of a level.
    pub open spec fn dist_filled(
        before: Level,
        after: Level,
        dtrans: int,
        map: &RefinementMap,
        dims: BlockGridDims,
        store: &BlockInfoStore,
    ) -> bool {
        match (before, after) {
            (Level::B32(b), Level::B32(a)) => crate::multires::cells::dist_filled(b, a, dtrans, map, dims, store),
            (Level::B16(b), Level::B16(a)) => crate::multires::cells::dist_filled(b, a, dtrans, map, dims, store),
            (Level::B8(b), Level::B8(a)) => crate::multires::cells::dist_filled(b, a, dtrans, map, dims, store),
            (Level::B4(b), Level::B4(a)) => crate::multires::cells::dist_filled(b, a, dtrans, map, dims, store),
            (Level::B2(b), Level::B2(a)) => crate::multires::cells::dist_filled(b, a, dtrans, map, dims, store),
            (Level::B1(b), Level::B1(a)) => crate::multires::cells::dist_filled(b, a, dtrans, map, dims, store),
            _ => false,
        }
    }

    /// What `propagate_dist_fine_coarse_full` makes of a level.
    pub open spec fn full_dist_propagated(
        before: Level,
        after: Level,
        level: int,
        dtrans: int,
        dims: BlockGridDims,
        store: &BlockInfoStore,
    ) -> bool {
        match (before, after) {
            (Level::B32(b), Level::B32(a)) => crate::multires::cells::full_dist_propagated(b, a, level, dtrans, dims, store),
            (Level::B16(b), Level::B16(a)) => crate::multires::cells::full_dist_propagated(b, a, level, dtrans, dims, store),
            (Level::B8(b), Level::B8(a)) => crate::multires::cells::full_dist_propagated(b, a, level, dtrans, dims, store),
            (Level::B4(b), Level::B4(a)) => crate::multires::cells::full_dist_propagated(b, a, level, dtrans, dims, store),
            (Level::B2(b), Level::B2(a)) => crate::multires::cells::full_dist_propagated(b, a, level, dtrans, dims, store),
            (Level::B1(b), Level::B1(a)) => crate::multires::cells::full_dist_propagated(b, a, level, dtrans, dims, store),
            _ => false,
        }
    }

    /// The sizes are the same in both.
    pub open spec fn same_shape(self, other: Level) -> bool {
        &&& self.spec_bsx() == other.spec_bsx()
        &&& self.spec_sx() == other.spec_sx()
        &&& self.spec_sy() == other.spec_sy()
        &&& self.spec_sz() == other.spec_sz()
        &&& self.spec_nx() == other.spec_nx()
        &&& self.spec_ny() == other.spec_ny()
        &&& self.spec_nz() == other.spec_nz()
        &&& self.spec_n_blocks() == other.spec_n_blocks()
    }

    /// Initializes the cell flags of every block at `level`.
    pub fn init_cell_flags(
        &mut self,
        level: usize,
        map: &RefinementMap,
        dims: &BlockGridDims,
        store: &BlockInfoStore,
        block_flags: Option<&Vec<BlockFlags>>,
    )
        requires
            old(self).wf(),
            old(self).spec_n_blocks() == dims.n_blocks,
            crate::multires::cells::inputs_ok(map, *dims, store),
            block_flags matches Some(f) ==> f@.len() == dims.n_blocks,
        ensures
            final(self).wf(),
            final(self).same_shape(*old(self)),
            Self::cell_flags_filled(
                *old(self),
                *final(self),
                level as int,
                map,
                *dims,
                store,
                crate::multires::cells::flags_view(block_flags),
            ),
    {
        proof {
            lemma_block_shapes();
        }
        match self {
            Level::B32(l) => init_cell_flags(l, level, map, dims, store, block_flags),
            Level::B16(l) => init_cell_flags(l, level, map, dims, store, block_flags),
            Level::B8(l) => init_cell_flags(l, level, map, dims, store, block_flags),
            Level::B4(l) => init_cell_flags(l, level, map, dims, store, block_flags),
            Level::B2(l) => init_cell_flags(l, level, map, dims, store, block_flags),
            Level::B1(l) => init_cell_flags(l, level, map, dims, store, block_flags),
        }
    }

    /// Fills in the distances of the blocks with the fine-coarse flag.
    pub fn init_dist_fine_coarse(
        &mut self,
        dtrans_res: usize,
        map: &RefinementMap,
        dims: &BlockGridDims,
        store: &BlockInfoStore,
    )
        requires
            old(self).wf(),
            old(self).spec_n_blocks() == dims.n_blocks,
            crate::multires::cells::inputs_ok(map, *dims, store),
            dtrans_res <= 63,
        ensures
            final(self).wf(),
            final(self).same_shape(*old(self)),
            Self::dist_filled(*old(self), *final(self), dtrans_res as int, map, *dims, store),
    {
        proof {
            lemma_block_shapes();
        }
        match self {
            Level::B32(l) => init_dist_fine_coarse(l, dtrans_res, map, dims, store),
            Level::B16(l) => init_dist_fine_coarse(l, dtrans_res, map, dims, store),
            Level::B8(l) => init_dist_fine_coarse(l, dtrans_res, map, dims, store),
            Level::B4(l) => init_dist_fine_coarse(l, dtrans_res, map, dims, store),
            Level::B2(l) => init_dist_fine_coarse(l, dtrans_res, map, dims, store),
            Level::B1(l) => init_dist_fine_coarse(l, dtrans_res, map, dims, store),
        }
    }

    /// Gives the blocks beside the interface the full distance.
    pub fn propagate_dist_fine_coarse_full(
        &mut self,
        level: usize,
        dtrans_res: usize,
        dims: &BlockGridDims,
        store: &BlockInfoStore,
    )
        requires
            old(self).wf(),
            old(self).spec_n_blocks() == dims.n_blocks,
            dims.wf(),
            store.level0@.len() == dims.n_blocks,
            store.flags@.len() >= 1,
            store.flags@[0]@.len() == dims.n_blocks,
            dtrans_res <= 63,
        ensures
            final(self).wf(),
            final(self).same_shape(*old(self)),
            Self::full_dist_propagated(
                *old(self),
                *final(self),
                level as int,
                dtrans_res as int,
                *dims,
                store,
            ),
    {
        proof {
            lemma_block_shapes();
        }
        match self {
            Level::B32(l) => propagate_dist_fine_coarse_full(l, level, dtrans_res, dims, store),
            Level::B16(l) => propagate_dist_fine_coarse_full(l, level, dtrans_res, dims, store),
            Level::B8(l) => propagate_dist_fine_coarse_full(l, level, dtrans_res, dims, store),
            Level::B4(l) => propagate_dist_fine_coarse_full(l, level, dtrans_res, dims, store),
            Level::B2(l) => propagate_dist_fine_coarse_full(l, level, dtrans_res, dims, store),
            Level::B1(l) => propagate_dist_fine_coarse_full(l, level, dtrans_res, dims, store),
        }
    }
}

/// The supported block sizes are the shapes of blocks.
proof fn lemma_block_shapes()
    ensures
        crate::blockpool::block_shape(32, 32768),
        crate::blockpool::block_shape(16, 4096),
        crate::blockpool::block_shape(8, 512),
        crate::blockpool::block_shape(4, 64),
        crate::blockpool::block_shape(2, 8),
        crate::blockpool::block_shape(1, 1),
{
    vstd::arithmetic::power2::lemma2_to64();
    assert(vstd::arithmetic::power2::pow2(5) == 32);
    assert(vstd::arithmetic::power2::pow2(4) == 16);
    assert(vstd::arithmetic::power2::pow2(3) == 8);
    assert(vstd::arithmetic::power2::pow2(2) == 4);
    assert(vstd::arithmetic::power2::pow2(1) == 2);
    assert(vstd::arithmetic::power2::pow2(0) == 1);
}

/// `bsx` is one of the supported block sizes.
pub open spec fn supported_block_size(bsx: int) -> bool {
    bsx == 32 || bsx == 16 || bsx == 8 || bsx == 4 || bsx == 2 || bsx == 1
}

/// The level with blocks of edge `block_size` over `sx * sy * sz` voxels, none of them materialized.
pub fn level_from_block_size(block_size: usize, sx: usize, sy: usize, sz: usize) -> (r: Level)
    requires
        supported_block_size(block_size as int),
        (sx as int / block_size as int) * (sy as int / block_size as int) <= usize::MAX,
        crate::blockmap::ids_fit(
            (sx as int / block_size as int) * (sy as int / block_size as int) * (sz as int
                / block_size as int),
        ),
    ensures
        r.wf(),
        r.spec_bsx() == block_size,
        r.spec_sx() == sx,
        r.spec_sy() == sy,
        r.spec_sz() == sz,
        r.spec_nx() == sx as int / block_size as int,
        r.spec_ny() == sy as int / block_size as int,
        r.spec_nz() == sz as int / block_size as int,
        r.spec_n_blocks() == r.spec_nx() * r.spec_ny() * r.spec_nz(),
        r.is_bare(),
{
    if block_size == 32 {
        Level::B32(LevelData::new(sx, sy, sz))
    } else if block_size == 16 {
        Level::B16(LevelData::new(sx, sy, sz))
    } else if block_size == 8 {
        Level::B8(LevelData::new(sx, sy, sz))
    } else if block_size == 4 {
        Level::B4(LevelData::new(sx, sy, sz))
    } else if block_size == 2 {
        Level::B2(LevelData::new(sx, sy, sz))
    } else {
        Level::B1(LevelData::new(sx, sy, sz))
    }
}

/// What a voxel has for density: zero in a block without any, else what the block holds for it.
pub proof fn law_density_reads<const BSX: usize, const N: usize>(
    l: &LevelData<BSX, N>,
    bid: int,
    vid: int,
)
    ensures
        !(0 <= bid < l.n_blocks) || !l.blocks@.contains_key(bid as usize) ==> l.density_at(bid, vid)
            == Scalar(0),
        0 <= bid < l.n_blocks && l.blocks@.contains_key(bid as usize) ==> l.density_at(bid, vid) == (
        match l.pool@[l.blocks@[bid as usize] as int].density {
            Some(d) => d.data@[vid],
            None => Scalar(0),
        }),
{
}

/// Where a block is the same, so is its density.
pub proof fn law_same_block_same_density<const BSX: usize, const N: usize>(
    a: &LevelData<BSX, N>,
    b: &LevelData<BSX, N>,
    bid: int,
    vid: int,
)
    requires
        a.same_block(b, bid),
    ensures
        a.has(bid) <==> b.has(bid),
        a.density_at(bid, vid) == b.density_at(bid, vid),
        a.has(bid) ==> a.record(bid).cell_flags@ == b.record(bid).cell_flags@
            && a.record(bid).dist_fine_coarse@ == b.record(bid).dist_fine_coarse@ && a.record(bid).faces
            == b.record(bid).faces,
{
}

/// A level has as many blocks as its sizes in blocks say, and the steps of the refinement keep its
/// block size.
pub proof fn law_level_shapes(
    l: Level,
    after: Level,
    level: int,
    dtrans: int,
    map: &RefinementMap,
    dims: BlockGridDims,
    store: &BlockInfoStore,
    block_flags: Option<Seq<BlockFlags>>,
)
    ensures
        l.wf() ==> l.spec_n_blocks() == l.spec_nx() * l.spec_ny() * l.spec_nz(),
        supported_block_size(l.spec_bsx()),
        supported_block_size(2 * l.spec_bsx()) || l.spec_bsx() == 32,
        Level::cell_flags_filled(l, after, level, map, dims, store, block_flags) ==> after.same_shape(l),
        Level::dist_filled(l, after, dtrans, map, dims, store) ==> after.same_shape(l),
        Level::full_dist_propagated(l, after, level, dtrans, dims, store) ==> after.same_shape(l),
{
}

/// The block sizes that are supported are the powers of two up to 32.
pub proof fn law_supported_sizes(p: nat)
    ensures
        supported_block_size(vstd::arithmetic::power2::pow2(p) as int) <==> p <= 5,
{
    vstd::arithmetic::power2::lemma2_to64();
    if p > 5 {
        vstd::arithmetic::power2::lemma_pow2_strictly_increases(5, p);
    }
}

/// A block gets a record unless it has one: no density, flag, distance or face that was there
/// changes, and a new record is void, with no distance and no density.
pub proof fn law_block_ensured<const BSX: usize, const N: usize>(
    before: LevelData<BSX, N>,
    after: LevelData<BSX, N>,
    bid: usize,
    b: int,
    v: int,
)
    requires
        before.wf(),
        LevelData::block_ensured(before, after, bid),
        bid < before.n_blocks,
        0 <= v < N,
    ensures
        after.has(b) <==> before.has(b) || b == bid,
        after.density_at(b, v) == before.density_at(b, v),
        before.has(b) ==> after.record(b).cell_flags@[v] == before.record(b).cell_flags@[v]
            && after.record(b).dist_fine_coarse@[v] == before.record(b).dist_fine_coarse@[v],
        before.has(b) ==> after.record(b).faces == before.record(b).faces,
        b == bid && !before.has(b) ==> after.record(b).cell_flags@[v] == CellFlags(0x9830)
            && after.record(b).dist_fine_coarse@[v] == DistFineCoarse(0),
{
    if b != bid {
        assert(after.same_block(&before, b));
    } else if 0 <= v < N {
        assert(after.density_at(bid as int, v) == after.density_at(bid as int, v));
    }
}

/// A block gets densities unless it has some: no density, flag, distance or face that was there
/// changes.
pub proof fn law_density_ensured<const BSX: usize, const N: usize>(
    before: LevelData<BSX, N>,
    after: LevelData<BSX, N>,
    bid: usize,
    b: int,
    v: int,
)
    requires
        before.wf(),
        LevelData::density_ensured(before, after, bid),
        bid < before.n_blocks,
        0 <= v < N,
    ensures
        after.has(b) <==> before.has(b) || b == bid,
        after.density_at(b, v) == before.density_at(b, v),
        before.has(b) ==> after.record(b).cell_flags@[v] == before.record(b).cell_flags@[v]
            && after.record(b).dist_fine_coarse@[v] == before.record(b).dist_fine_coarse@[v],
        before.has(b) ==> after.record(b).faces == before.record(b).faces,
        b == bid && !before.has(b) ==> after.record(b).cell_flags@[v] == CellFlags(0x9830)
            && after.record(b).dist_fine_coarse@[v] == DistFineCoarse(0),
        after.record(bid as int).density is Some,
{
    if b != bid {
        assert(after.same_block(&before, b));
    } else if 0 <= v < N {
        assert(after.density_at(bid as int, v) == after.density_at(bid as int, v));
    }
}

/// A block gets faces unless it has some: no density, flag, distance or face that was there
/// changes, and new faces are zero.
pub proof fn law_faces_ensured<const BSX: usize, const N: usize>(
    before: LevelData<BSX, N>,
    after: LevelData<BSX, N>,
    bid: usize,
    b: int,
    v: int,
    c: int,
)
    requires
        before.wf(),
        LevelData::faces_ensured(before, after, bid),
        bid < before.n_blocks,
        0 <= v < N,
    ensures
        after.has(b) <==> before.has(b) || b == bid,
        after.density_at(b, v) == before.density_at(b, v),
        before.has(b) ==> after.record(b).cell_flags@[v] == before.record(b).cell_flags@[v]
            && after.record(b).dist_fine_coarse@[v] == before.record(b).dist_fine_coarse@[v],
        b == bid && !before.has(b) ==> after.record(b).cell_flags@[v] == CellFlags(0x9830)
            && after.record(b).dist_fine_coarse@[v] == DistFineCoarse(0),
        after.record(bid as int).faces is Some,
        before.has(b) && before.record(b).faces is Some ==> after.record(b).faces == before.record(
            b,
        ).faces,
        b == bid && !(before.has(b) && before.record(b).faces is Some) && 0 <= c < 3 ==> after.record(
            b,
        ).faces.unwrap().face_area@[c]@[v] == Scalar(0) && after.record(b).faces.unwrap().face_coeff@[c]@[v]
            == Scalar(0),
{
    if b != bid {
        assert(after.same_block(&before, b));
    } else if !(before.has(b) && before.record(b).faces is Some) {
        let f = after.record(b).faces.unwrap();
        assert(f.is_zero());
        if 0 <= c < 3 {
            let (area, coeff) = (f.face_area@[c], f.face_coeff@[c]);
            assert(area@ == Seq::new(N as nat, |i: int| Scalar(0)) && coeff@ == Seq::new(
                N as nat,
                |i: int| Scalar(0),
            ));
        }
    }
}

/// The density that was set is read back, and no other density, and no flag, distance or face,
/// changes.
pub proof fn law_density_set<const BSX: usize, const N: usize>(
    before: LevelData<BSX, N>,
    after: LevelData<BSX, N>,
    bid: usize,
    vid: usize,
    val: Scalar,
    b: int,
    v: int,
)
    requires
        before.wf(),
        LevelData::density_set(before, after, bid, vid, val),
        bid < before.n_blocks,
        0 <= v < N,
    ensures
        after.has(b) <==> before.has(b) || b == bid,
        after.density_at(b, v) == (if b == bid && v == vid {
            val
        } else {
            before.density_at(b, v)
        }),
        before.has(b) ==> after.record(b).cell_flags@[v] == before.record(b).cell_flags@[v]
            && after.record(b).dist_fine_coarse@[v] == before.record(b).dist_fine_coarse@[v],
        before.has(b) ==> after.record(b).faces == before.record(b).faces,
{
    if b != bid {
        assert(after.same_block(&before, b));
    } else if 0 <= v < N {
        assert(after.density_at(bid as int, v) == after.density_at(bid as int, v));
    }
}

/// The densities that were set are read back, and none of another block, and no flag, distance or
/// face, changes.
pub proof fn law_densities_set<const BSX: usize, const N: usize>(
    before: LevelData<BSX, N>,
    after: LevelData<BSX, N>,
    bid: usize,
    data: Seq<Scalar>,
    b: int,
    v: int,
)
    requires
        before.wf(),
        LevelData::densities_set(before, after, bid, data),
        bid < before.n_blocks,
        0 <= v < N,
    ensures
        after.has(b) <==> before.has(b) || b == bid,
        after.density_at(b, v) == (if b == bid {
            data[v]
        } else {
            before.density_at(b, v)
        }),
        before.has(b) ==> after.record(b).cell_flags@[v] == before.record(b).cell_flags@[v]
            && after.record(b).dist_fine_coarse@[v] == before.record(b).dist_fine_coarse@[v],
        before.has(b) ==> after.record(b).faces == before.record(b).faces,
{
    if b != bid {
        assert(after.same_block(&before, b));
    } else if 0 <= v < N {
        assert(after.density_at(bid as int, v) == after.density_at(bid as int, v));
    }
}

/// The flags that were set are read back, and none of another block, and no density, distance or
/// face, changes.
pub proof fn law_flags_set<const BSX: usize, const N: usize>(
    before: LevelData<BSX, N>,
    after: LevelData<BSX, N>,
    bid: usize,
    flags: Vec<CellFlags>,
    b: int,
    v: int,
)
    requires
        before.wf(),
        LevelData::flags_set(before, after, bid, flags),
        before.has(bid as int),
        0 <= v < N,
    ensures
        after.has(b) <==> before.has(b),
        after.density_at(b, v) == before.density_at(b, v),
        before.has(b) ==> after.record(b).faces == before.record(b).faces,
        before.has(b) ==> after.record(b).cell_flags@[v] == (if b == bid {
            flags@[v]
        } else {
            before.record(b).cell_flags@[v]
        }) && after.record(b).dist_fine_coarse@[v] == before.record(b).dist_fine_coarse@[v],
{
    if b != bid {
        assert(after.same_block(&before, b));
    } else if 0 <= v < N {
        assert(after.density_at(bid as int, v) == after.density_at(bid as int, v));
    }
}

/// The distances that were set are read back, and none of another block, and no density, flag or
/// face, changes.
pub proof fn law_dist_set<const BSX: usize, const N: usize>(
    before: LevelData<BSX, N>,
    after: LevelData<BSX, N>,
    bid: usize,
    dist: Vec<DistFineCoarse>,
    b: int,
    v: int,
)
    requires
        before.wf(),
        LevelData::dist_set(before, after, bid, dist),
        before.has(bid as int),
        0 <= v < N,
    ensures
        after.has(b) <==> before.has(b),
        after.density_at(b, v) == before.density_at(b, v),
        before.has(b) ==> after.record(b).faces == before.record(b).faces,
        before.has(b) ==> after.record(b).dist_fine_coarse@[v] == (if b == bid {
            dist@[v]
        } else {
            before.record(b).dist_fine_coarse@[v]
        }) && after.record(b).cell_flags@[v] == before.record(b).cell_flags@[v],
{
    if b != bid {
        assert(after.same_block(&before, b));
    } else if 0 <= v < N {
        assert(after.density_at(bid as int, v) == after.density_at(bid as int, v));
    }
}

/// A bare level has no record for any block.
pub proof fn law_bare_level(l: Level, b: int)
    requires
        l.is_bare(),
    ensures
        match l {
            Level::B32(d) => !d.has(b),
            Level::B16(d) => !d.has(b),
            Level::B8(d) => !d.has(b),
            Level::B4(d) => !d.has(b),
            Level::B2(d) => !d.has(b),
            Level::B1(d) => !d.has(b),
        },
{
}

} // verus!
