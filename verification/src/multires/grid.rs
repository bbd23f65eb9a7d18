//! The multiresolution sparse block grid: a stack of resolution levels over one domain.

use crate::multires::blockinfo::BlockInfoStore;
use crate::multires::level::{level_from_block_size, Level, LevelData};
use crate::multires::refinement::{
    compute_block_topology, regularize_refinement_map, BlockGridDims, RefinementMap, Topology,
};
use vstd::prelude::*;

verus! {

/// Maximum number of resolution levels.
pub const MAX_LEVELS: usize = 5;

/// A stack of resolution levels, and the topology of their blocks.
pub struct MultiresGrid {
    pub name: String,
    /// Number of resolution levels.
    pub n_levels: usize,
    /// Block size of the finest level: a power of two, at most 32.
    pub bsx0: usize,
    /// Voxels of the finest level along x.
    pub sx0: usize,
    /// Voxels of the finest level along y.
    pub sy0: usize,
    /// Voxels of the finest level along z.
    pub sz0: usize,
    /// Width of the fine-coarse transition, in voxels of the finest level.
    pub dtrans_res: usize,
    /// Sizes of the block grid, the same on all levels.
    pub dims: BlockGridDims,
    pub block_info: BlockInfoStore,
    pub levels: Vec<Level>,
}

/// Level `l` of a stack: block size and voxel counts are those of the finest level, halved `l` times.
pub open spec fn is_level_of(lv: Level, l: int, bsx0: int, sx0: int, sy0: int, sz0: int) -> bool {
    &&& lv.spec_bsx() * vstd::arithmetic::power2::pow2(l as nat) == bsx0
    &&& lv.spec_sx() * vstd::arithmetic::power2::pow2(l as nat) == sx0
    &&& lv.spec_sy() * vstd::arithmetic::power2::pow2(l as nat) == sy0
    &&& lv.spec_sz() * vstd::arithmetic::power2::pow2(l as nat) == sz0
}

/// The level covers the domain with the blocks of the block grid.
pub open spec fn has_blocks_of(lv: Level, dims: BlockGridDims) -> bool {
    &&& lv.spec_nx() == dims.nx
    &&& lv.spec_ny() == dims.ny
    &&& lv.spec_nz() == dims.nz
    &&& lv.spec_n_blocks() == dims.n_blocks
    &&& lv.spec_sx() == lv.spec_bsx() * dims.nx
    &&& lv.spec_sy() == lv.spec_bsx() * dims.ny
    &&& lv.spec_sz() == lv.spec_bsx() * dims.nz
}

/// What setting a refinement map makes of level `l`: cell flags, then distances, then the full
/// distance beside the interface.
pub open spec fn level_refined(
    before: Level,
    after: Level,
    l: int,
    dtrans: int,
    map: &RefinementMap,
    dims: BlockGridDims,
    store: &BlockInfoStore,
) -> bool {
    exists|flagged: Level, measured: Level|
        {
            &&& #[trigger] Level::cell_flags_filled(before, flagged, l, map, dims, store, None)
            &&& #[trigger] Level::dist_filled(flagged, measured, dtrans, map, dims, store)
            &&& Level::full_dist_propagated(measured, after, l, dtrans, dims, store)
        }
}

impl MultiresGrid {
    /// The invariant of the grid: all levels have the blocks of the domain.
    pub open spec fn wf(&self) -> bool {
        &&& 1 <= self.n_levels <= MAX_LEVELS
        &&& self.dims.wf()
        &&& self.block_info.wf(self.dims.n_blocks as int, self.n_levels as int)
        &&& self.levels@.len() == self.n_levels
        &&& forall|l: int|
            0 <= l < self.n_levels ==> (#[trigger] self.levels@[l]).wf() && has_blocks_of(
                self.levels@[l],
                self.dims,
            )
    }

    /// A grid of `n_levels` levels, all blocks at the coarsest of them.
    pub fn create(
        name: &str,
        sx0: usize,
        sy0: usize,
        sz0: usize,
        block_size0: usize,
        n_levels: usize,
        dtrans_res: usize,
    ) -> (r: Self)
        requires
            crate::multires::level::supported_block_size(block_size0 as int),
            2 <= n_levels <= MAX_LEVELS,
            vstd::arithmetic::power2::pow2((n_levels - 1) as nat) <= block_size0,
            sx0 as int % block_size0 as int == 0,
            sy0 as int % block_size0 as int == 0,
            sz0 as int % block_size0 as int == 0,
            (sx0 as int / block_size0 as int) * (sy0 as int / block_size0 as int) <= usize::MAX,
            crate::blockmap::ids_fit(
                (sx0 as int / block_size0 as int) * (sy0 as int / block_size0 as int) * (sz0 as int
                    / block_size0 as int),
            ),
        ensures
            r.wf(),
            r.name@ == name@,
            r.n_levels == n_levels,
            r.bsx0 == block_size0,
            r.sx0 == sx0,
            r.sy0 == sy0,
            r.sz0 == sz0,
            r.dtrans_res == dtrans_res,
            r.dims.nx == sx0 as int / block_size0 as int,
            r.dims.ny == sy0 as int / block_size0 as int,
            r.dims.nz == sz0 as int / block_size0 as int,
            r.block_info.level0@ == Seq::new(
                r.dims.n_blocks as nat,
                |b: int| (n_levels - 1) as u8,
            ),
            forall|l: int|
                0 <= l < n_levels ==> (#[trigger] r.block_info.flags@[l])@ == Seq::new(
                    r.dims.n_blocks as nat,
                    |b: int| crate::multires::blockinfo::BlockFlags(0),
                ),
            forall|l: int|
                0 <= l < n_levels ==> (#[trigger] r.levels@[l]).spec_nx() == r.dims.nx
                    && r.levels@[l].spec_ny() == r.dims.ny && r.levels@[l].spec_nz() == r.dims.nz,
            forall|l: int|
                0 <= l < n_levels ==> (#[trigger] r.levels@[l]).is_bare() && is_level_of(
                    r.levels@[l],
                    l,
                    block_size0 as int,
                    sx0 as int,
                    sy0 as int,
                    sz0 as int,
                ),
    {
        let nx: usize = sx0 / block_size0;
        let ny: usize = sy0 / block_size0;
        let nz: usize = sz0 / block_size0;
        let dims = BlockGridDims::new(nx, ny, nz);
        let mut levels: Vec<Level> = Vec::with_capacity(n_levels);
        let mut sx: usize = sx0;
        let mut sy: usize = sy0;
        let mut sz: usize = sz0;
        let mut bsx: usize = block_size0;
        let mut l: usize = 0;
        proof {
            vstd::arithmetic::power2::lemma2_to64();
            vstd::arithmetic::div_mod::lemma_fundamental_div_mod(sx0 as int, block_size0 as int);
            vstd::arithmetic::div_mod::lemma_fundamental_div_mod(sy0 as int, block_size0 as int);
            vstd::arithmetic::div_mod::lemma_fundamental_div_mod(sz0 as int, block_size0 as int);
        }
        while l < n_levels
            invariant
                l <= n_levels,
                2 <= n_levels <= MAX_LEVELS,
                crate::multires::level::supported_block_size(block_size0 as int),
                vstd::arithmetic::power2::pow2((n_levels - 1) as nat) <= block_size0,
                l < n_levels ==> crate::multires::level::supported_block_size(bsx as int),
                l < n_levels ==> bsx * vstd::arithmetic::power2::pow2(l as nat) == block_size0,
                l < n_levels ==> sx == bsx * nx,
                l < n_levels ==> sy == bsx * ny,
                l < n_levels ==> sz == bsx * nz,
                l < n_levels ==> sx * vstd::arithmetic::power2::pow2(l as nat) == sx0,
                l < n_levels ==> sy * vstd::arithmetic::power2::pow2(l as nat) == sy0,
                l < n_levels ==> sz * vstd::arithmetic::power2::pow2(l as nat) == sz0,
                nx * ny <= usize::MAX,
                crate::blockmap::ids_fit(nx * ny * nz),
                dims.wf(),
                dims.nx == nx,
                dims.ny == ny,
                dims.nz == nz,
                levels@.len() == l,
                forall|k: int|
                    0 <= k < l ==> (#[trigger] levels@[k]).wf() && levels@[k].is_bare()
                        && has_blocks_of(levels@[k], dims) && is_level_of(
                        levels@[k],
                        k,
                        block_size0 as int,
                        sx0 as int,
                        sy0 as int,
                        sz0 as int,
                    ),
            decreases n_levels - l,
        {
            proof {
                lemma_exact_div(nx as int, bsx as int);
                lemma_exact_div(ny as int, bsx as int);
                lemma_exact_div(nz as int, bsx as int);
            }
            levels.push(level_from_block_size(bsx, sx, sy, sz));
            proof {
                if l + 1 < n_levels {
                    let p = vstd::arithmetic::power2::pow2(l as nat) as int;
                    vstd::arithmetic::power2::lemma_pow2_unfold((l + 1) as nat);
                    vstd::arithmetic::power2::lemma_pow2_pos(l as nat);
                    if l + 1 < n_levels - 1 {
                        vstd::arithmetic::power2::lemma_pow2_strictly_increases(
                            (l + 1) as nat,
                            (n_levels - 1) as nat,
                        );
                    }
                    assert(bsx >= 2) by (nonlinear_arith)
                        requires
                            bsx * p == block_size0,
                            2 * p <= block_size0,
                            p > 0,
                    ;
                    let h = bsx as int / 2;
                    lemma_halve(h, nx as int, p);
                    lemma_halve(h, ny as int, p);
                    lemma_halve(h, nz as int, p);
                    assert((2 * h) * p == h * (2 * p)) by (nonlinear_arith);
                }
            }
            sx = sx / 2;
            sy = sy / 2;
            sz = sz / 2;
            bsx = bsx / 2;
            l = l + 1;
        }
        let block_info = BlockInfoStore::new(dims.n_blocks, n_levels);
        MultiresGrid {
            name: name.to_string(),
            n_levels,
            bsx0: block_size0,
            sx0,
            sy0,
            sz0,
            dtrans_res,
            dims,
            block_info,
            levels,
        }
    }

    /// `after` is `before` with the topology and the fine-coarse distances of `map`, which is
    /// `given`, regularized.
    pub open spec fn is_refined(
        before: Self,
        after: Self,
        given: RefinementMap,
        map: RefinementMap,
        r: &Topology,
    ) -> bool {
        &&& after.wf()
        &&& map.levels@ == crate::multires::refinement::regularized(
            given.levels@,
            before.dims,
            before.n_levels as int,
        )
        &&& after.name == before.name
        &&& after.n_levels == before.n_levels
        &&& after.bsx0 == before.bsx0
        &&& after.sx0 == before.sx0
        &&& after.sy0 == before.sy0
        &&& after.sz0 == before.sz0
        &&& after.dtrans_res == before.dtrans_res
        &&& after.dims == before.dims
        &&& after.block_info.level0@ == map.levels@
        &&& after.block_info.flags@[0]@ == Seq::new(
            before.dims.n_blocks as nat,
            |b: int|
                crate::multires::refinement::topology_flags(map.levels@, before.dims, None, b),
        )
        &&& forall|l: int|
            1 <= l < before.n_levels ==> #[trigger] after.block_info.flags@[l]
                == before.block_info.flags@[l]
        &&& r.blocks_fine_coarse@.len() == before.n_levels
        &&& forall|l: int|
            0 <= l < before.n_levels ==> (#[trigger] r.blocks_fine_coarse@[l])@
                == crate::multires::refinement::fine_coarse_ids(
                map.levels@,
                after.block_info.flags@[0]@,
                l,
                before.dims.n_blocks as int,
            )
        &&& r.n_act_blocks == crate::multires::refinement::count_existing(
            after.block_info.flags@[0]@,
            before.dims.n_blocks as int,
        )
        &&& forall|l: int|
            0 <= l < before.n_levels ==> (#[trigger] after.levels@[l]).same_shape(before.levels@[l])
        &&& forall|l: int|
            0 <= l < before.n_levels ==> level_refined(
                before.levels@[l],
                #[trigger] after.levels@[l],
                l,
                before.dtrans_res as int,
                &map,
                before.dims,
                &after.block_info,
            )
    }

    /// Regularizes `map`, takes block levels and flags from it, and initializes the cell flags and
    /// the fine-coarse distances of all levels.
    ///
    /// The transition may be at most 63 voxels wide: its distances are kept in 16 bits.
    pub fn set_refinement_map(&mut self, map: &mut RefinementMap) -> (r: Topology)
        requires
            old(self).wf(),
            old(self).dtrans_res <= 63,
            old(map).levels@.len() == old(self).dims.n_blocks,
            forall|b: int|
                0 <= b < old(self).dims.n_blocks ==> #[trigger] old(map).levels@[b] < old(
                    self,
                ).n_levels,
        ensures
            Self::is_refined(*old(self), *final(self), *old(map), *final(map), &r),
    {
        proof {
            crate::multires::refinement::law_regularized_is_coarsest(
                map.levels@,
                self.dims,
                self.n_levels as int,
            );
        }
        regularize_refinement_map(&mut map.levels, &self.dims, self.n_levels);
        proof {
            assert forall|b: int| 0 <= b < self.dims.n_blocks implies #[trigger] map.levels@[b]
                < self.n_levels by {
                assert(old(map).levels@[b] < self.n_levels);
            }
        }
        let topology = compute_block_topology(
            &mut self.block_info,
            map,
            &self.dims,
            self.n_levels,
            None,
        );
        let ghost store = self.block_info;
        let ghost start = self.levels@;
        let mut l: usize = 0;
        while l < self.n_levels
            invariant
                l <= self.n_levels,
                self.wf(),
                self.block_info == store,
                self.name == old(self).name,
                self.n_levels == old(self).n_levels,
                self.bsx0 == old(self).bsx0,
                self.sx0 == old(self).sx0,
                self.sy0 == old(self).sy0,
                self.sz0 == old(self).sz0,
                self.dtrans_res == old(self).dtrans_res,
                self.dtrans_res <= 63,
                self.dims == old(self).dims,
                start == old(self).levels@,
                forall|k: int|
                    0 <= k < self.n_levels ==> (#[trigger] self.levels@[k]).same_shape(start[k]),
                map.levels@.len() == self.dims.n_blocks,
                forall|k: int|
                    0 <= k < l ==> Level::cell_flags_filled(
                        start[k],
                        #[trigger] self.levels@[k],
                        k,
                        map,
                        self.dims,
                        &store,
                        None,
                    ),
                forall|k: int| l <= k < self.n_levels ==> #[trigger] self.levels@[k] == start[k],
            decreases self.n_levels - l,
        {
            assert(self.levels@[l as int].wf());
            self.levels[l].init_cell_flags(l, map, &self.dims, &self.block_info, None);
            l = l + 1;
        }
        let ghost flagged = self.levels@;
        let mut l: usize = 0;
        while l < self.n_levels
            invariant
                l <= self.n_levels,
                self.wf(),
                self.block_info == store,
                self.name == old(self).name,
                self.n_levels == old(self).n_levels,
                self.bsx0 == old(self).bsx0,
                self.sx0 == old(self).sx0,
                self.sy0 == old(self).sy0,
                self.sz0 == old(self).sz0,
                self.dtrans_res == old(self).dtrans_res,
                self.dtrans_res <= 63,
                self.dims == old(self).dims,
                start == old(self).levels@,
                forall|k: int|
                    0 <= k < self.n_levels ==> (#[trigger] self.levels@[k]).same_shape(start[k]),
                map.levels@.len() == self.dims.n_blocks,
                flagged.len() == self.n_levels,
                forall|k: int|
                    0 <= k < self.n_levels ==> Level::cell_flags_filled(
                        start[k],
                        #[trigger] flagged[k],
                        k,
                        map,
                        self.dims,
                        &store,
                        None,
                    ),
                forall|k: int| l <= k < self.n_levels ==> #[trigger] self.levels@[k] == flagged[k],
                forall|k: int|
                    0 <= k < l ==> level_refined(
                        start[k],
                        #[trigger] self.levels@[k],
                        k,
                        self.dtrans_res as int,
                        map,
                        self.dims,
                        &store,
                    ),
            decreases self.n_levels - l,
        {
            assert(self.levels@[l as int].wf());
            assert(self.levels@[l as int] == flagged[l as int]);
            self.levels[l].init_dist_fine_coarse(
                self.dtrans_res,
                map,
                &self.dims,
                &self.block_info,
            );
            let ghost measured = self.levels@[l as int];
            self.levels[l].propagate_dist_fine_coarse_full(
                l,
                self.dtrans_res,
                &self.dims,
                &self.block_info,
            );
            proof {
                assert(level_refined(
                    start[l as int],
                    self.levels@[l as int],
                    l as int,
                    self.dtrans_res as int,
                    map,
                    self.dims,
                    &store,
                )) by {
                    assert(Level::dist_filled(
                        flagged[l as int],
                        measured,
                        self.dtrans_res as int,
                        map,
                        self.dims,
                        &store,
                    ));
                }
            }
            l = l + 1;
        }
        topology
    }

    /// Resolution level of block `bid`.
    pub fn block_level(&self, bid: usize) -> (r: u8)
        requires
            self.wf(),
            bid < self.dims.n_blocks,
        ensures
            r == self.block_info.level0@[bid as int],
    {
        self.block_info.level0[bid]
    }
}

proof fn lemma_exact_div(n: int, b: int)
    requires
        0 < b,
    ensures
        (b * n) / b == n,
{
    crate::layout::lemma_block_split(n, 0, b);
}

proof fn lemma_halve(h: int, n: int, p: int)
    ensures
        ((2 * h) * n) / 2 == h * n,
        (h * n) * (2 * p) == ((2 * h) * n) * p,
{
    assert((2 * h) * n == 2 * (h * n)) by (nonlinear_arith);
    assert((h * n) * (2 * p) == ((2 * h) * n) * p) by (nonlinear_arith);
}

/// The first level has the sizes of the grid, and each further level half those of the one before, in
/// voxels and in voxels of a block: all levels have the same blocks.
pub proof fn law_levels_halve(a: Level, b: Level, l: int, bsx0: int, sx0: int, sy0: int, sz0: int)
    requires
        0 <= l,
        is_level_of(a, l, bsx0, sx0, sy0, sz0),
        is_level_of(b, l + 1, bsx0, sx0, sy0, sz0),
    ensures
        l == 0 ==> a.spec_bsx() == bsx0 && a.spec_sx() == sx0 && a.spec_sy() == sy0 && a.spec_sz()
            == sz0,
        a.spec_bsx() == 2 * b.spec_bsx(),
        a.spec_sx() == 2 * b.spec_sx(),
        a.spec_sy() == 2 * b.spec_sy(),
        a.spec_sz() == 2 * b.spec_sz(),
{
    let p = vstd::arithmetic::power2::pow2(l as nat) as int;
    vstd::arithmetic::power2::lemma2_to64();
    vstd::arithmetic::power2::lemma_pow2_unfold((l + 1) as nat);
    vstd::arithmetic::power2::lemma_pow2_pos(l as nat);
    if l == 0 {
        vstd::arithmetic::mul::lemma_mul_basics(a.spec_bsx());
        vstd::arithmetic::mul::lemma_mul_basics(a.spec_sx());
        vstd::arithmetic::mul::lemma_mul_basics(a.spec_sy());
        vstd::arithmetic::mul::lemma_mul_basics(a.spec_sz());
    }
    lemma_cancel(a.spec_bsx(), b.spec_bsx(), p);
    lemma_cancel(a.spec_sx(), b.spec_sx(), p);
    lemma_cancel(a.spec_sy(), b.spec_sy(), p);
    lemma_cancel(a.spec_sz(), b.spec_sz(), p);
}

proof fn lemma_cancel(m: int, n: int, p: int)
    requires
        0 < p,
        m * p == n * (2 * p),
    ensures
        m == 2 * n,
{
    assert(m == 2 * n) by (nonlinear_arith)
        requires
            0 < p,
            m * p == n * (2 * p),
    ;
}

/// All levels have the blocks of the grid: as many along each axis, each with as many voxels as the
/// block size says.
pub proof fn law_levels_share_blocks(g: &MultiresGrid, l: int)
    requires
        g.wf(),
        0 <= l < g.n_levels,
    ensures
        g.levels@[l].spec_nx() == g.dims.nx,
        g.levels@[l].spec_ny() == g.dims.ny,
        g.levels@[l].spec_nz() == g.dims.nz,
        g.levels@[l].spec_n_blocks() == g.dims.nx * g.dims.ny * g.dims.nz,
        g.levels@[l].spec_sx() == g.levels@[l].spec_bsx() * g.dims.nx,
        g.levels@[l].spec_sy() == g.levels@[l].spec_bsx() * g.dims.ny,
        g.levels@[l].spec_sz() == g.levels@[l].spec_bsx() * g.dims.nz,
        g.block_info.level0@.len() == g.dims.nx * g.dims.ny * g.dims.nz,
{
    let lv = g.levels@[l];
}

/// Refining a level keeps its shape.
pub proof fn law_refined_level_keeps_shape(
    before: Level,
    after: Level,
    l: int,
    dtrans: int,
    map: &RefinementMap,
    dims: BlockGridDims,
    store: &BlockInfoStore,
)
    requires
        level_refined(before, after, l, dtrans, map, dims, store),
    ensures
        after.same_shape(before),
{
    let (flagged, measured) = choose|flagged: Level, measured: Level|
        {
            &&& #[trigger] Level::cell_flags_filled(before, flagged, l, map, dims, store, None)
            &&& #[trigger] Level::dist_filled(flagged, measured, dtrans, map, dims, store)
            &&& Level::full_dist_propagated(measured, after, l, dtrans, dims, store)
        };
    crate::multires::level::law_level_shapes(before, flagged, l, dtrans, map, dims, store, None);
    crate::multires::level::law_level_shapes(flagged, measured, l, dtrans, map, dims, store, None);
    crate::multires::level::law_level_shapes(measured, after, l, dtrans, map, dims, store, None);
}

/// What refining leaves of block `b` of the level: it has a record with the cell flags of its
/// voxels, where it touches a coarser block the distances to it, and the densities that it had.
pub open spec fn is_refined_block<const BSX: usize, const N: usize>(
    before: LevelData<BSX, N>,
    after: LevelData<BSX, N>,
    l: int,
    dtrans: int,
    map: &RefinementMap,
    dims: BlockGridDims,
    store: &BlockInfoStore,
    b: int,
) -> bool {
    &&& after.has(b)
    &&& forall|v: int|
        0 <= v < N ==> #[trigger] after.record(b).cell_flags@[v]
            == crate::multires::cells::cell_flags_of(map, dims, store, None, b, BSX as int, v)
    &&& forall|v: int| 0 <= v < N ==> #[trigger] after.density_at(b, v) == before.density_at(b, v)
    &&& forall|v: int|
        0 <= v < N && store.flags@[0]@[b].0 & 0x0008 != 0
            ==> crate::multires::cells::is_quantized_dist(
            map.levels@,
            dims,
            l,
            dtrans,
            BSX as int,
            b,
            v,
            (#[trigger] after.record(b).dist_fine_coarse@[v]).0 as int,
        )
}

proof fn lemma_refined_block<const BSX: usize, const N: usize>(
    before: LevelData<BSX, N>,
    f: LevelData<BSX, N>,
    m: LevelData<BSX, N>,
    after: LevelData<BSX, N>,
    l: int,
    dtrans: int,
    map: &RefinementMap,
    dims: BlockGridDims,
    store: &BlockInfoStore,
    b: int,
)
    requires
        crate::multires::cells::cell_flags_filled(before, f, l, map, dims, store, None),
        crate::multires::cells::dist_filled(f, m, dtrans, map, dims, store),
        crate::multires::cells::full_dist_propagated(m, after, l, dtrans, dims, store),
        0 <= b < dims.n_blocks,
        store.level0@[b] == l,
    ensures
        is_refined_block(before, after, l, dtrans, map, dims, store, b),
{
    assert(f.has(b));
    if store.flags@[0]@[b].has(crate::multires::blockinfo::BlockFlags::FINE_COARSE) {
        assert(m.has(b));
    } else {
        assert(m.same_block(&f, b));
    }
    assert(after.same_block(&m, b));
}

/// Refining a level fills in the flags and the distances of every block of the level, whatever the
/// block size.
pub proof fn law_refined_blocks(
    before: Level,
    after: Level,
    l: int,
    dtrans: int,
    map: &RefinementMap,
    dims: BlockGridDims,
    store: &BlockInfoStore,
    b: int,
)
    requires
        level_refined(before, after, l, dtrans, map, dims, store),
        0 <= b < dims.n_blocks,
        store.level0@[b] == l,
    ensures
        match (before, after) {
            (Level::B32(x), Level::B32(y)) => is_refined_block(x, y, l, dtrans, map, dims, store, b),
            (Level::B16(x), Level::B16(y)) => is_refined_block(x, y, l, dtrans, map, dims, store, b),
            (Level::B8(x), Level::B8(y)) => is_refined_block(x, y, l, dtrans, map, dims, store, b),
            (Level::B4(x), Level::B4(y)) => is_refined_block(x, y, l, dtrans, map, dims, store, b),
            (Level::B2(x), Level::B2(y)) => is_refined_block(x, y, l, dtrans, map, dims, store, b),
            (Level::B1(x), Level::B1(y)) => is_refined_block(x, y, l, dtrans, map, dims, store, b),
            _ => false,
        },
{
    let (flagged, measured) = choose|flagged: Level, measured: Level|
        {
            &&& #[trigger] Level::cell_flags_filled(before, flagged, l, map, dims, store, None)
            &&& #[trigger] Level::dist_filled(flagged, measured, dtrans, map, dims, store)
            &&& Level::full_dist_propagated(measured, after, l, dtrans, dims, store)
        };
    match (before, after) {
        (Level::B32(x), Level::B32(y)) => {
            lemma_refined_block(x, flagged->B32_0, measured->B32_0, y, l, dtrans, map, dims, store, b);
        },
        (Level::B16(x), Level::B16(y)) => {
            lemma_refined_block(x, flagged->B16_0, measured->B16_0, y, l, dtrans, map, dims, store, b);
        },
        (Level::B8(x), Level::B8(y)) => {
            lemma_refined_block(x, flagged->B8_0, measured->B8_0, y, l, dtrans, map, dims, store, b);
        },
        (Level::B4(x), Level::B4(y)) => {
            lemma_refined_block(x, flagged->B4_0, measured->B4_0, y, l, dtrans, map, dims, store, b);
        },
        (Level::B2(x), Level::B2(y)) => {
            lemma_refined_block(x, flagged->B2_0, measured->B2_0, y, l, dtrans, map, dims, store, b);
        },
        (Level::B1(x), Level::B1(y)) => {
            lemma_refined_block(x, flagged->B1_0, measured->B1_0, y, l, dtrans, map, dims, store, b);
        },
        _ => {},
    }
}

/// What refining makes of two blocks one step apart: their levels differ by at most one, none is
/// coarser than was asked for, and across a border the finer one is flagged and listed under its
/// level.
pub proof fn law_refined_grid_is_graded(
    before: MultiresGrid,
    after: MultiresGrid,
    given: RefinementMap,
    map: RefinementMap,
    r: &Topology,
    a: int,
    b: int,
)
    requires
        before.wf(),
        given.levels@.len() == before.dims.n_blocks,
        forall|i: int|
            0 <= i < before.dims.n_blocks ==> #[trigger] given.levels@[i] < before.n_levels,
        MultiresGrid::is_refined(before, after, given, map, r),
        before.dims.adjacent(a, b),
    ensures
        -1 <= after.block_info.level0@[a] - after.block_info.level0@[b] <= 1,
        after.block_info.level0@[a] <= given.levels@[a],
        map.levels@ == after.block_info.level0@,
        after.block_info.level0@[a] < after.block_info.level0@[b] ==> {
            &&& after.block_info.flags@[0]@[a].0 & 0x0008 != 0
            &&& after.block_info.flags@[0]@[b].0 & 0x0004 != 0
            &&& r.blocks_fine_coarse@[after.block_info.level0@[a] as int]@.contains(a as usize)
        },
{
    let n = before.n_levels as int;
    crate::multires::refinement::law_regularized_is_graded(given.levels@, before.dims, n, a, b);
    let levels = map.levels@;
    if levels[a] < levels[b] {
        crate::multires::refinement::law_border_flags_both_sides(levels, before.dims, None, a, b);
        let l = levels[a] as int;
        crate::multires::refinement::law_fine_coarse_lists(
            levels,
            after.block_info.flags@[0]@,
            l,
            before.dims.n_blocks as int,
        );
        let list = r.blocks_fine_coarse@[l];
        let ids = crate::multires::refinement::fine_coarse_ids(
            levels,
            after.block_info.flags@[0]@,
            l,
            before.dims.n_blocks as int,
        );
        assert(list@ == ids);
        assert(ids.contains(a as usize));
    }
}

} // verus!
