//! Per-voxel initialization of the blocks of a resolution level: cell flags and the distance to the
//! coarser side of a resolution border.

use crate::channel::{CellFlags, DistFineCoarse};
use crate::multires::blockinfo::{
    BlockFlags, BlockInfoStore, CELL_BLK_BORDER, CELL_COARSE_FINE, CELL_FINE_COARSE, CELL_VOID,
};
use crate::multires::level::LevelData;
use crate::multires::refinement::{BlockGridDims, RefinementMap};
use vstd::prelude::*;

verus! {

/// The voxel lies on a side of its block along this axis.
pub open spec fn at_side(v: int, b: int) -> bool {
    v == 0 || v == b - 1
}

/// The block coordinate that voxel `v` of a block at `k` looks toward: the neighbour's where the voxel
/// lies on a side with a neighbour, else that of its own block.
pub open spec fn toward(v: int, b: int, k: int, n: int) -> int {
    if v == 0 {
        if k > 0 { k - 1 } else { k }
    } else if v == b - 1 && k + 1 < n {
        k + 1
    } else {
        k
    }
}

/// `(qx, qy, qz)` is a block other than `bid` that the voxel looks toward: along an axis, or across an
/// edge or a corner.
pub open spec fn faces(
    dims: BlockGridDims,
    bid: int,
    cx: int,
    cy: int,
    cz: int,
    qx: int,
    qy: int,
    qz: int,
) -> bool {
    &&& qx == dims.x_of(bid) || qx == cx
    &&& qy == dims.y_of(bid) || qy == cy
    &&& qz == dims.z_of(bid) || qz == cz
    &&& dims.id_at(qx, qy, qz) != bid
}

/// A block that the voxel looks toward is coarser than `level`.
pub open spec fn faces_coarser(
    levels: Seq<u8>,
    dims: BlockGridDims,
    level: int,
    bid: int,
    cx: int,
    cy: int,
    cz: int,
) -> bool {
    exists|qx: int, qy: int, qz: int| #[trigger]
        faces(dims, bid, cx, cy, cz, qx, qy, qz) && levels[dims.id_at(qx, qy, qz)] > level
}

/// A block that the voxel looks toward is finer than `level`.
pub open spec fn faces_finer(
    levels: Seq<u8>,
    dims: BlockGridDims,
    level: int,
    bid: int,
    cx: int,
    cy: int,
    cz: int,
) -> bool {
    exists|qx: int, qy: int, qz: int| #[trigger]
        faces(dims, bid, cx, cy, cz, qx, qy, qz) && levels[dims.id_at(qx, qy, qz)] < level
}

/// The flags of voxel `(vx, vy, vz)` of block `bid`, in blocks of edge `b`.
pub open spec fn cell_flags_at(
    levels: Seq<u8>,
    dims: BlockGridDims,
    level: int,
    res_border: bool,
    present: bool,
    bid: int,
    b: int,
    vx: int,
    vy: int,
    vz: int,
) -> u16 {
    let cx = toward(vx, b, dims.x_of(bid), dims.nx as int);
    let cy = toward(vy, b, dims.y_of(bid), dims.ny as int);
    let cz = toward(vz, b, dims.z_of(bid), dims.nz as int);
    let f0 = crate::multires::refinement::with_bit(
        0,
        at_side(vx, b) || at_side(vy, b) || at_side(vz, b),
        CELL_BLK_BORDER,
    );
    let f1 = crate::multires::refinement::with_bit(
        f0,
        res_border && faces_coarser(levels, dims, level, bid, cx, cy, cz),
        CELL_FINE_COARSE,
    );
    let f2 = crate::multires::refinement::with_bit(
        f1,
        res_border && faces_finer(levels, dims, level, bid, cx, cy, cz),
        CELL_COARSE_FINE,
    );
    crate::multires::refinement::with_bit(f2, !present, CELL_VOID)
}

/// The flags of block `bid` say that it sits on a resolution border.
pub open spec fn on_res_border(f: BlockFlags) -> bool {
    f.has(BlockFlags::COARSE_FINE) || f.has(BlockFlags::FINE_COARSE)
}

/// The caller's flags say that block `bid` exists.
pub open spec fn is_present(block_flags: Option<Seq<BlockFlags>>, bid: int) -> bool {
    match block_flags {
        Some(f) => f[bid].has(BlockFlags::EXISTS),
        None => false,
    }
}

/// The caller's flags as a sequence.
pub open spec fn flags_view(block_flags: Option<&Vec<BlockFlags>>) -> Option<Seq<BlockFlags>> {
    match block_flags {
        Some(f) => Some(f@),
        None => None,
    }
}

/// The cell flags of voxel `vid` of block `bid`.
pub open spec fn cell_flags_of(
    map: &RefinementMap,
    dims: BlockGridDims,
    store: &BlockInfoStore,
    block_flags: Option<Seq<BlockFlags>>,
    bid: int,
    b: int,
    vid: int,
) -> CellFlags {
    CellFlags(
        cell_flags_at(
            map.levels@,
            dims,
            store.level0@[bid] as int,
            on_res_border(store.flags@[0]@[bid]),
            is_present(block_flags, bid),
            bid,
            b,
            crate::layout::coord_x(vid, b),
            crate::layout::coord_y(vid, b, b),
            crate::layout::coord_z(vid, b, b),
        ),
    )
}

/// The inputs of the per-voxel passes fit together.
pub open spec fn inputs_ok(map: &RefinementMap, dims: BlockGridDims, store: &BlockInfoStore) -> bool {
    &&& dims.wf()
    &&& map.levels@.len() == dims.n_blocks
    &&& store.level0@.len() == dims.n_blocks
    &&& store.flags@.len() >= 1
    &&& store.flags@[0]@.len() == dims.n_blocks
}

fn toward_side(v: usize, b: usize, k: usize, n: usize) -> (r: usize)
    requires
        v < b,
        k < n,
    ensures
        r == toward(v as int, b as int, k as int, n as int),
        r < n,
{
    if v == 0 {
        if k > 0 {
            k - 1
        } else {
            k
        }
    } else if v == b - 1 && k + 1 < n {
        k + 1
    } else {
        k
    }
}

/// Whether a block that the voxel looks toward is coarser than `level`, and whether one is finer.
fn look_toward(
    levels: &Vec<u8>,
    dims: &BlockGridDims,
    level: u8,
    bid: usize,
    cx: usize,
    cy: usize,
    cz: usize,
) -> (r: (bool, bool))
    requires
        dims.wf(),
        bid < dims.n_blocks,
        levels@.len() == dims.n_blocks,
        dims.has_block(cx as int, cy as int, cz as int),
    ensures
        r.0 == faces_coarser(levels@, *dims, level as int, bid as int, cx as int, cy as int, cz as int),
        r.1 == faces_finer(levels@, *dims, level as int, bid as int, cx as int, cy as int, cz as int),
{
    let (bx, by, bz) = dims.coords(bid);
    let mut coarser: bool = false;
    let mut finer: bool = false;
    let mut i: usize = 0;
    while i < 8
        invariant
            i <= 8,
            dims.wf(),
            bid < dims.n_blocks,
            levels@.len() == dims.n_blocks,
            dims.has_block(cx as int, cy as int, cz as int),
            dims.has_block(bx as int, by as int, bz as int),
            bx == dims.x_of(bid as int),
            by == dims.y_of(bid as int),
            bz == dims.z_of(bid as int),
            coarser == exists|j: int|
                0 <= j < i && #[trigger] levels@[corner_id(*dims, bid as int, cx as int, cy as int, cz as int, j)]
                    > level && corner_id(*dims, bid as int, cx as int, cy as int, cz as int, j) != bid,
            finer == exists|j: int|
                0 <= j < i && #[trigger] levels@[corner_id(*dims, bid as int, cx as int, cy as int, cz as int, j)]
                    < level && corner_id(*dims, bid as int, cx as int, cy as int, cz as int, j) != bid,
        decreases 8 - i,
    {
        let qx: usize = if i % 2 == 0 { bx } else { cx };
        let qy: usize = if (i / 2) % 2 == 0 { by } else { cy };
        let qz: usize = if i / 4 == 0 { bz } else { cz };
        let id: usize = dims.id(qx, qy, qz);
        assert(id == corner_id(*dims, bid as int, cx as int, cy as int, cz as int, i as int));
        if id != bid {
            if levels[id] > level {
                coarser = true;
            }
            if levels[id] < level {
                finer = true;
            }
        }
        i = i + 1;
    }
    proof {
        lemma_corners(levels@, *dims, level as int, bid as int, cx as int, cy as int, cz as int);
    }
    (coarser, finer)
}

/// The id of the block at corner `j` of the box spanned by the block's own coordinates and those
/// that the voxel looks toward.
spec fn corner_id(dims: BlockGridDims, bid: int, cx: int, cy: int, cz: int, j: int) -> int {
    dims.id_at(
        if j % 2 == 0 { dims.x_of(bid) } else { cx },
        if (j / 2) % 2 == 0 { dims.y_of(bid) } else { cy },
        if j / 4 == 0 { dims.z_of(bid) } else { cz },
    )
}

proof fn lemma_corners(
    levels: Seq<u8>,
    dims: BlockGridDims,
    level: int,
    bid: int,
    cx: int,
    cy: int,
    cz: int,
)
    ensures
        faces_coarser(levels, dims, level, bid, cx, cy, cz) == exists|j: int|
            0 <= j < 8 && #[trigger] levels[corner_id(dims, bid, cx, cy, cz, j)] > level && corner_id(dims, bid, cx, cy, cz, j) != bid,
        faces_finer(levels, dims, level, bid, cx, cy, cz) == exists|j: int|
            0 <= j < 8 && #[trigger] levels[corner_id(dims, bid, cx, cy, cz, j)] < level && corner_id(dims, bid, cx, cy, cz, j) != bid,
{
    let x = dims.x_of(bid);
    let y = dims.y_of(bid);
    let z = dims.z_of(bid);
    assert forall|qx: int, qy: int, qz: int| #[trigger]
        faces(dims, bid, cx, cy, cz, qx, qy, qz) implies exists|j: int|
        0 <= j < 8 && #[trigger] corner_id(dims, bid, cx, cy, cz, j) == dims.id_at(qx, qy, qz) by {
        let j = (if qx == x { 0int } else { 1 }) + (if qy == y { 0int } else { 2 }) + (if qz == z { 0int } else { 4 });
        assert(corner_id(dims, bid, cx, cy, cz, j) == dims.id_at(qx, qy, qz));
    }
    assert forall|j: int|
        0 <= j < 8 && #[trigger] corner_id(dims, bid, cx, cy, cz, j) != bid implies exists|
        qx: int,
        qy: int,
        qz: int,
    | #[trigger]
        faces(dims, bid, cx, cy, cz, qx, qy, qz) && dims.id_at(qx, qy, qz) == corner_id(dims, bid, cx, cy, cz, j) by {
        let qx = if j % 2 == 0 { x } else { cx };
        let qy = if (j / 2) % 2 == 0 { y } else { cy };
        let qz = if j / 4 == 0 { z } else { cz };
        assert(faces(dims, bid, cx, cy, cz, qx, qy, qz));
    }
}

/// The cell flags of all voxels of block `bid`.
fn block_cell_flags<const BSX: usize, const N: usize>(
    map: &RefinementMap,
    dims: &BlockGridDims,
    store: &BlockInfoStore,
    block_flags: Option<&Vec<BlockFlags>>,
    bid: usize,
) -> (r: Vec<CellFlags>)
    requires
        crate::blockpool::block_shape(BSX as int, N as int),
        inputs_ok(map, *dims, store),
        bid < dims.n_blocks,
        block_flags matches Some(f) ==> f@.len() == dims.n_blocks,
    ensures
        r@ == Seq::new(
            N as nat,
            |v: int|
                cell_flags_of(
                    map,
                    *dims,
                    store,
                    flags_view(block_flags),
                    bid as int,
                    BSX as int,
                    v,
                ),
        ),
{
    let (bx, by, bz) = dims.coords(bid);
    let level: u8 = store.level0[bid];
    let res_border: bool = store.flags(bid, 0).is_res_border();
    let present: bool = match block_flags {
        Some(f) => f[bid].contains(BlockFlags::EXISTS),
        None => false,
    };
    let mut r: Vec<CellFlags> = Vec::with_capacity(N);
    let mut vid: usize = 0;
    while vid < N
        invariant
            crate::blockpool::block_shape(BSX as int, N as int),
            inputs_ok(map, *dims, store),
            bid < dims.n_blocks,
            bx == dims.x_of(bid as int),
            by == dims.y_of(bid as int),
            bz == dims.z_of(bid as int),
            dims.has_block(bx as int, by as int, bz as int),
            level == store.level0@[bid as int],
            res_border == on_res_border(store.flags@[0]@[bid as int]),
            present == is_present(flags_view(block_flags), bid as int),
            vid <= N,
            r@ == Seq::new(
                vid as nat,
                |v: int|
                    cell_flags_of(
                        map,
                        *dims,
                        store,
                        flags_view(block_flags),
                        bid as int,
                        BSX as int,
                        v,
                    ),
            ),
        decreases N - vid,
    {
        proof {
            let b = BSX as int;
            crate::layout::lemma_coords3(vid as int, b, b, b);
        }
        let vx: usize = vid % BSX;
        let vy: usize = (vid / BSX) % BSX;
        let vz: usize = (vid / BSX) / BSX;
        let mut f: u16 = 0;
        if vx == 0 || vx == BSX - 1 || vy == 0 || vy == BSX - 1 || vz == 0 || vz == BSX - 1 {
            f = f | CELL_BLK_BORDER;
        }
        if res_border {
            let cx: usize = toward_side(vx, BSX, bx, dims.nx);
            let cy: usize = toward_side(vy, BSX, by, dims.ny);
            let cz: usize = toward_side(vz, BSX, bz, dims.nz);
            let (coarser, finer) = look_toward(&map.levels, dims, level, bid, cx, cy, cz);
            if coarser {
                f = f | CELL_FINE_COARSE;
            }
            if finer {
                f = f | CELL_COARSE_FINE;
            }
        }
        if !present {
            f = f | CELL_VOID;
        }
        r.push(CellFlags(f));
        vid = vid + 1;
    }
    r
}

/// The ids of the blocks at `level`, in order.
fn ids_at_level(store: &BlockInfoStore, level: usize) -> (r: Vec<usize>)
    ensures
        forall|i: int|
            0 <= i < r@.len() ==> (#[trigger] r@[i]) < store.level0@.len() && store.level0@[r@[i] as int]
                == level,
        forall|b: int|
            0 <= b < store.level0@.len() && #[trigger] store.level0@[b] == level ==> r@.contains(
                b as usize,
            ),
        r@.no_duplicates(),
{
    let n: usize = store.level0.len();
    let mut r: Vec<usize> = Vec::new();
    let mut b: usize = 0;
    while b < n
        invariant
            n == store.level0@.len(),
            b <= n,
            forall|i: int|
                0 <= i < r@.len() ==> (#[trigger] r@[i]) < b && store.level0@[r@[i] as int] == level,
            forall|a: int|
                0 <= a < b && #[trigger] store.level0@[a] == level ==> r@.contains(a as usize),
            r@.no_duplicates(),
        decreases n - b,
    {
        let ghost before = r@;
        if store.level0[b] as usize == level {
            r.push(b);
            proof {
                assert(r@[r@.len() - 1] == b);
                assert forall|a: int|
                    0 <= a < b + 1 && #[trigger] store.level0@[a] == level implies r@.contains(
                    a as usize,
                ) by {
                    if a < b {
                        let i = choose|i: int| 0 <= i < before.len() && before[i] == a as usize;
                        assert(r@[i] == a as usize);
                    }
                }
            }
        }
        b = b + 1;
    }
    r
}

/// What filling in the cell flags of the blocks at `level` makes of a level: those blocks are
/// materialized and have their flags, their other channels stay as they were, and so do all other
/// blocks.
pub open spec fn cell_flags_filled<const BSX: usize, const N: usize>(
    before: LevelData<BSX, N>,
    after: LevelData<BSX, N>,
    level: int,
    map: &RefinementMap,
    dims: BlockGridDims,
    store: &BlockInfoStore,
    block_flags: Option<Seq<BlockFlags>>,
) -> bool {
    &&& after.wf()
    &&& after.same_shape(&before)
    &&& forall|b: int|
        0 <= b < dims.n_blocks && store.level0@[b] == level ==> #[trigger] after.has(b)
            && cells_filled(before, after, b) && after.record(b).cell_flags@ == Seq::new(
            N as nat,
            |v: int| cell_flags_of(map, dims, store, block_flags, b, BSX as int, v),
        )
    &&& forall|b: int|
        !(0 <= b < dims.n_blocks && store.level0@[b] == level) ==> #[trigger] after.same_block(
            &before,
            b,
        )
}

/// Only the cell flags of block `b` differ: what else it has is as before, or as in a new block.
pub open spec fn cells_filled<const BSX: usize, const N: usize>(
    before: LevelData<BSX, N>,
    after: LevelData<BSX, N>,
    b: int,
) -> bool {
    if before.has(b) {
        &&& after.record(b).dist_fine_coarse@ == before.record(b).dist_fine_coarse@
        &&& after.record(b).density == before.record(b).density
        &&& after.record(b).faces == before.record(b).faces
    } else {
        &&& after.record(b).dist_fine_coarse@ == Seq::new(N as nat, |v: int| DistFineCoarse(0))
        &&& after.record(b).density is None
        &&& after.record(b).faces is None
    }
}

/// Initializes the cell flags of every block at `level`: block border, fine-coarse and coarse-fine
/// transitions, and void where the block is not said to exist.
pub fn init_cell_flags<const BSX: usize, const N: usize>(
    lv: &mut LevelData<BSX, N>,
    level: usize,
    map: &RefinementMap,
    dims: &BlockGridDims,
    store: &BlockInfoStore,
    block_flags: Option<&Vec<BlockFlags>>,
)
    requires
        crate::blockpool::block_shape(BSX as int, N as int),
        inputs_ok(map, *dims, store),
        old(lv).wf(),
        old(lv).n_blocks == dims.n_blocks,
        block_flags matches Some(f) ==> f@.len() == dims.n_blocks,
    ensures
        cell_flags_filled(
            *old(lv),
            *final(lv),
            level as int,
            map,
            *dims,
            store,
            flags_view(block_flags),
        ),
{
    let bids: Vec<usize> = ids_at_level(store, level);
    let bids_ref: &Vec<usize> = &bids;
    let fill = |i: usize| -> (r: Vec<CellFlags>)
        requires
            crate::blockpool::block_shape(BSX as int, N as int),
            inputs_ok(map, *dims, store),
            i < bids_ref@.len(),
            bids_ref@[i as int] < dims.n_blocks,
            block_flags matches Some(f) ==> f@.len() == dims.n_blocks,
        ensures
            r@ == Seq::new(
                N as nat,
                |v: int|
                    cell_flags_of(
                        map,
                        *dims,
                        store,
                        flags_view(block_flags),
                        bids_ref@[i as int] as int,
                        BSX as int,
                        v,
                    ),
            ),
    { block_cell_flags::<BSX, N>(map, dims, store, block_flags, bids_ref[i]) };
    let mut cells: Vec<Vec<CellFlags>> = crate::par::map_index(bids.len(), fill);
    let ghost all = cells@;
    let ghost bf = flags_view(block_flags);
    proof {
        assert forall|i: int| 0 <= i < bids@.len() implies (#[trigger] all[i])@ == Seq::new(
            N as nat,
            |v: int| cell_flags_of(map, *dims, store, bf, bids@[i] as int, BSX as int, v),
        ) by {
            assert(all[(i as usize) as int] == all[i]);
        }
    }
    let mut i: usize = bids.len();
    while i > 0
        invariant
            i <= bids@.len(),
            cells@ == all.take(i as int),
            all.len() == bids@.len(),
            bids@.no_duplicates(),
            store.level0@.len() == dims.n_blocks,
            old(lv).n_blocks == dims.n_blocks,
            forall|k: int|
                0 <= k < bids@.len() ==> (#[trigger] bids@[k]) < store.level0@.len()
                    && store.level0@[bids@[k] as int] == level,
            forall|k: int|
                0 <= k < bids@.len() ==> (#[trigger] all[k])@ == Seq::new(
                    N as nat,
                    |v: int| cell_flags_of(map, *dims, store, bf, bids@[k] as int, BSX as int, v),
                ),
            lv.wf(),
            lv.same_shape(old(lv)),
            forall|k: int|
                i <= k < bids@.len() ==> lv.has(#[trigger] bids@[k] as int) && cells_filled(
                    *old(lv),
                    *lv,
                    bids@[k] as int,
                ) && lv.record(bids@[k] as int).cell_flags@ == all[k]@,
            forall|b: int|
                (forall|k: int| i <= k < bids@.len() ==> #[trigger] bids@[k] != b)
                    ==> #[trigger] lv.same_block(old(lv), b),
        decreases i,
    {
        i = i - 1;
        let ghost prior = *lv;
        let bid: usize = bids[i];
        assert(prior.same_block(old(lv), bid as int));
        lv.ensure_block(bid);
        let ghost mid = *lv;
        assert(all[i as int] == cells@[i as int]);
        match cells.pop() {
            Some(c) => {
                lv.set_cell_flags(bid, c);
            },
            None => {
                assert(false);
            },
        }
        proof {
            assert(cells@ =~= all.take(i as int));
            assert forall|b: int|
                (forall|k: int| i <= k < bids@.len() ==> #[trigger] bids@[k] != b) implies #[trigger] lv.same_block(
                old(lv),
                b,
            ) by {
                assert(bids@[i as int] != b);
                assert(lv.same_block(&mid, b));
                assert(mid.same_block(&prior, b));
                assert(prior.same_block(old(lv), b));
            }
            assert forall|k: int| i <= k < bids@.len() implies lv.has(#[trigger] bids@[k] as int)
                && cells_filled(*old(lv), *lv, bids@[k] as int) && lv.record(
                bids@[k] as int,
            ).cell_flags@ == all[k]@ by {
                if k > i {
                    assert(lv.same_block(&mid, bids@[k] as int));
                    assert(mid.same_block(&prior, bids@[k] as int));
                }
            }
        }
    }
    proof {
        assert forall|b: int| 0 <= b < dims.n_blocks && store.level0@[b] == level implies #[trigger] lv.has(
            b,
        ) && cells_filled(*old(lv), *lv, b) && lv.record(b).cell_flags@ == Seq::new(
            N as nat,
            |v: int| cell_flags_of(map, *dims, store, bf, b, BSX as int, v),
        ) by {
            let k = choose|k: int| 0 <= k < bids@.len() && bids@[k] == b as usize;
            assert(bids@[k] as int == b);
            assert(all[k]@ == lv.record(b).cell_flags@);
        }
    }
}

/// The gap, in half voxels, between the centre of voxel `p` and the extent of block `k`.
pub open spec fn half_gap(p: int, k: int, b: int) -> int {
    let c = 2 * p + 1;
    if c < 2 * (b * k) {
        2 * (b * k) - c
    } else if c > 2 * (b * (k + 1)) {
        c - 2 * (b * (k + 1))
    } else {
        0
    }
}

/// The squared distance, in half voxels, from the centre of voxel `vid` of block `bid` to block `c`.
pub open spec fn box_dist2(dims: BlockGridDims, b: int, bid: int, vid: int, c: int) -> int {
    let gx = half_gap(b * dims.x_of(bid) + crate::layout::coord_x(vid, b), dims.x_of(c), b);
    let gy = half_gap(b * dims.y_of(bid) + crate::layout::coord_y(vid, b, b), dims.y_of(c), b);
    let gz = half_gap(b * dims.z_of(bid) + crate::layout::coord_z(vid, b, b), dims.z_of(c), b);
    gx * gx + gy * gy + gz * gz
}

/// `c` is a neighbour of `bid` that is coarser than `level`.
pub open spec fn coarser_neighbor(
    levels: Seq<u8>,
    dims: BlockGridDims,
    level: int,
    bid: int,
    c: int,
) -> bool {
    dims.adjacent(bid, c) && levels[c] > level
}

/// `q` is the distance of the voxel to the nearest coarser neighbour, in 1024ths of a voxel, rounded
/// down and capped at `dtrans` voxels: the largest number up to the cap whose square is at most the
/// squared distance to every coarser neighbour. (A half voxel is 512 such units.)
pub open spec fn is_quantized_dist(
    levels: Seq<u8>,
    dims: BlockGridDims,
    level: int,
    dtrans: int,
    b: int,
    bid: int,
    vid: int,
    q: int,
) -> bool {
    &&& 0 <= q <= 1024 * dtrans
    &&& forall|c: int| #[trigger]
        coarser_neighbor(levels, dims, level, bid, c) ==> q * q <= 0x40000 * box_dist2(
            dims,
            b,
            bid,
            vid,
            c,
        )
    &&& q == 1024 * dtrans || exists|c: int| #[trigger]
        coarser_neighbor(levels, dims, level, bid, c) && (q + 1) * (q + 1) > 0x40000 * box_dist2(
            dims,
            b,
            bid,
            vid,
            c,
        )
}

/// The largest number up to `cap` whose square is at most `limit`.
fn capped_sqrt(limit: u128, cap: u16) -> (r: u16)
    ensures
        r <= cap,
        r * r <= limit,
        r == cap || (r + 1) * (r + 1) > limit,
{
    let mut lo: u16 = 0;
    let mut hi: u16 = cap;
    while lo < hi
        invariant
            lo <= hi <= cap,
            lo * lo <= limit,
            hi == cap || (hi + 1) * (hi + 1) > limit,
        decreases hi - lo,
    {
        let mid: u16 = hi - (hi - lo) / 2;
        proof {
            assert(mid * mid <= 0xffff * 0xffff) by (nonlinear_arith)
                requires
                    mid <= 0xffff,
            ;
        }
        let square: u128 = (mid as u128) * (mid as u128);
        if square <= limit {
            lo = mid;
        } else {
            hi = mid - 1;
        }
    }
    lo
}

/// The gap, in half voxels, between the centre of voxel `v` of a block and the extent of the block at
/// coordinate `k2`, next to the voxel's own block at `k` or the same.
fn gap_to(v: usize, b: usize, k: usize, k2: usize) -> (r: u128)
    requires
        v < b,
        -1 <= k2 - k <= 1,
    ensures
        r == half_gap(b * k + v, k2 as int, b as int),
        r <= 2 * b,
{
    proof {
        let (b, k) = (b as int, k as int);
        assert(b * (k + 1) == b * k + b && b * (k - 1) == b * k - b && b * (k + 2) == b * k + 2 * b)
            by (nonlinear_arith);
    }
    if k2 < k {
        2 * (v as u128) + 1
    } else if k2 > k {
        2 * ((b - v) as u128) - 1
    } else {
        0
    }
}

/// The quantized distances of all voxels of block `bid` to its coarser neighbours.
fn block_dist<const BSX: usize, const N: usize>(
    dtrans_res: usize,
    map: &RefinementMap,
    dims: &BlockGridDims,
    store: &BlockInfoStore,
    bid: usize,
) -> (r: Vec<DistFineCoarse>)
    requires
        crate::blockpool::block_shape(BSX as int, N as int),
        inputs_ok(map, *dims, store),
        bid < dims.n_blocks,
        dtrans_res <= 63,
    ensures
        r@.len() == N,
        forall|v: int|
            0 <= v < N ==> is_quantized_dist(
                map.levels@,
                *dims,
                store.level0@[bid as int] as int,
                dtrans_res as int,
                BSX as int,
                bid as int,
                v,
                (#[trigger] r@[v]).0 as int,
            ),
{
    let level: u8 = store.level0[bid];
    let (bx, by, bz) = dims.coords(bid);
    let boxes: Vec<usize> = coarser_neighbors(&map.levels, dims, level, bid);
    let cap: u16 = (dtrans_res * 1024) as u16;
    let mut r: Vec<DistFineCoarse> = Vec::with_capacity(N);
    let mut vid: usize = 0;
    while vid < N
        invariant
            crate::blockpool::block_shape(BSX as int, N as int),
            inputs_ok(map, *dims, store),
            bid < dims.n_blocks,
            cap == dtrans_res * 1024,
            bx == dims.x_of(bid as int),
            by == dims.y_of(bid as int),
            bz == dims.z_of(bid as int),
            dims.has_block(bx as int, by as int, bz as int),
            level == store.level0@[bid as int],
            forall|i: int|
                0 <= i < boxes@.len() ==> coarser_neighbor(
                    map.levels@,
                    *dims,
                    level as int,
                    bid as int,
                    #[trigger] boxes@[i] as int,
                ),
            forall|c: int| #[trigger]
                coarser_neighbor(map.levels@, *dims, level as int, bid as int, c)
                    ==> boxes@.contains(c as usize),
            vid <= N,
            r@.len() == vid,
            forall|v: int|
                0 <= v < vid ==> is_quantized_dist(
                    map.levels@,
                    *dims,
                    level as int,
                    dtrans_res as int,
                    BSX as int,
                    bid as int,
                    v,
                    (#[trigger] r@[v]).0 as int,
                ),
        decreases N - vid,
    {
        let ghost b = BSX as int;
        proof {
            crate::layout::lemma_coords3(vid as int, b, b, b);
        }
        let vx: usize = vid % BSX;
        let vy: usize = (vid / BSX) % BSX;
        let vz: usize = (vid / BSX) / BSX;
        let mut q: u16 = cap;
        let mut i: usize = 0;
        while i < boxes.len()
            invariant
                crate::blockpool::block_shape(BSX as int, N as int),
                b == BSX,
                vid < N,
                dims.wf(),
                bid < dims.n_blocks,
                cap == dtrans_res * 1024,
                bx == dims.x_of(bid as int),
                by == dims.y_of(bid as int),
                bz == dims.z_of(bid as int),
                dims.has_block(bx as int, by as int, bz as int),
                vx == crate::layout::coord_x(vid as int, b),
                vy == crate::layout::coord_y(vid as int, b, b),
                vz == crate::layout::coord_z(vid as int, b, b),
                vx < BSX,
                vy < BSX,
                vz < BSX,
                forall|k: int|
                    0 <= k < boxes@.len() ==> coarser_neighbor(
                        map.levels@,
                        *dims,
                        level as int,
                        bid as int,
                        #[trigger] boxes@[k] as int,
                    ),
                i <= boxes@.len(),
                q <= cap,
                forall|k: int|
                    0 <= k < i ==> q * q <= 0x40000 * box_dist2(
                        *dims,
                        b,
                        bid as int,
                        vid as int,
                        #[trigger] boxes@[k] as int,
                    ),
                q == cap || exists|k: int|
                    0 <= k < i && (q + 1) * (q + 1) > 0x40000 * box_dist2(
                        *dims,
                        b,
                        bid as int,
                        vid as int,
                        #[trigger] boxes@[k] as int,
                    ),
            decreases boxes@.len() - i,
        {
            assert(coarser_neighbor(
                map.levels@,
                *dims,
                level as int,
                bid as int,
                boxes@[i as int] as int,
            ));
            let (bx2, by2, bz2) = dims.coords(boxes[i]);
            let gx: u128 = gap_to(vx, BSX, bx, bx2);
            let gy: u128 = gap_to(vy, BSX, by, by2);
            let gz: u128 = gap_to(vz, BSX, bz, bz2);
            proof {
                lemma_small_square(gx as int);
                lemma_small_square(gy as int);
                lemma_small_square(gz as int);
                lemma_edge_bound(b);
            }
            let d2: u128 = gx * gx + gy * gy + gz * gz;
            assert(d2 == box_dist2(*dims, b, bid as int, vid as int, boxes@[i as int] as int));
            let before: u16 = q;
            q = capped_sqrt(0x40000 * d2, before);
            proof {
                assert(q * q <= before * before) by (nonlinear_arith)
                    requires
                        q <= before,
                ;
                if q == before && before != cap {
                    let k = choose|k: int|
                        0 <= k < i && (before + 1) * (before + 1) > 0x40000 * box_dist2(
                            *dims,
                            b,
                            bid as int,
                            vid as int,
                            #[trigger] boxes@[k] as int,
                        );
                    assert(boxes@[k] == boxes@[k]);
                } else if q != before {
                    assert(boxes@[i as int] == boxes@[i as int]);
                }
            }
            i = i + 1;
        }
        proof {
            assert forall|c: int| #[trigger]
                coarser_neighbor(map.levels@, *dims, level as int, bid as int, c) implies q * q
                <= 0x40000 * box_dist2(*dims, b, bid as int, vid as int, c) by {
                let k = choose|k: int| 0 <= k < boxes@.len() && boxes@[k] == c as usize;
                assert(boxes@[k] as int == c);
            }
            if q != cap {
                let k = choose|k: int|
                    0 <= k < boxes@.len() && (q + 1) * (q + 1) > 0x40000 * box_dist2(
                        *dims,
                        b,
                        bid as int,
                        vid as int,
                        #[trigger] boxes@[k] as int,
                    );
                assert(coarser_neighbor(
                    map.levels@,
                    *dims,
                    level as int,
                    bid as int,
                    boxes@[k] as int,
                ));
            }
        }
        r.push(DistFineCoarse(q));
        vid = vid + 1;
    }
    r
}

proof fn lemma_small_square(g: int)
    ensures
        0 <= g <= 0x2_0000_0000_0000 ==> 0 <= g * g <= 0x4_0000_0000_0000_0000_0000_0000,
{
    assert(0 <= g <= 0x2_0000_0000_0000 ==> 0 <= g * g <= 0x4_0000_0000_0000_0000_0000_0000)
        by (nonlinear_arith);
}

/// A block whose voxels can be numbered has an edge below 2^48.
proof fn lemma_edge_bound(b: int)
    requires
        0 < b,
        b * b * b <= usize::MAX,
    ensures
        2 * b <= 0x2_0000_0000_0000,
{
    if b >= 0x1_0000_0000_0000 {
        assert(b * b >= 0x1_0000_0000_0000 * 0x1_0000_0000_0000) by (nonlinear_arith)
            requires
                b >= 0x1_0000_0000_0000,
        ;
        assert(b * b * b >= b * b) by (nonlinear_arith)
            requires
                b >= 1,
        ;
    }
}

/// The neighbours of `bid` that are coarser than `level`.
fn coarser_neighbors(levels: &Vec<u8>, dims: &BlockGridDims, level: u8, bid: usize) -> (r: Vec<usize>)
    requires
        dims.wf(),
        bid < dims.n_blocks,
        levels@.len() == dims.n_blocks,
    ensures
        forall|i: int|
            0 <= i < r@.len() ==> coarser_neighbor(
                levels@,
                *dims,
                level as int,
                bid as int,
                #[trigger] r@[i] as int,
            ),
        forall|c: int| #[trigger]
            coarser_neighbor(levels@, *dims, level as int, bid as int, c) ==> r@.contains(c as usize),
{
    let ids: Vec<usize> = dims.neighbors(bid);
    let mut r: Vec<usize> = Vec::with_capacity(26);
    let mut i: usize = 0;
    while i < ids.len()
        invariant
            levels@.len() == dims.n_blocks,
            i <= ids@.len(),
            forall|k: int|
                0 <= k < ids@.len() ==> dims.adjacent(bid as int, #[trigger] ids@[k] as int),
            forall|k: int|
                0 <= k < r@.len() ==> coarser_neighbor(
                    levels@,
                    *dims,
                    level as int,
                    bid as int,
                    #[trigger] r@[k] as int,
                ),
            forall|k: int|
                0 <= k < i && levels@[#[trigger] ids@[k] as int] > level ==> r@.contains(ids@[k]),
        decreases ids@.len() - i,
    {
        assert(dims.adjacent(bid as int, ids@[i as int] as int));
        let ghost before = r@;
        if levels[ids[i]] > level {
            r.push(ids[i]);
            proof {
                assert(r@[r@.len() - 1] == ids@[i as int]);
                assert forall|k: int|
                    0 <= k < i + 1 && levels@[#[trigger] ids@[k] as int] > level implies r@.contains(
                    ids@[k],
                ) by {
                    if k < i {
                        let j = choose|j: int| 0 <= j < before.len() && before[j] == ids@[k];
                        assert(r@[j] == ids@[k]);
                    }
                }
            }
        }
        i = i + 1;
    }
    proof {
        assert forall|c: int| #[trigger]
            coarser_neighbor(levels@, *dims, level as int, bid as int, c) implies r@.contains(
            c as usize,
        ) by {
            assert(dims.adjacent(bid as int, c));
            let k = choose|k: int| 0 <= k < ids@.len() && ids@[k] == c as usize;
            assert(levels@[ids@[k] as int] > level);
        }
    }
    r
}

/// The ids of the blocks with the fine-coarse flag, in order.
fn fine_coarse_blocks(store: &BlockInfoStore, n: usize) -> (r: Vec<usize>)
    requires
        store.flags@.len() >= 1,
        store.flags@[0]@.len() == n,
    ensures
        forall|i: int|
            0 <= i < r@.len() ==> (#[trigger] r@[i]) < n && store.flags@[0]@[r@[i] as int].has(
                BlockFlags::FINE_COARSE,
            ),
        forall|b: int|
            0 <= b < n && (#[trigger] store.flags@[0]@[b]).has(BlockFlags::FINE_COARSE)
                ==> r@.contains(b as usize),
        r@.no_duplicates(),
{
    let mut r: Vec<usize> = Vec::new();
    let mut b: usize = 0;
    while b < n
        invariant
            store.flags@.len() >= 1,
            store.flags@[0]@.len() == n,
            b <= n,
            forall|i: int|
                0 <= i < r@.len() ==> (#[trigger] r@[i]) < b && store.flags@[0]@[r@[i] as int].has(
                    BlockFlags::FINE_COARSE,
                ),
            forall|a: int|
                0 <= a < b && (#[trigger] store.flags@[0]@[a]).has(BlockFlags::FINE_COARSE)
                    ==> r@.contains(a as usize),
            r@.no_duplicates(),
        decreases n - b,
    {
        let ghost before = r@;
        if store.flags(b, 0).contains(BlockFlags::FINE_COARSE) {
            r.push(b);
            proof {
                assert(r@[r@.len() - 1] == b);
                assert forall|a: int|
                    0 <= a < b + 1 && (#[trigger] store.flags@[0]@[a]).has(
                        BlockFlags::FINE_COARSE,
                    ) implies r@.contains(a as usize) by {
                    if a < b {
                        let i = choose|i: int| 0 <= i < before.len() && before[i] == a as usize;
                        assert(r@[i] == a as usize);
                    }
                }
            }
        }
        b = b + 1;
    }
    r
}

/// Only the distances of block `b` differ: what else it has is as before, or as in a new block.
pub open spec fn only_dist_differs<const BSX: usize, const N: usize>(
    before: LevelData<BSX, N>,
    after: LevelData<BSX, N>,
    b: int,
) -> bool {
    if before.has(b) {
        &&& after.record(b).cell_flags@ == before.record(b).cell_flags@
        &&& after.record(b).density == before.record(b).density
        &&& after.record(b).faces == before.record(b).faces
    } else {
        &&& after.record(b).cell_flags@ == Seq::new(
            N as nat,
            |v: int| CellFlags(crate::multires::blockinfo::CELL_EMPTY_VAL),
        )
        &&& after.record(b).density is None
        &&& after.record(b).faces is None
    }
}

/// The distances of block `b` are the quantized distances of its voxels.
pub open spec fn has_quantized_dist<const BSX: usize, const N: usize>(
    lv: LevelData<BSX, N>,
    dtrans: int,
    map: &RefinementMap,
    dims: BlockGridDims,
    store: &BlockInfoStore,
    b: int,
) -> bool {
    &&& lv.record(b).dist_fine_coarse@.len() == N
    &&& forall|v: int|
        0 <= v < N ==> is_quantized_dist(
            map.levels@,
            dims,
            store.level0@[b] as int,
            dtrans,
            BSX as int,
            b,
            v,
            (#[trigger] lv.record(b).dist_fine_coarse@[v]).0 as int,
        )
}

/// What filling in the distances makes of a level: each block with the fine-coarse flag is
/// materialized and has its distances, its other channels stay as they were, and so do all other
/// blocks.
pub open spec fn dist_filled<const BSX: usize, const N: usize>(
    before: LevelData<BSX, N>,
    after: LevelData<BSX, N>,
    dtrans: int,
    map: &RefinementMap,
    dims: BlockGridDims,
    store: &BlockInfoStore,
) -> bool {
    &&& after.wf()
    &&& after.same_shape(&before)
    &&& forall|b: int|
        0 <= b < dims.n_blocks && store.flags@[0]@[b].has(BlockFlags::FINE_COARSE)
            ==> #[trigger] after.has(b) && only_dist_differs(before, after, b)
            && has_quantized_dist(after, dtrans, map, dims, store, b)
    &&& forall|b: int|
        !(0 <= b < dims.n_blocks && store.flags@[0]@[b].has(BlockFlags::FINE_COARSE))
            ==> #[trigger] after.same_block(&before, b)
}

/// Fills in, for each block with the fine-coarse flag, the distance of every voxel to the nearest
/// coarser neighbour block: in 1024ths of a voxel, capped at `dtrans_res` voxels.
pub fn init_dist_fine_coarse<const BSX: usize, const N: usize>(
    lv: &mut LevelData<BSX, N>,
    dtrans_res: usize,
    map: &RefinementMap,
    dims: &BlockGridDims,
    store: &BlockInfoStore,
)
    requires
        crate::blockpool::block_shape(BSX as int, N as int),
        inputs_ok(map, *dims, store),
        old(lv).wf(),
        old(lv).n_blocks == dims.n_blocks,
        dtrans_res <= 63,
    ensures
        dist_filled(*old(lv), *final(lv), dtrans_res as int, map, *dims, store),
{
    let bids: Vec<usize> = fine_coarse_blocks(store, dims.n_blocks);
    let bids_ref: &Vec<usize> = &bids;
    let fill = |i: usize| -> (r: Vec<DistFineCoarse>)
        requires
            crate::blockpool::block_shape(BSX as int, N as int),
            inputs_ok(map, *dims, store),
            i < bids_ref@.len(),
            bids_ref@[i as int] < dims.n_blocks,
            dtrans_res <= 63,
        ensures
            r@.len() == N,
            forall|v: int|
                0 <= v < N ==> is_quantized_dist(
                    map.levels@,
                    *dims,
                    store.level0@[bids_ref@[i as int] as int] as int,
                    dtrans_res as int,
                    BSX as int,
                    bids_ref@[i as int] as int,
                    v,
                    (#[trigger] r@[v]).0 as int,
                ),
    { block_dist::<BSX, N>(dtrans_res, map, dims, store, bids_ref[i]) };
    let mut dists: Vec<Vec<DistFineCoarse>> = crate::par::map_index(bids.len(), fill);
    let ghost all = dists@;
    proof {
        assert forall|i: int| 0 <= i < bids@.len() implies (#[trigger] all[i])@.len() == N
            && forall|v: int|
            0 <= v < N ==> is_quantized_dist(
                map.levels@,
                *dims,
                store.level0@[bids@[i] as int] as int,
                dtrans_res as int,
                BSX as int,
                bids@[i] as int,
                v,
                (#[trigger] all[i]@[v]).0 as int,
            ) by {
            assert(all[(i as usize) as int] == all[i]);
        }
    }
    let mut i: usize = bids.len();
    while i > 0
        invariant
            i <= bids@.len(),
            dists@ == all.take(i as int),
            all.len() == bids@.len(),
            bids@.no_duplicates(),
            old(lv).n_blocks == dims.n_blocks,
            forall|k: int| 0 <= k < bids@.len() ==> (#[trigger] bids@[k]) < dims.n_blocks,
            forall|k: int| 0 <= k < bids@.len() ==> (#[trigger] all[k])@.len() == N,
            lv.wf(),
            lv.same_shape(old(lv)),
            forall|k: int|
                i <= k < bids@.len() ==> lv.has(#[trigger] bids@[k] as int) && only_dist_differs(
                    *old(lv),
                    *lv,
                    bids@[k] as int,
                ) && lv.record(bids@[k] as int).dist_fine_coarse@ == all[k]@,
            forall|b: int|
                (forall|k: int| i <= k < bids@.len() ==> #[trigger] bids@[k] != b)
                    ==> #[trigger] lv.same_block(old(lv), b),
        decreases i,
    {
        i = i - 1;
        let ghost prior = *lv;
        let bid: usize = bids[i];
        assert(prior.same_block(old(lv), bid as int));
        lv.ensure_block(bid);
        let ghost mid = *lv;
        assert(all[i as int] == dists@[i as int]);
        match dists.pop() {
            Some(d) => {
                lv.set_dist_fine_coarse(bid, d);
            },
            None => {
                assert(false);
            },
        }
        proof {
            assert(dists@ =~= all.take(i as int));
            assert forall|b: int|
                (forall|k: int| i <= k < bids@.len() ==> #[trigger] bids@[k] != b) implies #[trigger] lv.same_block(
                old(lv),
                b,
            ) by {
                assert(bids@[i as int] != b);
                assert(lv.same_block(&mid, b));
                assert(mid.same_block(&prior, b));
                assert(prior.same_block(old(lv), b));
            }
            assert forall|k: int| i <= k < bids@.len() implies lv.has(#[trigger] bids@[k] as int)
                && only_dist_differs(*old(lv), *lv, bids@[k] as int) && lv.record(
                bids@[k] as int,
            ).dist_fine_coarse@ == all[k]@ by {
                if k > i {
                    assert(lv.same_block(&mid, bids@[k] as int));
                    assert(mid.same_block(&prior, bids@[k] as int));
                }
            }
        }
    }
    proof {
        assert forall|b: int|
            0 <= b < dims.n_blocks && store.flags@[0]@[b].has(
                BlockFlags::FINE_COARSE,
            ) implies #[trigger] lv.has(b) && only_dist_differs(*old(lv), *lv, b)
            && has_quantized_dist(*lv, dtrans_res as int, map, *dims, store, b) by {
            let k = choose|k: int| 0 <= k < bids@.len() && bids@[k] == b as usize;
            assert(bids@[k] as int == b);
            assert(all[k]@ == lv.record(b).dist_fine_coarse@);
        }
    }
}

/// Block `b` next to the interface on `level`: at that level or the one above it in resolution, not
/// materialized, and a neighbour of a block on `level` with the fine-coarse flag.
pub open spec fn beside_interface<const BSX: usize, const N: usize>(
    lv: LevelData<BSX, N>,
    level: int,
    dims: BlockGridDims,
    store: &BlockInfoStore,
    b: int,
) -> bool {
    &&& 0 <= b < dims.n_blocks
    &&& store.level0@[b] <= level <= store.level0@[b] + 1
    &&& !lv.has(b)
    &&& exists|c: int| #[trigger]
        dims.adjacent(b, c) && store.level0@[c] == level && store.flags@[0]@[c].has(
            BlockFlags::FINE_COARSE,
        )
}

/// What the second distance pass makes of a level: the blocks beside the interface are materialized
/// with the full distance everywhere, and all other blocks stay as they were.
pub open spec fn full_dist_propagated<const BSX: usize, const N: usize>(
    before: LevelData<BSX, N>,
    after: LevelData<BSX, N>,
    level: int,
    dtrans: int,
    dims: BlockGridDims,
    store: &BlockInfoStore,
) -> bool {
    &&& after.wf()
    &&& after.same_shape(&before)
    &&& forall|b: int|
        beside_interface(before, level, dims, store, b) ==> #[trigger] after.has(b)
            && only_dist_differs(before, after, b) && after.record(b).dist_fine_coarse@ == Seq::new(
            N as nat,
            |v: int| DistFineCoarse((1024 * dtrans) as u16),
        )
    &&& forall|b: int|
        !beside_interface(before, level, dims, store, b) ==> #[trigger] after.same_block(&before, b)
}

fn is_beside_interface<const BSX: usize, const N: usize>(
    lv: &LevelData<BSX, N>,
    level: usize,
    dims: &BlockGridDims,
    store: &BlockInfoStore,
    bid: usize,
) -> (r: bool)
    requires
        dims.wf(),
        lv.wf(),
        lv.n_blocks == dims.n_blocks,
        store.level0@.len() == dims.n_blocks,
        store.flags@.len() >= 1,
        store.flags@[0]@.len() == dims.n_blocks,
        bid < dims.n_blocks,
    ensures
        r == beside_interface(*lv, level as int, *dims, store, bid as int),
{
    let lvl: usize = store.level0[bid] as usize;
    if lvl > level || lvl + 1 < level {
        return false;
    }
    if lv.is_value_block(bid) {
        return false;
    }
    let ids: Vec<usize> = dims.neighbors(bid);
    let mut i: usize = 0;
    while i < ids.len()
        invariant
            i <= ids@.len(),
            store.level0@.len() == dims.n_blocks,
            store.flags@.len() >= 1,
            store.flags@[0]@.len() == dims.n_blocks,
            forall|k: int|
                0 <= k < ids@.len() ==> dims.adjacent(bid as int, #[trigger] ids@[k] as int),
            forall|k: int|
                0 <= k < i ==> !(store.level0@[#[trigger] ids@[k] as int] == level
                    && store.flags@[0]@[ids@[k] as int].has(BlockFlags::FINE_COARSE)),
            lvl == store.level0@[bid as int],
            lvl <= level <= lvl + 1,
            !lv.has(bid as int),
            bid < dims.n_blocks,
        decreases ids@.len() - i,
    {
        assert(dims.adjacent(bid as int, ids@[i as int] as int));
        let id: usize = ids[i];
        if store.level0[id] as usize == level && store.flags(id, 0).contains(
            BlockFlags::FINE_COARSE,
        ) {
            return true;
        }
        i = i + 1;
    }
    proof {
        assert forall|c: int| #[trigger] dims.adjacent(bid as int, c) implies !(store.level0@[c] == level
            && store.flags@[0]@[c].has(BlockFlags::FINE_COARSE)) by {
            let k = choose|k: int| 0 <= k < ids@.len() && ids@[k] == c as usize;
            assert(ids@[k] as int == c);
        }
    }
    false
}

/// Second distance pass: the blocks beside the interface get the full distance, so that
/// interpolation across it is defined there too.
pub fn propagate_dist_fine_coarse_full<const BSX: usize, const N: usize>(
    lv: &mut LevelData<BSX, N>,
    level: usize,
    dtrans_res: usize,
    dims: &BlockGridDims,
    store: &BlockInfoStore,
)
    requires
        dims.wf(),
        old(lv).wf(),
        old(lv).n_blocks == dims.n_blocks,
        store.level0@.len() == dims.n_blocks,
        store.flags@.len() >= 1,
        store.flags@[0]@.len() == dims.n_blocks,
        dtrans_res <= 63,
    ensures
        full_dist_propagated(
            *old(lv),
            *final(lv),
            level as int,
            dtrans_res as int,
            *dims,
            store,
        ),
{
    let full: u16 = (dtrans_res * 1024) as u16;
    let view: &LevelData<BSX, N> = &*lv;
    let test = |bid: usize| -> (r: bool)
        requires
            dims.wf(),
            view.wf(),
            view.n_blocks == dims.n_blocks,
            store.level0@.len() == dims.n_blocks,
            store.flags@.len() >= 1,
            store.flags@[0]@.len() == dims.n_blocks,
            bid < dims.n_blocks,
        ensures
            r == beside_interface(*view, level as int, *dims, store, bid as int),
    { is_beside_interface(view, level, dims, store, bid) };
    let marks: Vec<bool> = crate::par::map_index(dims.n_blocks, test);
    proof {
        assert forall|b: int| 0 <= b < dims.n_blocks implies #[trigger] marks@[b]
            == beside_interface(*old(lv), level as int, *dims, store, b) by {
            assert(marks@[(b as usize) as int] == marks@[b]);
        }
    }
    let mut bid: usize = 0;
    while bid < dims.n_blocks
        invariant
            bid <= dims.n_blocks,
            full == 1024 * dtrans_res,
            lv.wf(),
            lv.same_shape(old(lv)),
            old(lv).n_blocks == dims.n_blocks,
            marks@.len() == dims.n_blocks,
            forall|b: int|
                0 <= b < dims.n_blocks ==> #[trigger] marks@[b] == beside_interface(
                    *old(lv),
                    level as int,
                    *dims,
                    store,
                    b,
                ),
            forall|b: int|
                0 <= b < bid && marks@[b] ==> #[trigger] lv.has(b) && only_dist_differs(
                    *old(lv),
                    *lv,
                    b,
                ) && lv.record(b).dist_fine_coarse@ == Seq::new(
                    N as nat,
                    |v: int| DistFineCoarse(full),
                ),
            forall|b: int|
                !(0 <= b < bid && marks@[b]) ==> #[trigger] lv.same_block(old(lv), b),
        decreases dims.n_blocks - bid,
    {
        let ghost prior = *lv;
        if marks[bid] {
            assert(prior.same_block(old(lv), bid as int));
            lv.ensure_block(bid);
            let ghost mid = *lv;
            lv.set_dist_fine_coarse(bid, crate::arith::filled(N, DistFineCoarse(full)));
            proof {
                assert forall|b: int| b != bid implies #[trigger] lv.same_block(&prior, b) by {
                    assert(lv.same_block(&mid, b));
                    assert(mid.same_block(&prior, b));
                }
                assert forall|b: int|
                    !(0 <= b < bid + 1 && marks@[b]) implies #[trigger] lv.same_block(old(lv), b) by {
                    assert(lv.same_block(&prior, b));
                    assert(prior.same_block(old(lv), b));
                }
                assert forall|b: int|
                    0 <= b < bid + 1 && marks@[b] implies #[trigger] lv.has(b) && only_dist_differs(
                    *old(lv),
                    *lv,
                    b,
                ) && lv.record(b).dist_fine_coarse@ == Seq::new(
                    N as nat,
                    |v: int| DistFineCoarse(full),
                ) by {
                    if b < bid {
                        assert(lv.same_block(&prior, b));
                        assert(prior.has(b));
                    }
                }
            }
        }
        bid = bid + 1;
    }
    proof {
        assert forall|b: int|
            beside_interface(*old(lv), level as int, *dims, store, b) implies #[trigger] lv.has(b)
            && only_dist_differs(*old(lv), *lv, b) && lv.record(b).dist_fine_coarse@ == Seq::new(
            N as nat,
            |v: int| DistFineCoarse((1024 * dtrans_res) as u16),
        ) by {
            assert(marks@[b]);
        }
        assert forall|b: int|
            !beside_interface(*old(lv), level as int, *dims, store, b) implies #[trigger] lv.same_block(
            old(lv),
            b,
        ) by {
            if 0 <= b < dims.n_blocks {
                assert(!marks@[b]);
            }
        }
    }
}

/// A voxel at `v` of `b` along an axis lies against the block that is `d` steps away along it.
pub open spec fn lies_against(v: int, b: int, d: int) -> bool {
    (d == -1 ==> v == 0) && (d == 1 ==> v == b - 1)
}

proof fn lemma_cell_bits(p: bool, q: bool, r: bool, s: bool)
    ensures
        ({
            let f = crate::multires::refinement::with_bit(
                crate::multires::refinement::with_bit(
                    crate::multires::refinement::with_bit(
                        crate::multires::refinement::with_bit(0, p, 0x0100),
                        q,
                        0x0400,
                    ),
                    r,
                    0x0200,
                ),
                s,
                0x1000,
            );
            &&& f & 0x0100 != 0 <==> p
            &&& f & 0x0400 != 0 <==> q
            &&& f & 0x0200 != 0 <==> r
            &&& f & 0x1000 != 0 <==> s
            &&& f & 0xe8ff == 0
        }),
{
    assert(({
        let f = crate::multires::refinement::with_bit(
            crate::multires::refinement::with_bit(
                crate::multires::refinement::with_bit(
                    crate::multires::refinement::with_bit(0, p, 0x0100),
                    q,
                    0x0400,
                ),
                r,
                0x0200,
            ),
            s,
            0x1000,
        );
        &&& (f & 0x0100 != 0) == p
        &&& (f & 0x0400 != 0) == q
        &&& (f & 0x0200 != 0) == r
        &&& (f & 0x1000 != 0) == s
        &&& f & 0xe8ff == 0
    })) by (bit_vector);
}

proof fn lemma_toward(v: int, b: int, k: int, n: int, q: int)
    requires
        2 <= b,
        0 <= v < b,
        0 <= k < n,
    ensures
        0 <= toward(v, b, k, n) < n,
        (q == k || q == toward(v, b, k, n)) <==> 0 <= q < n && -1 <= q - k <= 1 && lies_against(
            v,
            b,
            q - k,
        ),
{
}

/// The blocks that voxel `(vx, vy, vz)` faces are the neighbours that it lies against.
proof fn lemma_faces(
    dims: BlockGridDims,
    bid: int,
    b: int,
    vx: int,
    vy: int,
    vz: int,
    qx: int,
    qy: int,
    qz: int,
)
    requires
        dims.wf(),
        0 <= bid < dims.n_blocks,
        2 <= b,
        0 <= vx < b,
        0 <= vy < b,
        0 <= vz < b,
    ensures
        ({
            let cx = toward(vx, b, dims.x_of(bid), dims.nx as int);
            let cy = toward(vy, b, dims.y_of(bid), dims.ny as int);
            let cz = toward(vz, b, dims.z_of(bid), dims.nz as int);
            let c = dims.id_at(qx, qy, qz);
            faces(dims, bid, cx, cy, cz, qx, qy, qz) ==> dims.adjacent(bid, c) && dims.x_of(c) == qx
                && dims.y_of(c) == qy && dims.z_of(c) == qz && lies_against(
                vx,
                b,
                qx - dims.x_of(bid),
            ) && lies_against(vy, b, qy - dims.y_of(bid)) && lies_against(
                vz,
                b,
                qz - dims.z_of(bid),
            )
        }),
{
    let (nx, ny, nz) = (dims.nx as int, dims.ny as int, dims.nz as int);
    crate::layout::lemma_coords3(bid, nx, ny, nz);
    let cx = toward(vx, b, dims.x_of(bid), nx);
    let cy = toward(vy, b, dims.y_of(bid), ny);
    let cz = toward(vz, b, dims.z_of(bid), nz);
    lemma_toward(vx, b, dims.x_of(bid), nx, qx);
    lemma_toward(vy, b, dims.y_of(bid), ny, qy);
    lemma_toward(vz, b, dims.z_of(bid), nz, qz);
    if faces(dims, bid, cx, cy, cz, qx, qy, qz) {
        crate::layout::lemma_index3(qx, qy, qz, nx, ny, nz);
    }
}

/// A neighbour that the voxel lies against is one that it faces.
proof fn lemma_faces_back(dims: BlockGridDims, bid: int, b: int, vx: int, vy: int, vz: int, c: int)
    requires
        dims.wf(),
        0 <= bid < dims.n_blocks,
        2 <= b,
        0 <= vx < b,
        0 <= vy < b,
        0 <= vz < b,
        dims.adjacent(bid, c),
        lies_against(vx, b, dims.x_of(c) - dims.x_of(bid)),
        lies_against(vy, b, dims.y_of(c) - dims.y_of(bid)),
        lies_against(vz, b, dims.z_of(c) - dims.z_of(bid)),
    ensures
        faces(
            dims,
            bid,
            toward(vx, b, dims.x_of(bid), dims.nx as int),
            toward(vy, b, dims.y_of(bid), dims.ny as int),
            toward(vz, b, dims.z_of(bid), dims.nz as int),
            dims.x_of(c),
            dims.y_of(c),
            dims.z_of(c),
        ),
        dims.id_at(dims.x_of(c), dims.y_of(c), dims.z_of(c)) == c,
{
    let (nx, ny, nz) = (dims.nx as int, dims.ny as int, dims.nz as int);
    crate::layout::lemma_coords3(bid, nx, ny, nz);
    crate::layout::lemma_coords3(c, nx, ny, nz);
    lemma_toward(vx, b, dims.x_of(bid), nx, dims.x_of(c));
    lemma_toward(vy, b, dims.y_of(bid), ny, dims.y_of(c));
    lemma_toward(vz, b, dims.z_of(bid), nz, dims.z_of(c));
}

/// The flags of voxel `(vx, vy, vz)` of a block, bit by bit. It is at the border of the block where
/// a coordinate is the first or the last. In a block that is flagged as beside a resolution border,
/// it is fine against coarse where a coarser neighbour lies against the voxel, and coarse against
/// fine where a finer one does. It is void where the block does not exist. No other bit is set.
pub proof fn law_cell_flag_bits(
    map: &RefinementMap,
    dims: BlockGridDims,
    store: &BlockInfoStore,
    block_flags: Option<Seq<BlockFlags>>,
    bid: int,
    b: int,
    vx: int,
    vy: int,
    vz: int,
)
    requires
        dims.wf(),
        0 <= bid < dims.n_blocks,
        2 <= b,
        0 <= vx < b,
        0 <= vy < b,
        0 <= vz < b,
    ensures
        ({
            let f = cell_flags_of(map, dims, store, block_flags, bid, b, vx + b * vy + b * b * vz).0;
            let level = store.level0@[bid];
            let own = store.flags@[0]@[bid].0;
            let border = own & 0x0004 != 0 || own & 0x0008 != 0;
            &&& f & 0x0100 != 0 <==> vx == 0 || vx == b - 1 || vy == 0 || vy == b - 1 || vz == 0 || vz
                == b - 1
            &&& f & 0x0400 != 0 <==> border && exists|c: int| #[trigger]
                dims.adjacent(bid, c) && map.levels@[c] > level && lies_against(
                    vx,
                    b,
                    dims.x_of(c) - dims.x_of(bid),
                ) && lies_against(vy, b, dims.y_of(c) - dims.y_of(bid)) && lies_against(
                    vz,
                    b,
                    dims.z_of(c) - dims.z_of(bid),
                )
            &&& f & 0x0200 != 0 <==> border && exists|c: int| #[trigger]
                dims.adjacent(bid, c) && map.levels@[c] < level && lies_against(
                    vx,
                    b,
                    dims.x_of(c) - dims.x_of(bid),
                ) && lies_against(vy, b, dims.y_of(c) - dims.y_of(bid)) && lies_against(
                    vz,
                    b,
                    dims.z_of(c) - dims.z_of(bid),
                )
            &&& f & 0x1000 != 0 <==> (match block_flags {
                Some(g) => g[bid].0 & 0x1000 == 0,
                None => true,
            })
            &&& f & 0xe8ff == 0
        }),
{
    let vid = vx + b * vy + b * b * vz;
    crate::layout::law_coords_of_cell(vx, vy, vz, b, b, b);
    let levels = map.levels@;
    let level = store.level0@[bid] as int;
    let cx = toward(vx, b, dims.x_of(bid), dims.nx as int);
    let cy = toward(vy, b, dims.y_of(bid), dims.ny as int);
    let cz = toward(vz, b, dims.z_of(bid), dims.nz as int);
    let border = on_res_border(store.flags@[0]@[bid]);
    lemma_cell_bits(
        at_side(vx, b) || at_side(vy, b) || at_side(vz, b),
        border && faces_coarser(levels, dims, level, bid, cx, cy, cz),
        border && faces_finer(levels, dims, level, bid, cx, cy, cz),
        !is_present(block_flags, bid),
    );
    let near = |c: int|
        lies_against(vx, b, dims.x_of(c) - dims.x_of(bid)) && lies_against(
            vy,
            b,
            dims.y_of(c) - dims.y_of(bid),
        ) && lies_against(vz, b, dims.z_of(c) - dims.z_of(bid));
    if faces_coarser(levels, dims, level, bid, cx, cy, cz) {
        let (qx, qy, qz) = choose|qx: int, qy: int, qz: int| #[trigger]
            faces(dims, bid, cx, cy, cz, qx, qy, qz) && levels[dims.id_at(qx, qy, qz)] > level;
        lemma_faces(dims, bid, b, vx, vy, vz, qx, qy, qz);
        assert(dims.adjacent(bid, dims.id_at(qx, qy, qz)));
    }
    if faces_finer(levels, dims, level, bid, cx, cy, cz) {
        let (qx, qy, qz) = choose|qx: int, qy: int, qz: int| #[trigger]
            faces(dims, bid, cx, cy, cz, qx, qy, qz) && levels[dims.id_at(qx, qy, qz)] < level;
        lemma_faces(dims, bid, b, vx, vy, vz, qx, qy, qz);
        assert(dims.adjacent(bid, dims.id_at(qx, qy, qz)));
    }
    if exists|c: int| #[trigger] dims.adjacent(bid, c) && levels[c] > level && near(c) {
        let c = choose|c: int| #[trigger] dims.adjacent(bid, c) && levels[c] > level && near(c);
        lemma_faces_back(dims, bid, b, vx, vy, vz, c);
    }
    if exists|c: int| #[trigger] dims.adjacent(bid, c) && levels[c] < level && near(c) {
        let c = choose|c: int| #[trigger] dims.adjacent(bid, c) && levels[c] < level && near(c);
        lemma_faces_back(dims, bid, b, vx, vy, vz, c);
    }
}

/// A gap is the least distance, in half voxels, from the centre of the voxel to a point of the
/// extent of the block: no point is nearer, and one is as near.
pub proof fn law_gap_is_least(p: int, k: int, b: int)
    requires
        0 < b,
    ensures
        0 <= half_gap(p, k, b),
        forall|t: int|
            2 * (b * k) <= t <= 2 * (b * (k + 1)) ==> half_gap(p, k, b) <= #[trigger] crate::arith::max(
                2 * p + 1 - t,
                t - (2 * p + 1),
            ),
        exists|t: int|
            2 * (b * k) <= t <= 2 * (b * (k + 1)) && half_gap(p, k, b)
                == #[trigger] crate::arith::max(2 * p + 1 - t, t - (2 * p + 1)),
{
    let c = 2 * p + 1;
    let (lo, hi) = (2 * (b * k), 2 * (b * (k + 1)));
    assert(b * (k + 1) == b * k + b) by (nonlinear_arith);
    let t = if c < lo { lo } else if c > hi { hi } else { c };
    assert(half_gap(p, k, b) == crate::arith::max(c - t, t - c));
}

/// The squared distance of a voxel to a block is that of its centre to the nearest point of the
/// block, along all three axes: no point of the block is nearer.
pub proof fn law_block_dist_is_least(
    dims: BlockGridDims,
    b: int,
    bid: int,
    vx: int,
    vy: int,
    vz: int,
    c: int,
    tx: int,
    ty: int,
    tz: int,
)
    requires
        0 <= vx < b,
        0 <= vy < b,
        0 <= vz < b,
        2 * (b * dims.x_of(c)) <= tx <= 2 * (b * (dims.x_of(c) + 1)),
        2 * (b * dims.y_of(c)) <= ty <= 2 * (b * (dims.y_of(c) + 1)),
        2 * (b * dims.z_of(c)) <= tz <= 2 * (b * (dims.z_of(c) + 1)),
    ensures
        ({
            let ax = 2 * (b * dims.x_of(bid) + vx) + 1 - tx;
            let ay = 2 * (b * dims.y_of(bid) + vy) + 1 - ty;
            let az = 2 * (b * dims.z_of(bid) + vz) + 1 - tz;
            box_dist2(dims, b, bid, vx + b * vy + b * b * vz, c) <= ax * ax + ay * ay + az * az
        }),
{
    crate::layout::law_coords_of_cell(vx, vy, vz, b, b, b);
    let (px, py, pz) = (b * dims.x_of(bid) + vx, b * dims.y_of(bid) + vy, b * dims.z_of(bid) + vz);
    lemma_gap_square(px, dims.x_of(c), b, tx);
    lemma_gap_square(py, dims.y_of(c), b, ty);
    lemma_gap_square(pz, dims.z_of(c), b, tz);
}

proof fn lemma_gap_square(p: int, k: int, b: int, t: int)
    requires
        0 < b,
        2 * (b * k) <= t <= 2 * (b * (k + 1)),
    ensures
        half_gap(p, k, b) * half_gap(p, k, b) <= (2 * p + 1 - t) * (2 * p + 1 - t),
{
    law_gap_is_least(p, k, b);
    let g = half_gap(p, k, b);
    let a = 2 * p + 1 - t;
    assert(g <= crate::arith::max(2 * p + 1 - t, t - (2 * p + 1)));
    assert(g * g <= a * a) by (nonlinear_arith)
        requires
            0 <= g,
            g <= a || g <= -a,
    ;
}

/// The squared distance is attained: some point of the block is as near.
pub proof fn law_block_dist_is_attained(
    dims: BlockGridDims,
    b: int,
    bid: int,
    vx: int,
    vy: int,
    vz: int,
    c: int,
) -> (t: (int, int, int))
    requires
        0 <= vx < b,
        0 <= vy < b,
        0 <= vz < b,
    ensures
        2 * (b * dims.x_of(c)) <= t.0 <= 2 * (b * (dims.x_of(c) + 1)),
        2 * (b * dims.y_of(c)) <= t.1 <= 2 * (b * (dims.y_of(c) + 1)),
        2 * (b * dims.z_of(c)) <= t.2 <= 2 * (b * (dims.z_of(c) + 1)),
        ({
            let ax = 2 * (b * dims.x_of(bid) + vx) + 1 - t.0;
            let ay = 2 * (b * dims.y_of(bid) + vy) + 1 - t.1;
            let az = 2 * (b * dims.z_of(bid) + vz) + 1 - t.2;
            box_dist2(dims, b, bid, vx + b * vy + b * b * vz, c) == ax * ax + ay * ay + az * az
        }),
{
    crate::layout::law_coords_of_cell(vx, vy, vz, b, b, b);
    let (px, py, pz) = (b * dims.x_of(bid) + vx, b * dims.y_of(bid) + vy, b * dims.z_of(bid) + vz);
    let tx = lemma_gap_point(px, dims.x_of(c), b);
    let ty = lemma_gap_point(py, dims.y_of(c), b);
    let tz = lemma_gap_point(pz, dims.z_of(c), b);
    (tx, ty, tz)
}

proof fn lemma_gap_point(p: int, k: int, b: int) -> (t: int)
    requires
        0 < b,
    ensures
        2 * (b * k) <= t <= 2 * (b * (k + 1)),
        half_gap(p, k, b) * half_gap(p, k, b) == (2 * p + 1 - t) * (2 * p + 1 - t),
{
    law_gap_is_least(p, k, b);
    let t = choose|t: int|
        2 * (b * k) <= t <= 2 * (b * (k + 1)) && half_gap(p, k, b) == #[trigger] crate::arith::max(
            2 * p + 1 - t,
            t - (2 * p + 1),
        );
    let (g, a) = (half_gap(p, k, b), 2 * p + 1 - t);
    assert(g * g == a * a) by (nonlinear_arith)
        requires
            g == a || g == -a,
    ;
    t
}

/// The stored distance of a voxel is that of its centre to the coarser neighbours, in 1024ths of a
/// voxel: no point of a coarser neighbour is nearer, and it is at most the width of the transition.
pub proof fn law_stored_dist_is_least(
    levels: Seq<u8>,
    dims: BlockGridDims,
    level: int,
    dtrans: int,
    b: int,
    bid: int,
    vx: int,
    vy: int,
    vz: int,
    q: int,
    c: int,
    tx: int,
    ty: int,
    tz: int,
)
    requires
        0 <= vx < b,
        0 <= vy < b,
        0 <= vz < b,
        is_quantized_dist(levels, dims, level, dtrans, b, bid, vx + b * vy + b * b * vz, q),
        dims.adjacent(bid, c),
        levels[c] > level,
        2 * (b * dims.x_of(c)) <= tx <= 2 * (b * (dims.x_of(c) + 1)),
        2 * (b * dims.y_of(c)) <= ty <= 2 * (b * (dims.y_of(c) + 1)),
        2 * (b * dims.z_of(c)) <= tz <= 2 * (b * (dims.z_of(c) + 1)),
    ensures
        0 <= q <= 1024 * dtrans,
        ({
            let ax = 2 * (b * dims.x_of(bid) + vx) + 1 - tx;
            let ay = 2 * (b * dims.y_of(bid) + vy) + 1 - ty;
            let az = 2 * (b * dims.z_of(bid) + vz) + 1 - tz;
            q * q <= 512 * 512 * (ax * ax + ay * ay + az * az)
        }),
{
    assert(coarser_neighbor(levels, dims, level, bid, c));
    law_block_dist_is_least(dims, b, bid, vx, vy, vz, c, tx, ty, tz);
    let ax = 2 * (b * dims.x_of(bid) + vx) + 1 - tx;
    let ay = 2 * (b * dims.y_of(bid) + vy) + 1 - ty;
    let az = 2 * (b * dims.z_of(bid) + vz) + 1 - tz;
    let near = box_dist2(dims, b, bid, vx + b * vy + b * b * vz, c);
    let far = ax * ax + ay * ay + az * az;
    assert(q * q <= 0x40000 * near && near <= far);
    assert(512 * 512 * far == 0x40000 * far) by (nonlinear_arith);
}

/// Where the stored distance is less than the width of the transition, the next larger one would be
/// too large: some point of a coarser neighbour is nearer than that.
pub proof fn law_stored_dist_is_tight(
    levels: Seq<u8>,
    dims: BlockGridDims,
    level: int,
    dtrans: int,
    b: int,
    bid: int,
    vx: int,
    vy: int,
    vz: int,
    q: int,
) -> (t: (int, int, int, int))
    requires
        0 <= vx < b,
        0 <= vy < b,
        0 <= vz < b,
        is_quantized_dist(levels, dims, level, dtrans, b, bid, vx + b * vy + b * b * vz, q),
        q < 1024 * dtrans,
    ensures
        dims.adjacent(bid, t.0),
        levels[t.0] > level,
        2 * (b * dims.x_of(t.0)) <= t.1 <= 2 * (b * (dims.x_of(t.0) + 1)),
        2 * (b * dims.y_of(t.0)) <= t.2 <= 2 * (b * (dims.y_of(t.0) + 1)),
        2 * (b * dims.z_of(t.0)) <= t.3 <= 2 * (b * (dims.z_of(t.0) + 1)),
        ({
            let ax = 2 * (b * dims.x_of(bid) + vx) + 1 - t.1;
            let ay = 2 * (b * dims.y_of(bid) + vy) + 1 - t.2;
            let az = 2 * (b * dims.z_of(bid) + vz) + 1 - t.3;
            (q + 1) * (q + 1) > 512 * 512 * (ax * ax + ay * ay + az * az)
        }),
{
    let vid = vx + b * vy + b * b * vz;
    let c = choose|c: int| #[trigger]
        coarser_neighbor(levels, dims, level, bid, c) && (q + 1) * (q + 1) > 0x40000 * box_dist2(
            dims,
            b,
            bid,
            vid,
            c,
        );
    let t = law_block_dist_is_attained(dims, b, bid, vx, vy, vz, c);
    (c, t.0, t.1, t.2)
}

/// The distance of a voxel is fixed by the map: no two numbers are both right.
pub proof fn law_stored_dist_unique(
    levels: Seq<u8>,
    dims: BlockGridDims,
    level: int,
    dtrans: int,
    b: int,
    bid: int,
    vid: int,
    p: int,
    q: int,
)
    requires
        is_quantized_dist(levels, dims, level, dtrans, b, bid, vid, p),
        is_quantized_dist(levels, dims, level, dtrans, b, bid, vid, q),
    ensures
        p == q,
{
    lemma_dist_not_below(levels, dims, level, dtrans, b, bid, vid, p, q);
    lemma_dist_not_below(levels, dims, level, dtrans, b, bid, vid, q, p);
}

proof fn lemma_dist_not_below(
    levels: Seq<u8>,
    dims: BlockGridDims,
    level: int,
    dtrans: int,
    b: int,
    bid: int,
    vid: int,
    p: int,
    q: int,
)
    requires
        is_quantized_dist(levels, dims, level, dtrans, b, bid, vid, p),
        is_quantized_dist(levels, dims, level, dtrans, b, bid, vid, q),
    ensures
        q <= p,
{
    if p < q {
        let c = choose|c: int| #[trigger]
            coarser_neighbor(levels, dims, level, bid, c) && (p + 1) * (p + 1) > 0x40000 * box_dist2(
                dims,
                b,
                bid,
                vid,
                c,
            );
        assert((p + 1) * (p + 1) <= q * q) by (nonlinear_arith)
            requires
                0 <= p < q,
        ;
    }
}

/// What initializing the flags leaves: every block of the level has for voxel `(vx, vy, vz)` the
/// flags of that voxel, with the densities and distances it had, and all other blocks are as they
/// were.
pub proof fn law_flags_written<const BSX: usize, const N: usize>(
    before: LevelData<BSX, N>,
    after: LevelData<BSX, N>,
    level: int,
    map: &RefinementMap,
    dims: BlockGridDims,
    store: &BlockInfoStore,
    block_flags: Option<Seq<BlockFlags>>,
    b: int,
    vx: int,
    vy: int,
    vz: int,
)
    requires
        N == BSX * BSX * BSX,
        cell_flags_filled(before, after, level, map, dims, store, block_flags),
        0 <= vx < BSX,
        0 <= vy < BSX,
        0 <= vz < BSX,
    ensures
        ({
            let vid = vx + BSX * vy + BSX * BSX * vz;
            let listed = 0 <= b < dims.n_blocks && store.level0@[b] == level;
            &&& listed ==> after.has(b) && after.record(b).cell_flags@[vid] == cell_flags_of(
                map,
                dims,
                store,
                block_flags,
                b,
                BSX as int,
                vid,
            )
            &&& listed ==> after.density_at(b, vid) == before.density_at(b, vid)
            &&& listed && before.has(b) ==> after.record(b).dist_fine_coarse@[vid] == before.record(
                b,
            ).dist_fine_coarse@[vid]
            &&& !listed ==> after.same_block(&before, b)
        }),
{
    crate::layout::law_coords_of_cell(vx, vy, vz, BSX as int, BSX as int, BSX as int);
    if 0 <= b < dims.n_blocks && store.level0@[b] == level {
        assert(after.has(b));
    } else {
        assert(after.same_block(&before, b));
    }
}

/// What filling in the distances leaves: every block beside a coarser one has for each voxel its
/// distance, with the flags and densities it had, and all other blocks are as they were.
pub proof fn law_dist_written<const BSX: usize, const N: usize>(
    before: LevelData<BSX, N>,
    after: LevelData<BSX, N>,
    dtrans: int,
    map: &RefinementMap,
    dims: BlockGridDims,
    store: &BlockInfoStore,
    b: int,
    vx: int,
    vy: int,
    vz: int,
)
    requires
        N == BSX * BSX * BSX,
        dist_filled(before, after, dtrans, map, dims, store),
        0 <= vx < BSX,
        0 <= vy < BSX,
        0 <= vz < BSX,
    ensures
        ({
            let vid = vx + BSX * vy + BSX * BSX * vz;
            let listed = 0 <= b < dims.n_blocks && store.flags@[0]@[b].0 & 0x0008 != 0;
            &&& listed ==> after.has(b) && is_quantized_dist(
                map.levels@,
                dims,
                store.level0@[b] as int,
                dtrans,
                BSX as int,
                b,
                vid,
                after.record(b).dist_fine_coarse@[vid].0 as int,
            )
            &&& listed ==> after.density_at(b, vid) == before.density_at(b, vid)
            &&& listed && before.has(b) ==> after.record(b).cell_flags@[vid] == before.record(
                b,
            ).cell_flags@[vid]
            &&& !listed ==> after.same_block(&before, b)
        }),
{
    crate::layout::law_coords_of_cell(vx, vy, vz, BSX as int, BSX as int, BSX as int);
    if 0 <= b < dims.n_blocks && store.flags@[0]@[b].has(BlockFlags::FINE_COARSE) {
        assert(after.has(b));
        let vid = vx + BSX * vy + BSX * BSX * vz;
        assert(after.record(b).dist_fine_coarse@[vid] == after.record(b).dist_fine_coarse@[vid]);
    } else {
        assert(after.same_block(&before, b));
    }
}

/// What the second distance pass leaves: a block that had no record, of the level or the one below
/// it, beside a block of the level that touches a coarser one, has the width of the transition for
/// the distance of all its voxels; all other blocks are as they were.
pub proof fn law_full_dist_written<const BSX: usize, const N: usize>(
    before: LevelData<BSX, N>,
    after: LevelData<BSX, N>,
    level: int,
    dtrans: int,
    dims: BlockGridDims,
    store: &BlockInfoStore,
    b: int,
    vid: int,
)
    requires
        full_dist_propagated(before, after, level, dtrans, dims, store),
        0 <= dtrans <= 63,
        0 <= vid < N,
    ensures
        ({
            let beside = 0 <= b < dims.n_blocks && (level == store.level0@[b] || level
                == store.level0@[b] + 1) && !before.has(b) && exists|c: int| #[trigger]
                dims.adjacent(b, c) && store.level0@[c] == level && store.flags@[0]@[c].0 & 0x0008 != 0;
            &&& beside ==> after.has(b) && after.record(b).dist_fine_coarse@[vid].0 == 1024 * dtrans
            &&& !beside ==> after.same_block(&before, b)
        }),
{
    let beside = 0 <= b < dims.n_blocks && (level == store.level0@[b] || level == store.level0@[b] + 1)
        && !before.has(b) && exists|c: int| #[trigger]
        dims.adjacent(b, c) && store.level0@[c] == level && store.flags@[0]@[c].0 & 0x0008 != 0;
    if beside {
        let c = choose|c: int| #[trigger]
            dims.adjacent(b, c) && store.level0@[c] == level && store.flags@[0]@[c].0 & 0x0008 != 0;
        assert(store.flags@[0]@[c].has(BlockFlags::FINE_COARSE));
        assert(beside_interface(before, level, dims, store, b));
        assert(after.has(b));
    } else {
        if beside_interface(before, level, dims, store, b) {
            let c = choose|c: int| #[trigger]
                dims.adjacent(b, c) && store.level0@[c] == level && store.flags@[0]@[c].has(
                    BlockFlags::FINE_COARSE,
                );
            assert(store.flags@[0]@[c].0 & 0x0008 != 0);
        }
        assert(after.same_block(&before, b));
    }
}

} // verus!
