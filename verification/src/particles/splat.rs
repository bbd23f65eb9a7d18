//! Splatting particles into a grid, in eight colors and with a staging buffer for each block.
//!
//! The particles of a block are accumulated in a buffer that holds the block and a margin around it.
//! Then each voxel of the buffer is combined into the grid, once for each contributing block. The
//! buffers of one color do not overlap where the margin is at most half a block.

use crate::sparse_grid::{BlockKind, SparseGrid};
use vstd::prelude::*;

verus! {

/// The voxels that a particle reaches along each axis, both ends included.
#[derive(Clone, Copy, Debug, PartialEq, Eq, Structural)]
pub struct VoxelBox {
    pub x1: i32,
    pub x2: i32,
    pub y1: i32,
    pub y2: i32,
    pub z1: i32,
    pub z2: i32,
}

impl VoxelBox {
    /// Voxel `(x, y, z)` is reached.
    pub open spec fn has(self, x: int, y: int, z: int) -> bool {
        &&& self.x1 <= x <= self.x2
        &&& self.y1 <= y <= self.y2
        &&& self.z1 <= z <= self.z2
    }
}

/// A cube of `edge` voxels an axis that starts at `(x0, y0, z0)`.
#[derive(Clone, Copy, Debug, PartialEq, Eq, Structural)]
pub struct Window {
    pub x0: i32,
    pub y0: i32,
    pub z0: i32,
    pub edge: usize,
}

impl Window {
    /// The cells can be numbered, and their coordinates represented.
    pub open spec fn wf(self) -> bool {
        &&& self.edge * self.edge * self.edge <= usize::MAX
        &&& self.edge <= i32::MAX
        &&& self.x0 + self.edge <= i32::MAX
        &&& self.y0 + self.edge <= i32::MAX
        &&& self.z0 + self.edge <= i32::MAX
    }

    /// Voxel `(x, y, z)` lies in the window.
    pub open spec fn has(self, x: int, y: int, z: int) -> bool {
        crate::layout::in_box(
            x - self.x0,
            y - self.y0,
            z - self.z0,
            self.edge as int,
            self.edge as int,
            self.edge as int,
        )
    }

    /// The place of voxel `(x, y, z)` in the window.
    pub open spec fn index(self, x: int, y: int, z: int) -> int {
        crate::layout::index3(
            x - self.x0,
            y - self.y0,
            z - self.z0,
            self.edge as int,
            self.edge as int,
        )
    }
}

/// The part of the range `[lo, hi]` that lies in the `edge` numbers from `start` on, as the offset of
/// its first number and its length.
fn clip_to_window(lo: i32, hi: i32, start: i32, edge: usize) -> (r: (usize, usize))
    requires
        edge <= i32::MAX,
        start + edge <= i32::MAX,
    ensures
        r.0 + r.1 <= edge,
        forall|v: int|
            #![trigger crate::particles::dims::in_range(v, start + r.0, r.1 as int)]
            crate::particles::dims::in_range(v, start + r.0, r.1 as int) <==> lo <= v <= hi && start
                <= v < start + edge,
{
    if edge == 0 {
        return (0, 0);
    }
    let end: i32 = start + (edge as i32 - 1);
    let first: i32 = if lo < start { start } else { lo };
    let last: i32 = if hi > end { end } else { hi };
    if first > last {
        return (0, 0);
    }
    let off: usize = (first as i64 - start as i64) as usize;
    let len: usize = (last as i64 - first as i64 + 1) as usize;
    (off, len)
}

/// `acc` is what accumulating particles `lo` to `n` at voxel `(x, y, z)` gives: starting from `full`,
/// each particle that reaches the voxel has its value merged in, in turn.
pub open spec fn accumulated<
    D,
    V: Fn(usize, i32, i32, i32) -> D,
    M: Fn(D, D) -> D,
>(
    value: &V,
    merge: &M,
    full: D,
    boxes: Seq<VoxelBox>,
    lo: int,
    n: int,
    x: int,
    y: int,
    z: int,
    acc: D,
) -> bool
    decreases n - lo,
{
    if n <= lo {
        acc == full
    } else if boxes[n - 1].has(x, y, z) {
        let i = (n - 1) as usize;
        exists|prev: D, c: D|
            {
                &&& accumulated(value, merge, full, boxes, lo, n - 1, x, y, z, prev)
                &&& call_ensures(*value, (i, x as i32, y as i32, z as i32), c)
                &&& #[trigger] call_ensures(*merge, (prev, c), acc)
            }
    } else {
        accumulated(value, merge, full, boxes, lo, n - 1, x, y, z, acc)
    }
}

/// `data` holds what particles `lo` to `hi` accumulate to in the window.
pub open spec fn is_staged<
    D,
    V: Fn(usize, i32, i32, i32) -> D,
    M: Fn(D, D) -> D,
>(
    value: &V,
    merge: &M,
    full: D,
    boxes: Seq<VoxelBox>,
    lo: int,
    hi: int,
    win: Window,
    data: Seq<D>,
) -> bool {
    &&& data.len() == win.edge * win.edge * win.edge
    &&& forall|x: int, y: int, z: int| #[trigger]
        win.has(x, y, z) ==> accumulated(
            value,
            merge,
            full,
            boxes,
            lo,
            hi,
            x,
            y,
            z,
            data[win.index(x, y, z)],
        )
}

/// The closures can be called on whatever comes up.
pub open spec fn callable<
    D,
    V: Fn(usize, i32, i32, i32) -> D,
    M: Fn(D, D) -> D,
    C: Fn(D, D) -> D,
>(value: &V, merge: &M, combine: &C) -> bool {
    &&& forall|i: usize, x: i32, y: i32, z: i32| #[trigger] call_requires(*value, (i, x, y, z))
    &&& forall|a: D, b: D| #[trigger] call_requires(*merge, (a, b))
    &&& forall|a: D, b: D| #[trigger] call_requires(*combine, (a, b))
}

proof fn lemma_accumulated_hit<
    D,
    V: Fn(usize, i32, i32, i32) -> D,
    M: Fn(D, D) -> D,
>(
    value: &V,
    merge: &M,
    full: D,
    boxes: Seq<VoxelBox>,
    lo: int,
    n: usize,
    x: i32,
    y: i32,
    z: i32,
    prev: D,
    c: D,
    acc: D,
)
    requires
        lo <= n,
        boxes[n as int].has(x as int, y as int, z as int),
        accumulated(value, merge, full, boxes, lo, n as int, x as int, y as int, z as int, prev),
        call_ensures(*value, (n, x, y, z), c),
        call_ensures(*merge, (prev, c), acc),
    ensures
        accumulated(value, merge, full, boxes, lo, n + 1, x as int, y as int, z as int, acc),
{
    assert(((n + 1) - 1) as usize == n);
}

/// Accumulates particle `n` in the window.
fn stage_particle<
    D: Copy,
    V: Fn(usize, i32, i32, i32) -> D,
    M: Fn(D, D) -> D,
>(
    data: &mut Vec<D>,
    value: &V,
    merge: &M,
    Ghost(full): Ghost<D>,
    boxes: &Vec<VoxelBox>,
    Ghost(lo): Ghost<int>,
    n: usize,
    win: Window,
)
    requires
        win.wf(),
        lo <= n,
        n < boxes@.len(),
        forall|i: usize, x: i32, y: i32, z: i32| #[trigger] call_requires(*value, (i, x, y, z)),
        forall|a: D, b: D| #[trigger] call_requires(*merge, (a, b)),
        is_staged(value, merge, full, boxes@, lo, n as int, win, old(data)@),
    ensures
        is_staged(value, merge, full, boxes@, lo, n + 1, win, final(data)@),
{
    let b: VoxelBox = boxes[n];
    let (ox, wx) = clip_to_window(b.x1, b.x2, win.x0, win.edge);
    let (oy, wy) = clip_to_window(b.y1, b.y2, win.y0, win.edge);
    let (oz, wz) = clip_to_window(b.z1, b.z2, win.z0, win.edge);
    let ghost e = win.edge as int;
    proof {
        lemma_sub_box(wx as int, wy as int, wz as int, e);
        assert forall|x: int, y: int, z: int| #[trigger] win.has(x, y, z) && b.has(x, y, z) implies local_place(
            win,
            x,
            y,
            z,
            ox as int,
            oy as int,
            oz as int,
            wx as int,
            wy as int,
        ) >= 0 by {
            assert(crate::particles::dims::in_range(x, win.x0 + ox, wx as int));
            assert(crate::particles::dims::in_range(y, win.y0 + oy, wy as int));
            assert(crate::particles::dims::in_range(z, win.z0 + oz, wz as int));
            crate::layout::lemma_index3(
                x - win.x0 - ox,
                y - win.y0 - oy,
                z - win.z0 - oz,
                wx as int,
                wy as int,
                wz as int,
            );
        }
    }
    let total: usize = wx * wy * wz;
    let mut t: usize = 0;
    while t < total
        invariant
            win.wf(),
            e == win.edge,
            lo <= n,
            n < boxes@.len(),
            b == boxes@[n as int],
            forall|i: usize, x: i32, y: i32, z: i32| #[trigger] call_requires(*value, (i, x, y, z)),
            forall|a: D, b: D| #[trigger] call_requires(*merge, (a, b)),
            ox + wx <= e,
            oy + wy <= e,
            oz + wz <= e,
            forall|v: int|
                #![trigger crate::particles::dims::in_range(v, win.x0 + ox, wx as int)]
                crate::particles::dims::in_range(v, win.x0 + ox, wx as int) <==> b.x1 <= v <= b.x2
                    && win.x0 <= v < win.x0 + e,
            forall|v: int|
                #![trigger crate::particles::dims::in_range(v, win.y0 + oy, wy as int)]
                crate::particles::dims::in_range(v, win.y0 + oy, wy as int) <==> b.y1 <= v <= b.y2
                    && win.y0 <= v < win.y0 + e,
            forall|v: int|
                #![trigger crate::particles::dims::in_range(v, win.z0 + oz, wz as int)]
                crate::particles::dims::in_range(v, win.z0 + oz, wz as int) <==> b.z1 <= v <= b.z2
                    && win.z0 <= v < win.z0 + e,
            total == wx * wy * wz,
            t <= total,
            data@.len() == e * e * e,
            forall|x: int, y: int, z: int| #[trigger]
                win.has(x, y, z) ==> accumulated(
                    value,
                    merge,
                    full,
                    boxes@,
                    lo,
                    (if b.has(x, y, z) && local_place(win, x, y, z, ox as int, oy as int, oz as int, wx as int, wy as int)
                        < t {
                        n + 1
                    } else {
                        n as int
                    }),
                    x,
                    y,
                    z,
                    data@[win.index(x, y, z)],
                ),
        decreases total - t,
    {
        proof {
            crate::layout::lemma_coords3(t as int, wx as int, wy as int, wz as int);
        }
        let i: usize = ox + t % wx;
        let j: usize = oy + (t / wx) % wy;
        let k: usize = oz + (t / wx) / wy;
        let x: i32 = win.x0 + i as i32;
        let y: i32 = win.y0 + j as i32;
        let z: i32 = win.z0 + k as i32;
        proof {
            lemma_flat(i as int, j as int, k as int, e);
            assert(crate::particles::dims::in_range(x as int, win.x0 + ox, wx as int));
            assert(crate::particles::dims::in_range(y as int, win.y0 + oy, wy as int));
            assert(crate::particles::dims::in_range(z as int, win.z0 + oz, wz as int));
            assert(b.has(x as int, y as int, z as int));
            assert(win.has(x as int, y as int, z as int));
            assert(local_place(win, x as int, y as int, z as int, ox as int, oy as int, oz as int, wx as int, wy as int)
                == t);
        }
        let at: usize = (k * win.edge + j) * win.edge + i;
        assert(at == win.index(x as int, y as int, z as int));
        let ghost before = data@;
        let prev: D = data[at];
        let c: D = value(n, x, y, z);
        let acc: D = merge(prev, c);
        data[at] = acc;
        proof {
            lemma_accumulated_hit(value, merge, full, boxes@, lo, n, x, y, z, prev, c, acc);
            assert forall|x2: int, y2: int, z2: int| #[trigger] win.has(x2, y2, z2) implies accumulated(
                value,
                merge,
                full,
                boxes@,
                lo,
                (if b.has(x2, y2, z2) && local_place(win, x2, y2, z2, ox as int, oy as int, oz as int, wx as int, wy as int)
                    < t + 1 {
                    n + 1
                } else {
                    n as int
                }),
                x2,
                y2,
                z2,
                data@[win.index(x2, y2, z2)],
            ) by {
                crate::layout::lemma_index3(x2 - win.x0, y2 - win.y0, z2 - win.z0, e, e, e);
                if win.index(x2, y2, z2) == at {
                    crate::layout::lemma_index3_injective(
                        x2 - win.x0,
                        y2 - win.y0,
                        z2 - win.z0,
                        i as int,
                        j as int,
                        k as int,
                        e,
                        e,
                        e,
                    );
                } else if b.has(x2, y2, z2) {
                    assert(crate::particles::dims::in_range(x2, win.x0 + ox, wx as int));
                    assert(crate::particles::dims::in_range(y2, win.y0 + oy, wy as int));
                    assert(crate::particles::dims::in_range(z2, win.z0 + oz, wz as int));
                    if local_place(win, x2, y2, z2, ox as int, oy as int, oz as int, wx as int, wy as int) == t {
                        crate::layout::lemma_index3(
                            x2 - win.x0 - ox,
                            y2 - win.y0 - oy,
                            z2 - win.z0 - oz,
                            wx as int,
                            wy as int,
                            wz as int,
                        );
                        assert(false);
                    }
                }
            }
        }
        t = t + 1;
    }
    proof {
        assert forall|x: int, y: int, z: int| #[trigger] win.has(x, y, z) implies accumulated(
            value,
            merge,
            full,
            boxes@,
            lo,
            n + 1,
            x,
            y,
            z,
            data@[win.index(x, y, z)],
        ) by {
            if b.has(x, y, z) {
                assert(crate::particles::dims::in_range(x, win.x0 + ox, wx as int));
                assert(crate::particles::dims::in_range(y, win.y0 + oy, wy as int));
                assert(crate::particles::dims::in_range(z, win.z0 + oz, wz as int));
                crate::layout::lemma_index3(
                    x - win.x0 - ox,
                    y - win.y0 - oy,
                    z - win.z0 - oz,
                    wx as int,
                    wy as int,
                    wz as int,
                );
            }
        }
    }
}

spec fn local_place(
    win: Window,
    x: int,
    y: int,
    z: int,
    ox: int,
    oy: int,
    oz: int,
    wx: int,
    wy: int,
) -> int {
    crate::layout::index3(x - win.x0 - ox, y - win.y0 - oy, z - win.z0 - oz, wx, wy)
}

proof fn lemma_sub_box(wx: int, wy: int, wz: int, e: int)
    requires
        0 <= wx <= e,
        0 <= wy <= e,
        0 <= wz <= e,
    ensures
        0 <= wx * wy <= e * e,
        0 <= wx * wy * wz <= e * e * e,
        e >= 1 ==> e * e <= e * e * e,
{
    assert(0 <= wx * wy <= e * e) by (nonlinear_arith)
        requires
            0 <= wx <= e,
            0 <= wy <= e,
    ;
    assert(0 <= wx * wy * wz <= e * e * e) by (nonlinear_arith)
        requires
            0 <= wx * wy <= e * e,
            0 <= wz <= e,
    ;
    assert(e >= 1 ==> e * e <= e * e * e) by (nonlinear_arith);
    if wx == 0 || wy == 0 {
        assert(wx * wy == 0) by (nonlinear_arith)
            requires
                wx == 0 || wy == 0,
        ;
    }
}

proof fn lemma_flat(i: int, j: int, k: int, e: int)
    requires
        0 <= i < e,
        0 <= j < e,
        0 <= k < e,
    ensures
        (k * e + j) * e + i == crate::layout::index3(i, j, k, e, e),
        0 <= k * e,
        0 <= (k * e + j) * e,
        k * e + j < e * e,
        0 <= crate::layout::index3(i, j, k, e, e) < e * e * e,
        e * e <= e * e * e,
{
    crate::layout::lemma_index3(i, j, k, e, e, e);
    assert((k * e + j) * e + i == i + j * e + k * (e * e)) by (nonlinear_arith);
    assert(0 <= k * e) by (nonlinear_arith)
        requires
            0 <= k,
            0 <= e,
    ;
    assert(0 <= (k * e + j) * e) by (nonlinear_arith)
        requires
            0 <= k * e + j,
            0 <= e,
    ;
    assert(k * e + j < e * e) by (nonlinear_arith)
        requires
            0 <= k < e,
            0 <= j < e,
    ;
    assert(e * e <= e * e * e) by (nonlinear_arith)
        requires
            1 <= e,
    ;
}

/// Accumulates particles `lo` to `hi` in the window, starting from `full`.
pub fn stage<
    D: Copy,
    V: Fn(usize, i32, i32, i32) -> D,
    M: Fn(D, D) -> D,
>(
    value: &V,
    merge: &M,
    full: D,
    boxes: &Vec<VoxelBox>,
    lo: usize,
    hi: usize,
    win: Window,
) -> (r: Vec<D>)
    requires
        win.wf(),
        lo <= hi <= boxes@.len(),
        forall|i: usize, x: i32, y: i32, z: i32| #[trigger] call_requires(*value, (i, x, y, z)),
        forall|a: D, b: D| #[trigger] call_requires(*merge, (a, b)),
    ensures
        is_staged(value, merge, full, boxes@, lo as int, hi as int, win, r@),
{
    proof {
        lemma_sub_box(win.edge as int, win.edge as int, win.edge as int, win.edge as int);
    }
    let mut data: Vec<D> = crate::arith::filled(win.edge * win.edge * win.edge, full);
    let mut n: usize = lo;
    proof {
        let e = win.edge as int;
        assert forall|x: int, y: int, z: int| #[trigger] win.has(x, y, z) implies accumulated(
            value,
            merge,
            full,
            boxes@,
            lo as int,
            lo as int,
            x,
            y,
            z,
            data@[win.index(x, y, z)],
        ) by {
            crate::layout::lemma_index3(x - win.x0, y - win.y0, z - win.z0, e, e, e);
        }
    }
    while n < hi
        invariant
            win.wf(),
            lo <= n <= hi <= boxes@.len(),
            forall|i: usize, x: i32, y: i32, z: i32| #[trigger] call_requires(*value, (i, x, y, z)),
            forall|a: D, b: D| #[trigger] call_requires(*merge, (a, b)),
            is_staged(value, merge, full, boxes@, lo as int, n as int, win, data@),
        decreases hi - n,
    {
        stage_particle(&mut data, value, merge, Ghost(full), boxes, Ghost(lo as int), n, win);
        n = n + 1;
    }
    data
}

/// Voxel `(x, y, z)` is written when a window is committed: it is in the window, and its block is
/// allocated.
pub open spec fn is_committed<D, const BSX: usize, const N: usize>(
    grid: &SparseGrid<D, BSX, N>,
    win: Window,
    x: int,
    y: int,
    z: int,
) -> bool where D: Copy + Default + Send + Sync {
    win.has(x, y, z) && grid.kind(grid.bid_of(x, y, z)) is Allocated
}

/// What committing a window makes of the grid: each voxel of the grid in the window, where its block
/// is allocated, is combined with the staged value, once; all others stay as they were.
pub open spec fn committed<D, const BSX: usize, const N: usize, C: Fn(D, D) -> D>(
    before: SparseGrid<D, BSX, N>,
    after: SparseGrid<D, BSX, N>,
    combine: &C,
    win: Window,
    data: Seq<D>,
) -> bool where D: Copy + Default + Send + Sync {
    &&& after.wf()
    &&& after.same_shape(&before)
    &&& after.spec_free() == before.spec_free()
    &&& forall|b: int| 0 <= b < before.n_blocks ==> #[trigger] after.kind(b) == before.kind(b)
    &&& forall|x: int, y: int, z: int|
        before.has_voxel(x, y, z) ==> (if is_committed(&before, win, x, y, z) {
            call_ensures(
                *combine,
                (before.voxel(x, y, z), data[win.index(x, y, z)]),
                #[trigger] after.voxel(x, y, z),
            )
        } else {
            after.voxel(x, y, z) == before.voxel(x, y, z)
        })
}

/// Combines the staged values of the window into the grid.
pub fn commit<D, const BSX: usize, const N: usize, C: Fn(D, D) -> D>(
    grid: &mut SparseGrid<D, BSX, N>,
    combine: &C,
    win: Window,
    data: &Vec<D>,
) where D: Copy + Default + Send + Sync
    requires
        old(grid).wf(),
        win.wf(),
        data@.len() == win.edge * win.edge * win.edge,
        forall|a: D, b: D| #[trigger] call_requires(*combine, (a, b)),
    ensures
        committed(*old(grid), *final(grid), combine, win, data@),
{
    let ghost e = win.edge as int;
    let total: usize = data.len();
    let mut t: usize = 0;
    while t < total
        invariant
            win.wf(),
            e == win.edge,
            total == e * e * e,
            data@.len() == total,
            forall|a: D, b: D| #[trigger] call_requires(*combine, (a, b)),
            t <= total,
            old(grid).wf(),
            grid.wf(),
            grid.same_shape(old(grid)),
            grid.spec_free() == old(grid).spec_free(),
            forall|b: int|
                0 <= b < old(grid).n_blocks ==> #[trigger] grid.kind(b) == old(grid).kind(b),
            forall|x: int, y: int, z: int|
                old(grid).has_voxel(x, y, z) ==> (if is_committed(old(grid), win, x, y, z) && win.index(x, y, z) < t {
                    call_ensures(
                        *combine,
                        (old(grid).voxel(x, y, z), data@[win.index(x, y, z)]),
                        #[trigger] grid.voxel(x, y, z),
                    )
                } else {
                    grid.voxel(x, y, z) == old(grid).voxel(x, y, z)
                }),
        decreases total - t,
    {
        proof {
            crate::layout::lemma_coords3(t as int, e, e, e);
        }
        let gx: i32 = win.x0 + (t % win.edge) as i32;
        let gy: i32 = win.y0 + ((t / win.edge) % win.edge) as i32;
        let gz: i32 = win.z0 + ((t / win.edge) / win.edge) as i32;
        let ghost prior = *grid;
        assert(win.has(gx as int, gy as int, gz as int));
        assert(win.index(gx as int, gy as int, gz as int) == t);
        if gx >= 0 && gy >= 0 && gz >= 0 && (gx as usize) < grid.sx && (gy as usize) < grid.sy && (
        gz as usize) < grid.sz {
            let (x, y, z): (usize, usize, usize) = (gx as usize, gy as usize, gz as usize);
            proof {
                grid.lemma_ids(x as int, y as int, z as int);
            }
            let bid: usize = grid.get_block_id(x, y, z);
            assert(grid.kind(bid as int) == old(grid).kind(bid as int));
            if let BlockKind::Allocated(_) = grid.block_kind(bid) {
                let now: D = grid.get_voxel(x, y, z);
                let out: D = combine(now, data[t]);
                grid.write_voxel(x, y, z, out);
            }
        }
        proof {
            assert forall|x: int, y: int, z: int| old(grid).has_voxel(x, y, z) implies (
            if is_committed(old(grid), win, x, y, z) && win.index(x, y, z) < t + 1 {
                call_ensures(
                    *combine,
                    (old(grid).voxel(x, y, z), data@[win.index(x, y, z)]),
                    #[trigger] grid.voxel(x, y, z),
                )
            } else {
                grid.voxel(x, y, z) == old(grid).voxel(x, y, z)
            }) by {
                old(grid).lemma_ids(x, y, z);
                assert(prior.voxel(x, y, z) == prior.voxel(x, y, z));
                if win.has(x, y, z) && win.index(x, y, z) == t {
                    crate::layout::lemma_index3_injective(
                        x - win.x0,
                        y - win.y0,
                        z - win.z0,
                        gx - win.x0,
                        gy - win.y0,
                        gz - win.z0,
                        e,
                        e,
                        e,
                    );
                } else {
                    assert(grid.voxel(x, y, z) == prior.voxel(x, y, z));
                }
            }
        }
        t = t + 1;
    }
    proof {
        assert forall|x: int, y: int, z: int| old(grid).has_voxel(x, y, z) implies (if is_committed(
            old(grid),
            win,
            x,
            y,
            z,
        ) {
            call_ensures(
                *combine,
                (old(grid).voxel(x, y, z), data@[win.index(x, y, z)]),
                #[trigger] grid.voxel(x, y, z),
            )
        } else {
            grid.voxel(x, y, z) == old(grid).voxel(x, y, z)
        }) by {
            if win.has(x, y, z) {
                crate::layout::lemma_index3(x - win.x0, y - win.y0, z - win.z0, e, e, e);
            }
        }
    }
}

/// The staging window of block `bid`: the block and a margin around it.
pub open spec fn is_window_of(win: Window, bsx: int, nx: int, ny: int, bid: int, margin: int) -> bool {
    &&& win.x0 == bsx * crate::layout::coord_x(bid, nx) - margin
    &&& win.y0 == bsx * crate::layout::coord_y(bid, nx, ny) - margin
    &&& win.z0 == bsx * crate::layout::coord_z(bid, nx, ny) - margin
    &&& win.edge == bsx + 2 * margin
}

/// The windows of two different blocks of one color do not overlap, where the margin is at most half
/// a block: committing them touches no voxel twice, in whatever order or at the same time.
pub proof fn law_same_color_windows_disjoint(
    a: int,
    b: int,
    wa: Window,
    wb: Window,
    bsx: int,
    nx: int,
    ny: int,
    nz: int,
    margin: int,
    x: int,
    y: int,
    z: int,
)
    requires
        0 < bsx,
        0 <= nx,
        0 <= ny,
        0 <= nz,
        0 <= margin,
        2 * margin <= bsx,
        0 <= a < nx * ny * nz,
        0 <= b < nx * ny * nz,
        a != b,
        crate::solver::color_of(nx, ny, a) == crate::solver::color_of(nx, ny, b),
        is_window_of(wa, bsx, nx, ny, a, margin),
        is_window_of(wb, bsx, nx, ny, b, margin),
    ensures
        !(wa.has(x, y, z) && wb.has(x, y, z)),
{
    crate::solver::law_same_color_apart(nx, ny, nz, a, b);
    lemma_apart(crate::layout::coord_x(a, nx), crate::layout::coord_x(b, nx), bsx);
    lemma_apart(crate::layout::coord_y(a, nx, ny), crate::layout::coord_y(b, nx, ny), bsx);
    lemma_apart(crate::layout::coord_z(a, nx, ny), crate::layout::coord_z(b, nx, ny), bsx);
}

proof fn lemma_apart(p: int, q: int, bsx: int)
    requires
        0 < bsx,
    ensures
        p - q >= 2 ==> bsx * p >= bsx * q + 2 * bsx,
        p - q <= -2 ==> bsx * q >= bsx * p + 2 * bsx,
{
    assert(p - q >= 2 ==> bsx * p >= bsx * q + 2 * bsx) by (nonlinear_arith)
        requires
            0 < bsx,
    ;
    assert(p - q <= -2 ==> bsx * q >= bsx * p + 2 * bsx) by (nonlinear_arith)
        requires
            0 < bsx,
    ;
}

/// Windows that do not overlap can be committed in either order: the voxels come out the same, where
/// `combine` gives one result for every two values.
pub proof fn law_disjoint_commits_commute<D, const BSX: usize, const N: usize, C: Fn(D, D) -> D>(
    g: SparseGrid<D, BSX, N>,
    ga: SparseGrid<D, BSX, N>,
    gab: SparseGrid<D, BSX, N>,
    gb: SparseGrid<D, BSX, N>,
    gba: SparseGrid<D, BSX, N>,
    combine: &C,
    wa: Window,
    da: Seq<D>,
    wb: Window,
    db: Seq<D>,
    x: int,
    y: int,
    z: int,
) where D: Copy + Default + Send + Sync
    requires
        g.wf(),
        committed(g, ga, combine, wa, da),
        committed(ga, gab, combine, wb, db),
        committed(g, gb, combine, wb, db),
        committed(gb, gba, combine, wa, da),
        !(wa.has(x, y, z) && wb.has(x, y, z)),
        forall|a: D, b: D, r: D, s: D|
            #![trigger call_ensures(*combine, (a, b), r), call_ensures(*combine, (a, b), s)]
            call_ensures(*combine, (a, b), r) && call_ensures(*combine, (a, b), s) ==> r == s,
        g.has_voxel(x, y, z),
    ensures
        gab.voxel(x, y, z) == gba.voxel(x, y, z),
{
    g.lemma_ids(x, y, z);
    let b = g.bid_of(x, y, z);
    assert(ga.kind(b) == g.kind(b));
    assert(gb.kind(b) == g.kind(b));
    assert(ga.voxel(x, y, z) == ga.voxel(x, y, z));
    assert(gb.voxel(x, y, z) == gb.voxel(x, y, z));
}

/// The ranks below `n` of the blocks with color `c`, in order.
pub open spec fn ranks_of_color(nx: int, ny: int, blocks: Seq<usize>, c: int, n: int) -> Seq<usize>
    decreases n,
{
    if n <= 0 {
        seq![]
    } else {
        let rest = ranks_of_color(nx, ny, blocks, c, n - 1);
        if crate::solver::color_of(nx, ny, blocks[n - 1] as int) == c {
            rest.push((n - 1) as usize)
        } else {
            rest
        }
    }
}

/// The ranks in the order of their colors, for the colors below `c`.
pub open spec fn color_order(nx: int, ny: int, blocks: Seq<usize>, c: int) -> Seq<usize>
    decreases c,
{
    if c <= 0 {
        seq![]
    } else {
        color_order(nx, ny, blocks, c - 1) + ranks_of_color(
            nx,
            ny,
            blocks,
            c - 1,
            blocks.len() as int,
        )
    }
}

proof fn lemma_ranks_of_color(nx: int, ny: int, blocks: Seq<usize>, c: int, n: int, r: usize)
    requires
        0 <= n <= blocks.len() <= usize::MAX,
    ensures
        ranks_of_color(nx, ny, blocks, c, n).contains(r) <==> r < n && crate::solver::color_of(
            nx,
            ny,
            blocks[r as int] as int,
        ) == c,
        ranks_of_color(nx, ny, blocks, c, n).no_duplicates(),
    decreases n,
{
    if n > 0 {
        let rest = ranks_of_color(nx, ny, blocks, c, n - 1);
        let last = (n - 1) as usize;
        lemma_ranks_of_color(nx, ny, blocks, c, n - 1, r);
        lemma_ranks_of_color(nx, ny, blocks, c, n - 1, last);
        if crate::solver::color_of(nx, ny, blocks[n - 1] as int) == c {
            let all = rest.push(last);
            assert(all.contains(r) <==> rest.contains(r) || r == last) by {
                assert(all[rest.len() as int] == last);
                if rest.contains(r) {
                    let k = choose|k: int| 0 <= k < rest.len() && rest[k] == r;
                    assert(all[k] == r);
                }
            }
        }
    }
}

proof fn lemma_color_order(nx: int, ny: int, blocks: Seq<usize>, c: int, r: usize)
    requires
        0 <= c,
        blocks.len() <= usize::MAX,
    ensures
        color_order(nx, ny, blocks, c).contains(r) <==> r < blocks.len() && 0
            <= crate::solver::color_of(nx, ny, blocks[r as int] as int) < c,
        color_order(nx, ny, blocks, c).no_duplicates(),
    decreases c,
{
    if c > 0 {
        let rest = color_order(nx, ny, blocks, c - 1);
        let more = ranks_of_color(nx, ny, blocks, c - 1, blocks.len() as int);
        let all = rest + more;
        lemma_color_order(nx, ny, blocks, c - 1, r);
        lemma_ranks_of_color(nx, ny, blocks, c - 1, blocks.len() as int, r);
        assert(all.contains(r) <==> rest.contains(r) || more.contains(r)) by {
            if rest.contains(r) {
                let k = choose|k: int| 0 <= k < rest.len() && rest[k] == r;
                assert(all[k] == r);
            }
            if more.contains(r) {
                let k = choose|k: int| 0 <= k < more.len() && more[k] == r;
                assert(all[rest.len() + k] == r);
            }
        }
        assert forall|i: int, j: int| 0 <= i < j < all.len() implies all[i] != all[j] by {
            if i < rest.len() && rest.len() <= j {
                lemma_color_order(nx, ny, blocks, c - 1, all[i]);
                lemma_ranks_of_color(nx, ny, blocks, c - 1, blocks.len() as int, all[i]);
                assert(rest.contains(all[i]));
                if all[i] == all[j] {
                    assert(more[j - rest.len()] == all[i]);
                    assert(more.contains(all[i]));
                }
            }
        }
    }
}

/// Going through the colors visits the particles of every block, and those of none twice.
pub proof fn law_colors_visit_all(nx: int, ny: int, blocks: Seq<usize>, r: usize)
    requires
        blocks.len() <= usize::MAX,
    ensures
        color_order(nx, ny, blocks, 8).contains(r) <==> r < blocks.len(),
        color_order(nx, ny, blocks, 8).no_duplicates(),
{
    lemma_color_order(nx, ny, blocks, 8, r);
}

/// What is splatted, and how: the particles' footprints in block-major order, the blocks they are in,
/// and where those of each block start.
pub struct SplatPlan {
    /// Voxels that each particle reaches.
    pub boxes: Vec<VoxelBox>,
    /// Blocks with at least one particle.
    pub particle_blocks: Vec<usize>,
    /// Start offsets of the blocks, and the number of particles at the end.
    pub starts: Vec<usize>,
    /// How far the footprint of a particle reaches beyond its block.
    pub margin: usize,
}

impl SplatPlan {
    /// The plan fits the grid.
    pub open spec fn fits<D, const BSX: usize, const N: usize>(
        &self,
        grid: &SparseGrid<D, BSX, N>,
    ) -> bool where D: Copy + Default + Send + Sync {
        &&& self.starts@.len() == self.particle_blocks@.len() + 1
        &&& forall|r: int|
            0 <= r < self.particle_blocks@.len() ==> #[trigger] self.starts@[r] <= self.starts@[r + 1]
                <= self.boxes@.len()
        &&& forall|r: int|
            0 <= r < self.particle_blocks@.len() ==> (#[trigger] self.particle_blocks@[r])
                < grid.n_blocks
        &&& grid.sx + BSX + 2 * self.margin <= i32::MAX
        &&& grid.sy + BSX + 2 * self.margin <= i32::MAX
        &&& grid.sz + BSX + 2 * self.margin <= i32::MAX
        &&& (BSX + 2 * self.margin) * (BSX + 2 * self.margin) * (BSX + 2 * self.margin) <= usize::MAX
    }
}

/// What splatting the particles of the block with rank `r` makes of the grid.
pub open spec fn block_splatted<
    D,
    const BSX: usize,
    const N: usize,
    V: Fn(usize, i32, i32, i32) -> D,
    M: Fn(D, D) -> D,
    C: Fn(D, D) -> D,
>(
    before: SparseGrid<D, BSX, N>,
    after: SparseGrid<D, BSX, N>,
    plan: &SplatPlan,
    r: usize,
    value: &V,
    merge: &M,
    combine: &C,
    full: D,
) -> bool where D: Copy + Default + Send + Sync {
    exists|win: Window, data: Seq<D>|
        {
            &&& is_window_of(
                win,
                BSX as int,
                before.nx as int,
                before.ny as int,
                plan.particle_blocks@[r as int] as int,
                plan.margin as int,
            )
            &&& is_staged(
                value,
                merge,
                full,
                plan.boxes@,
                plan.starts@[r as int] as int,
                plan.starts@[r + 1] as int,
                win,
                data,
            )
            &&& #[trigger] committed(before, after, combine, win, data)
        }
}

/// What splatting the blocks of `ranks`, one after the other, makes of the grid.
pub open spec fn ranks_splatted<
    D,
    const BSX: usize,
    const N: usize,
    V: Fn(usize, i32, i32, i32) -> D,
    M: Fn(D, D) -> D,
    C: Fn(D, D) -> D,
>(
    before: SparseGrid<D, BSX, N>,
    after: SparseGrid<D, BSX, N>,
    plan: &SplatPlan,
    ranks: Seq<usize>,
    value: &V,
    merge: &M,
    combine: &C,
    full: D,
) -> bool where D: Copy + Default + Send + Sync
    decreases ranks.len(),
{
    if ranks.len() == 0 {
        after == before
    } else {
        let r = ranks.last();
        exists|mid: SparseGrid<D, BSX, N>|
            ranks_splatted(before, mid, plan, ranks.drop_last(), value, merge, combine, full)
                && #[trigger] block_splatted(mid, after, plan, r, value, merge, combine, full)
    }
}

/// The window of block `bid`.
fn window_of<D, const BSX: usize, const N: usize>(
    grid: &SparseGrid<D, BSX, N>,
    bid: usize,
    margin: usize,
) -> (r: Window) where D: Copy + Default + Send + Sync
    requires
        grid.wf(),
        bid < grid.n_blocks,
        grid.sx + BSX + 2 * margin <= i32::MAX,
        grid.sy + BSX + 2 * margin <= i32::MAX,
        grid.sz + BSX + 2 * margin <= i32::MAX,
        (BSX + 2 * margin) * (BSX + 2 * margin) * (BSX + 2 * margin) <= usize::MAX,
    ensures
        r.wf(),
        is_window_of(
            r,
            BSX as int,
            grid.nx as int,
            grid.ny as int,
            bid as int,
            margin as int,
        ),
{
    let (bx, by, bz) = grid.get_block_coords_by_id(bid);
    proof {
        crate::multires::halo::lemma_origin(bx as int, grid.sx as int, BSX as int);
        crate::multires::halo::lemma_origin(by as int, grid.sy as int, BSX as int);
        crate::multires::halo::lemma_origin(bz as int, grid.sz as int, BSX as int);
    }
    let m: i32 = margin as i32;
    Window {
        x0: (BSX * bx) as i32 - m,
        y0: (BSX * by) as i32 - m,
        z0: (BSX * bz) as i32 - m,
        edge: BSX + 2 * margin,
    }
}

/// The ranks of the blocks with color `c`, in order.
fn color_ranks<D, const BSX: usize, const N: usize>(
    grid: &SparseGrid<D, BSX, N>,
    blocks: &Vec<usize>,
    c: usize,
) -> (r: Vec<usize>) where D: Copy + Default + Send + Sync
    requires
        grid.wf(),
        forall|i: int| 0 <= i < blocks@.len() ==> (#[trigger] blocks@[i]) < grid.n_blocks,
    ensures
        r@ == ranks_of_color(
            grid.nx as int,
            grid.ny as int,
            blocks@,
            c as int,
            blocks@.len() as int,
        ),
        forall|i: int| 0 <= i < r@.len() ==> (#[trigger] r@[i]) < blocks@.len(),
{
    let mut r: Vec<usize> = Vec::new();
    let mut i: usize = 0;
    while i < blocks.len()
        invariant
            i <= blocks@.len(),
            grid.wf(),
            forall|k: int| 0 <= k < blocks@.len() ==> (#[trigger] blocks@[k]) < grid.n_blocks,
            r@ == ranks_of_color(grid.nx as int, grid.ny as int, blocks@, c as int, i as int),
            forall|k: int| 0 <= k < r@.len() ==> (#[trigger] r@[k]) < i,
        decreases blocks@.len() - i,
    {
        assert(blocks@[i as int] < grid.n_blocks);
        let (bx, by, bz) = grid.get_block_coords_by_id(blocks[i]);
        if bx % 2 + 2 * (by % 2) + 4 * (bz % 2) == c {
            r.push(i);
        }
        i = i + 1;
    }
    r
}

proof fn lemma_splat_one_more<
    D,
    const BSX: usize,
    const N: usize,
    V: Fn(usize, i32, i32, i32) -> D,
    M: Fn(D, D) -> D,
    C: Fn(D, D) -> D,
>(
    before: SparseGrid<D, BSX, N>,
    mid: SparseGrid<D, BSX, N>,
    after: SparseGrid<D, BSX, N>,
    plan: &SplatPlan,
    ranks: Seq<usize>,
    r: usize,
    value: &V,
    merge: &M,
    combine: &C,
    full: D,
) where D: Copy + Default + Send + Sync
    requires
        ranks_splatted(before, mid, plan, ranks, value, merge, combine, full),
        block_splatted(mid, after, plan, r, value, merge, combine, full),
    ensures
        ranks_splatted(before, after, plan, ranks.push(r), value, merge, combine, full),
{
    assert(ranks.push(r).drop_last() =~= ranks);
    assert(ranks.push(r).last() == r);
}

/// Splats all particles into the grid, color by color: the blocks of a color are staged in parallel,
/// and committed one after the other.
pub fn splat<
    D,
    const BSX: usize,
    const N: usize,
    V: Fn(usize, i32, i32, i32) -> D + Send + Sync,
    M: Fn(D, D) -> D + Send + Sync,
    C: Fn(D, D) -> D,
>(
    grid: &mut SparseGrid<D, BSX, N>,
    plan: &SplatPlan,
    value: &V,
    merge: &M,
    combine: &C,
    full: D,
) where D: Copy + Default + Send + Sync
    requires
        old(grid).wf(),
        plan.fits(old(grid)),
        callable(value, merge, combine),
    ensures
        final(grid).wf(),
        final(grid).same_shape(old(grid)),
        final(grid).spec_free() == old(grid).spec_free(),
        forall|b: int|
            0 <= b < old(grid).n_blocks ==> #[trigger] final(grid).kind(b) == old(grid).kind(b),
        ranks_splatted(
            *old(grid),
            *final(grid),
            plan,
            color_order(old(grid).nx as int, old(grid).ny as int, plan.particle_blocks@, 8),
            value,
            merge,
            combine,
            full,
        ),
{
    let ghost nx = grid.nx as int;
    let ghost ny = grid.ny as int;
    let ghost blocks = plan.particle_blocks@;
    let mut c: usize = 0;
    while c < 8
        invariant
            c <= 8,
            grid.wf(),
            grid.same_shape(old(grid)),
            grid.spec_free() == old(grid).spec_free(),
            forall|b: int|
                0 <= b < old(grid).n_blocks ==> #[trigger] grid.kind(b) == old(grid).kind(b),
            plan.fits(old(grid)),
            callable(value, merge, combine),
            nx == old(grid).nx,
            ny == old(grid).ny,
            blocks == plan.particle_blocks@,
            ranks_splatted(
                *old(grid),
                *grid,
                plan,
                color_order(nx, ny, blocks, c as int),
                value,
                merge,
                combine,
                full,
            ),
        decreases 8 - c,
    {
        let view: &SparseGrid<D, BSX, N> = &*grid;
        let ranks: Vec<usize> = color_ranks(view, &plan.particle_blocks, c);
        let ranks_ref: &Vec<usize> = &ranks;
        let work = |i: usize| -> (r: Vec<D>)
            requires
                view.wf(),
                plan.fits(view),
                forall|i: usize, x: i32, y: i32, z: i32| #[trigger]
                    call_requires(*value, (i, x, y, z)),
                forall|a: D, b: D| #[trigger] call_requires(*merge, (a, b)),
                i < ranks_ref@.len(),
                ranks_ref@[i as int] < plan.particle_blocks@.len(),
            ensures
                exists|win: Window|
                    #![trigger win.wf()]
                    win.wf() && is_window_of(
                        win,
                        BSX as int,
                        view.nx as int,
                        view.ny as int,
                        plan.particle_blocks@[ranks_ref@[i as int] as int] as int,
                        plan.margin as int,
                    ) && is_staged(
                        value,
                        merge,
                        full,
                        plan.boxes@,
                        plan.starts@[ranks_ref@[i as int] as int] as int,
                        plan.starts@[ranks_ref@[i as int] + 1] as int,
                        win,
                        r@,
                    ),
        {
            let rank: usize = ranks_ref[i];
            assert(plan.particle_blocks@[rank as int] < view.n_blocks);
            assert(plan.starts@[rank as int] <= plan.starts@[rank + 1]);
            assert(rank + 1 < plan.starts.len());
            let win: Window = window_of(view, plan.particle_blocks[rank], plan.margin);
            stage(value, merge, full, &plan.boxes, plan.starts[rank], plan.starts[rank + 1], win)
        };
        let staged: Vec<Vec<D>> = crate::par::map_index(ranks.len(), work);
        proof {
            assert forall|i: int| 0 <= i < ranks@.len() implies staged_ok::<D, BSX, N, V, M>(
                nx,
                ny,
                plan,
                ranks@[i],
                value,
                merge,
                full,
                (#[trigger] staged@[i])@,
            ) by {
                assert(staged@[(i as usize) as int] == staged@[i]);
            }
        }
        let ghost done = color_order(nx, ny, blocks, c as int);
        let mut i: usize = 0;
        proof {
            assert(done + ranks@.take(0) =~= done);
        }
        while i < ranks.len()
            invariant
                i <= ranks@.len(),
                grid.wf(),
                grid.same_shape(old(grid)),
                grid.spec_free() == old(grid).spec_free(),
                forall|b: int|
                    0 <= b < old(grid).n_blocks ==> #[trigger] grid.kind(b) == old(grid).kind(b),
                plan.fits(old(grid)),
                callable(value, merge, combine),
                nx == old(grid).nx,
                ny == old(grid).ny,
                forall|k: int|
                    0 <= k < ranks@.len() ==> (#[trigger] ranks@[k]) < plan.particle_blocks@.len(),
                staged@.len() == ranks@.len(),
                forall|k: int|
                    0 <= k < ranks@.len() ==> staged_ok::<D, BSX, N, V, M>(
                        nx,
                        ny,
                        plan,
                        ranks@[k],
                        value,
                        merge,
                        full,
                        (#[trigger] staged@[k])@,
                    ),
                ranks_splatted(
                    *old(grid),
                    *grid,
                    plan,
                    done + ranks@.take(i as int),
                    value,
                    merge,
                    combine,
                    full,
                ),
            decreases ranks@.len() - i,
        {
            let ghost prior = *grid;
            let rank: usize = ranks[i];
            assert(plan.particle_blocks@[rank as int] < grid.n_blocks);
            let win: Window = window_of(grid, plan.particle_blocks[rank], plan.margin);
            proof {
                assert(staged_ok::<D, BSX, N, V, M>(
                    nx,
                    ny,
                    plan,
                    rank,
                    value,
                    merge,
                    full,
                    staged@[i as int]@,
                ));
                let w2 = choose|w2: Window|
                    #![trigger w2.wf()]
                    w2.wf() && is_window_of(
                        w2,
                        BSX as int,
                        nx,
                        ny,
                        plan.particle_blocks@[rank as int] as int,
                        plan.margin as int,
                    ) && is_staged(
                        value,
                        merge,
                        full,
                        plan.boxes@,
                        plan.starts@[rank as int] as int,
                        plan.starts@[rank + 1] as int,
                        w2,
                        staged@[i as int]@,
                    );
                assert(w2 == win);
            }
            commit(grid, combine, win, &staged[i]);
            proof {
                assert(committed(prior, *grid, combine, win, staged@[i as int]@));
                assert(block_splatted(prior, *grid, plan, rank, value, merge, combine, full));
                lemma_splat_one_more(
                    *old(grid),
                    prior,
                    *grid,
                    plan,
                    done + ranks@.take(i as int),
                    rank,
                    value,
                    merge,
                    combine,
                    full,
                );
                assert((done + ranks@.take(i as int)).push(rank) =~= done + ranks@.take(i + 1));
            }
            i = i + 1;
        }
        proof {
            assert(ranks@.take(ranks@.len() as int) =~= ranks@);
        }
        c = c + 1;
    }
}

/// `data` is the staging buffer of the block with rank `r`.
spec fn staged_ok<
    D,
    const BSX: usize,
    const N: usize,
    V: Fn(usize, i32, i32, i32) -> D,
    M: Fn(D, D) -> D,
>(
    nx: int,
    ny: int,
    plan: &SplatPlan,
    r: usize,
    value: &V,
    merge: &M,
    full: D,
    data: Seq<D>,
) -> bool {
    exists|win: Window|
        #![trigger win.wf()]
        win.wf() && is_window_of(
            win,
            BSX as int,
            nx,
            ny,
            plan.particle_blocks@[r as int] as int,
            plan.margin as int,
        ) && is_staged(
            value,
            merge,
            full,
            plan.boxes@,
            plan.starts@[r as int] as int,
            plan.starts@[r + 1] as int,
            win,
            data,
        )
}

/// A window is a cube of voxels: it holds those from its corner up to its edge along each axis, row
/// by row and layer by layer, x fastest.
pub proof fn law_window_cells(w: Window, x: int, y: int, z: int)
    ensures
        w.has(x, y, z) <==> w.x0 <= x < w.x0 + w.edge && w.y0 <= y < w.y0 + w.edge && w.z0 <= z < w.z0
            + w.edge,
        w.index(x, y, z) == (x - w.x0) + w.edge * (y - w.y0) + w.edge * w.edge * (z - w.z0),
{
    let e = w.edge as int;
    let (j, k) = (y - w.y0, z - w.z0);
    assert(j * e == e * j && k * (e * e) == e * e * k) by (nonlinear_arith);
}

/// The window of the block at `(bx, by, bz)` holds the voxels of the block and those around it up
/// to the margin, the same along all axes.
pub proof fn law_window_around_block(
    w: Window,
    bsx: int,
    nx: int,
    ny: int,
    nz: int,
    bx: int,
    by: int,
    bz: int,
    margin: int,
    x: int,
    y: int,
    z: int,
)
    requires
        0 <= bx < nx,
        0 <= by < ny,
        0 <= bz < nz,
        is_window_of(w, bsx, nx, ny, bx + nx * by + nx * ny * bz, margin),
    ensures
        w.has(x, y, z) <==> bsx * bx - margin <= x < bsx * bx + bsx + margin && bsx * by - margin <= y
            < bsx * by + bsx + margin && bsx * bz - margin <= z < bsx * bz + bsx + margin,
{
    crate::layout::law_coords_of_cell(bx, by, bz, nx, ny, nz);
}

/// A box holds the voxels between its corners, both included.
pub proof fn law_box_voxels(b: VoxelBox, x: int, y: int, z: int)
    ensures
        b.has(x, y, z) <==> b.x1 <= x <= b.x2 && b.y1 <= y <= b.y2 && b.z1 <= z <= b.z2,
{
}

/// The blocks are gone through color by color, and those of one color in the order of the list.
pub proof fn law_colors_in_order(nx: int, ny: int, blocks: Seq<usize>, c: int, i: int, j: int)
    requires
        blocks.len() <= usize::MAX,
        0 <= c,
        0 <= i < j < color_order(nx, ny, blocks, c).len(),
    ensures
        ({
            let (a, b) = (color_order(nx, ny, blocks, c)[i], color_order(nx, ny, blocks, c)[j]);
            let (p, q) = (
                crate::solver::color_of(nx, ny, blocks[a as int] as int),
                crate::solver::color_of(nx, ny, blocks[b as int] as int),
            );
            p < q || (p == q && a < b)
        }),
    decreases c,
{
    if c > 0 {
        let rest = color_order(nx, ny, blocks, c - 1);
        let more = ranks_of_color(nx, ny, blocks, c - 1, blocks.len() as int);
        let all = rest + more;
        if j < rest.len() {
            law_colors_in_order(nx, ny, blocks, c - 1, i, j);
        } else {
            let b = more[j - rest.len()];
            assert(more.contains(b));
            lemma_ranks_of_color(nx, ny, blocks, c - 1, blocks.len() as int, b);
            if i < rest.len() {
                assert(rest.contains(rest[i]));
                lemma_color_order(nx, ny, blocks, c - 1, rest[i]);
            } else {
                assert(more.contains(more[i - rest.len()]));
                lemma_ranks_of_color(
                    nx,
                    ny,
                    blocks,
                    c - 1,
                    blocks.len() as int,
                    more[i - rest.len()],
                );
                lemma_ranks_increase(
                    nx,
                    ny,
                    blocks,
                    c - 1,
                    blocks.len() as int,
                    i - rest.len(),
                    j - rest.len(),
                );
            }
        }
    }
}

proof fn lemma_ranks_increase(nx: int, ny: int, blocks: Seq<usize>, c: int, n: int, i: int, j: int)
    requires
        0 <= n <= blocks.len() <= usize::MAX,
        0 <= i < j < ranks_of_color(nx, ny, blocks, c, n).len(),
    ensures
        ranks_of_color(nx, ny, blocks, c, n)[i] < ranks_of_color(nx, ny, blocks, c, n)[j],
    decreases n,
{
    if n > 0 {
        let rest = ranks_of_color(nx, ny, blocks, c, n - 1);
        if j < rest.len() {
            lemma_ranks_increase(nx, ny, blocks, c, n - 1, i, j);
        } else {
            assert(rest.contains(rest[i]));
            lemma_ranks_of_color(nx, ny, blocks, c, n - 1, rest[i]);
        }
    }
}

/// What a commit does to a voxel: inside the window, in a block that has memory of its own, it
/// becomes the combination of what it was and what the window holds for it; else it is what it was.
pub proof fn law_commit_voxel<D, const BSX: usize, const N: usize, C: Fn(D, D) -> D>(
    before: SparseGrid<D, BSX, N>,
    after: SparseGrid<D, BSX, N>,
    combine: &C,
    w: Window,
    data: Seq<D>,
    x: int,
    y: int,
    z: int,
) where D: Copy + Default + Send + Sync
    requires
        committed(before, after, combine, w, data),
        0 <= x < before.sx,
        0 <= y < before.sy,
        0 <= z < before.sz,
    ensures
        ({
            let inside = w.x0 <= x < w.x0 + w.edge && w.y0 <= y < w.y0 + w.edge && w.z0 <= z < w.z0
                + w.edge;
            let i = (x - w.x0) + w.edge * (y - w.y0) + w.edge * w.edge * (z - w.z0);
            if inside && before.kind(before.bid_of(x, y, z)) is Allocated {
                call_ensures(*combine, (before.voxel(x, y, z), data[i]), after.voxel(x, y, z))
            } else {
                after.voxel(x, y, z) == before.voxel(x, y, z)
            }
        }),
{
    law_window_cells(w, x, y, z);
    assert(before.has_voxel(x, y, z));
    assert(after.voxel(x, y, z) == after.voxel(x, y, z));
}

} // verus!
