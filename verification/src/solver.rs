//! In-place smoothing of a sparse grid in eight colors.
//!
//! Blocks are colored by the parity of their coordinates. Blocks of one color never touch, so no
//! block of a color lies in the halo of another, and all blocks of a color can be updated at once.

use crate::channel::Scalar;
use crate::math::boundary::BoundaryCondition;
use crate::math::gather::Dequant;
use crate::multires::halo::HaloBlock;
use crate::multires::sort::{morton3, sort_keyed};
use crate::sparse_grid::{BlockKind, SparseGrid};
use vstd::prelude::*;

verus! {

/// The per-block stencil to apply.
#[derive(Clone, Copy, Debug, PartialEq, Eq, Structural)]
pub enum Stencil {
    /// Laplacian smoothing over 7 points.
    Laplacian,
    /// Mean-curvature flow over 19 taps.
    MeanCurvature,
    /// Bi-Laplacian smoothing over 25 taps.
    BiLaplacian,
}

impl Stencil {
    /// The width of the halo that the stencil reads.
    pub open spec fn halo(self) -> int {
        match self {
            Stencil::Laplacian => 1,
            Stencil::MeanCurvature => 1,
            Stencil::BiLaplacian => 2,
        }
    }

    /// The stencil reads all of the halo, and not the faces alone.
    pub open spec fn reads_full_halo(self) -> bool {
        match self {
            Stencil::Laplacian => false,
            Stencil::MeanCurvature => true,
            Stencil::BiLaplacian => true,
        }
    }
}

/// Parameters of one solve.
#[derive(Clone, Copy, Debug, PartialEq, Eq, Structural)]
pub struct PdeParams {
    /// The time step.
    pub dt: Scalar,
    /// The number of sweeps over all eight colors.
    pub iterations: usize,
    /// Whether results are clamped to the unit interval.
    pub do_constr_zero_one: bool,
}

/// The color of the block at the given coordinates: the parities of x, y and z.
pub open spec fn color_at(bx: int, by: int, bz: int) -> int {
    bx % 2 + 2 * (by % 2) + 4 * (bz % 2)
}

/// The color of block `bid` in a grid of `nx * ny` blocks a slice.
pub open spec fn color_of(nx: int, ny: int, bid: int) -> int {
    color_at(
        crate::layout::coord_x(bid, nx),
        crate::layout::coord_y(bid, nx, ny),
        crate::layout::coord_z(bid, nx, ny),
    )
}

/// The sort key of block `bid`: its Morton code.
pub open spec fn morton_key(nx: int, ny: int, bid: u32) -> u64 {
    crate::multires::sort::morton_code(
        crate::layout::coord_x(bid as int, nx) as u32,
        crate::layout::coord_y(bid as int, nx, ny) as u32,
        crate::layout::coord_z(bid as int, nx, ny) as u32,
    ) as u64
}

/// The ids of `s` that have color `c`, in their order.
pub open spec fn of_color(nx: int, ny: int, s: Seq<u32>, c: int) -> Seq<u32>
    decreases s.len(),
{
    if s.len() == 0 {
        s
    } else {
        let rest = of_color(nx, ny, s.drop_last(), c);
        if color_of(nx, ny, s.last() as int) == c {
            rest.push(s.last())
        } else {
            rest
        }
    }
}

/// `buckets` are the eight colors of `active`, each sorted by Morton code.
pub open spec fn are_color_buckets(
    nx: int,
    ny: int,
    active: Seq<u32>,
    buckets: Seq<Vec<u32>>,
) -> bool {
    &&& buckets.len() == 8
    &&& forall|c: int|
        0 <= c < 8 ==> crate::multires::sort::sorted_by(
            of_color(nx, ny, active, c),
            (#[trigger] buckets[c])@,
            |bid: u32| morton_key(nx, ny, bid),
        )
}

/// Splits the active list into the eight colors, and sorts each by Morton code for locality.
pub fn build_color_buckets<D, const BSX: usize, const N: usize>(
    grid: &SparseGrid<D, BSX, N>,
    active: &Vec<u32>,
) -> (r: Vec<Vec<u32>>) where D: Copy + Default + Send + Sync
    requires
        grid.wf(),
        forall|i: int| 0 <= i < active@.len() ==> (#[trigger] active@[i]) < grid.n_blocks,
    ensures
        are_color_buckets(grid.nx as int, grid.ny as int, active@, r@),
        forall|c: int, i: int|
            0 <= c < 8 && 0 <= i < r@[c]@.len() ==> (#[trigger] r@[c]@[i]) < grid.n_blocks,
{
    let ghost nx = grid.nx as int;
    let ghost ny = grid.ny as int;
    let ghost key = |bid: u32| morton_key(nx, ny, bid);
    let mut keyed: Vec<Vec<(u64, u32)>> = Vec::with_capacity(8);
    let mut c: usize = 0;
    while c < 8
        invariant
            c <= 8,
            keyed@.len() == c,
            forall|k: int| 0 <= k < c ==> (#[trigger] keyed@[k])@ == Seq::<(u64, u32)>::empty(),
        decreases 8 - c,
    {
        keyed.push(Vec::new());
        c = c + 1;
    }
    proof {
        assert forall|k: int| 0 <= k < 8 implies (#[trigger] keyed@[k])@ == crate::multires::sort::keyed(
            of_color(nx, ny, active@.take(0), k),
            key,
        ) by {
            assert(keyed@[k]@ =~= crate::multires::sort::keyed(
                of_color(nx, ny, active@.take(0), k),
                key,
            ));
        }
    }
    let mut i: usize = 0;
    while i < active.len()
        invariant
            grid.wf(),
            nx == grid.nx,
            ny == grid.ny,
            key == (|bid: u32| morton_key(nx, ny, bid)),
            forall|k: int| 0 <= k < active@.len() ==> (#[trigger] active@[k]) < grid.n_blocks,
            i <= active@.len(),
            keyed@.len() == 8,
            forall|k: int|
                0 <= k < 8 ==> (#[trigger] keyed@[k])@ == crate::multires::sort::keyed(
                    of_color(nx, ny, active@.take(i as int), k),
                    key,
                ),
        decreases active@.len() - i,
    {
        let bid: u32 = active[i];
        assert(active@[i as int] < grid.n_blocks);
        let (bx, by, bz) = grid.get_block_coords_by_id(bid as usize);
        let color: usize = bx % 2 + 2 * (by % 2) + 4 * (bz % 2);
        let k: u64 = morton3(bx as u32, by as u32, bz as u32) as u64;
        let ghost before = keyed@;
        proof {
            assert(k == key(bid));
            assert(active@.take(i + 1).drop_last() =~= active@.take(i as int));
            assert(active@.take(i + 1).last() == bid);
        }
        keyed[color].push((k, bid));
        proof {
            assert forall|c: int| 0 <= c < 8 implies (#[trigger] keyed@[c])@
                == crate::multires::sort::keyed(of_color(nx, ny, active@.take(i + 1), c), key) by {
                assert(before[c]@ == crate::multires::sort::keyed(
                    of_color(nx, ny, active@.take(i as int), c),
                    key,
                ));
                assert(keyed@[c]@ =~= crate::multires::sort::keyed(
                    of_color(nx, ny, active@.take(i + 1), c),
                    key,
                ));
            }
        }
        i = i + 1;
    }
    proof {
        assert(active@.take(active@.len() as int) =~= active@);
    }
    let mut r: Vec<Vec<u32>> = Vec::with_capacity(8);
    let mut c: usize = 0;
    while c < 8
        invariant
            grid.wf(),
            nx == grid.nx,
            ny == grid.ny,
            key == (|bid: u32| morton_key(nx, ny, bid)),
            forall|k: int| 0 <= k < active@.len() ==> (#[trigger] active@[k]) < grid.n_blocks,
            c <= 8,
            keyed@.len() == 8,
            forall|k: int|
                c <= k < 8 ==> (#[trigger] keyed@[k])@ == crate::multires::sort::keyed(
                    of_color(nx, ny, active@, k),
                    key,
                ),
            r@.len() == c,
            forall|k: int|
                0 <= k < c ==> crate::multires::sort::sorted_by(
                    of_color(nx, ny, active@, k),
                    (#[trigger] r@[k])@,
                    key,
                ),
            forall|k: int, i: int|
                0 <= k < c && 0 <= i < r@[k]@.len() ==> (#[trigger] r@[k]@[i]) < grid.n_blocks,
        decreases 8 - c,
    {
        let pairs = &mut keyed[c];
        sort_keyed(pairs);
        let mut ids: Vec<u32> = Vec::with_capacity(pairs.len());
        let mut j: usize = 0;
        while j < pairs.len()
            invariant
                j <= pairs@.len(),
                ids@ == Seq::new(j as nat, |k: int| pairs@[k].1),
            decreases pairs@.len() - j,
        {
            ids.push(pairs[j].1);
            j = j + 1;
        }
        proof {
            crate::multires::sort::lemma_sorted_ids(
                of_color(nx, ny, active@, c as int),
                pairs@,
                ids@,
                key,
            );
            lemma_bucket_ids(nx, ny, active@, c as int, ids@, grid.n_blocks as int);
        }
        r.push(ids);
        c = c + 1;
    }
    r
}

proof fn lemma_of_color_contains(nx: int, ny: int, s: Seq<u32>, c: int, id: u32)
    requires
        of_color(nx, ny, s, c).contains(id),
    ensures
        s.contains(id),
        color_of(nx, ny, id as int) == c,
    decreases s.len(),
{
    if s.len() > 0 {
        let rest = of_color(nx, ny, s.drop_last(), c);
        let all = of_color(nx, ny, s, c);
        let i = choose|i: int| 0 <= i < all.len() && all[i] == id;
        assert(s[s.len() - 1] == s.last());
        if i < rest.len() {
            assert(rest[i] == id);
            lemma_of_color_contains(nx, ny, s.drop_last(), c, id);
            let j = choose|j: int| 0 <= j < s.drop_last().len() && s.drop_last()[j] == id;
            assert(s[j] == id);
        }
    }
}

proof fn lemma_bucket_ids(nx: int, ny: int, active: Seq<u32>, c: int, ids: Seq<u32>, n: int)
    requires
        ids.to_multiset() == of_color(nx, ny, active, c).to_multiset(),
        forall|k: int| 0 <= k < active.len() ==> (#[trigger] active[k]) < n,
    ensures
        forall|i: int| 0 <= i < ids.len() ==> (#[trigger] ids[i]) < n,
{
    broadcast use vstd::seq_lib::group_to_multiset_ensures;

    assert forall|i: int| 0 <= i < ids.len() implies (#[trigger] ids[i]) < n by {
        assert(ids.contains(ids[i]));
        assert(of_color(nx, ny, active, c).to_multiset().count(ids[i]) > 0);
        lemma_of_color_contains(nx, ny, active, c, ids[i]);
    }
}

/// Two different blocks of one color do not touch: along some axis they are two or more apart.
pub proof fn law_same_color_apart(nx: int, ny: int, nz: int, a: int, b: int)
    requires
        0 <= nx,
        0 <= ny,
        0 <= nz,
        0 <= a < nx * ny * nz,
        0 <= b < nx * ny * nz,
        a != b,
        color_of(nx, ny, a) == color_of(nx, ny, b),
    ensures
        ({
            let dx = crate::layout::coord_x(a, nx) - crate::layout::coord_x(b, nx);
            let dy = crate::layout::coord_y(a, nx, ny) - crate::layout::coord_y(b, nx, ny);
            let dz = crate::layout::coord_z(a, nx, ny) - crate::layout::coord_z(b, nx, ny);
            dx >= 2 || dx <= -2 || dy >= 2 || dy <= -2 || dz >= 2 || dz <= -2
        }),
{
    crate::layout::lemma_coords3(a, nx, ny, nz);
    crate::layout::lemma_coords3(b, nx, ny, nz);
}

proof fn lemma_div_between(r: int, b: int, lo: int, hi: int)
    requires
        0 < b,
        b * lo <= r < b * (hi + 1),
    ensures
        lo <= r / b <= hi,
{
    vstd::arithmetic::div_mod::lemma_fundamental_div_mod(r, b);
    vstd::arithmetic::div_mod::lemma_mod_bound(r, b);
    let q = r / b;
    assert(lo <= q) by (nonlinear_arith)
        requires
            b * lo <= r,
            r < b * q + b,
            0 < b,
    ;
    assert(q <= hi) by (nonlinear_arith)
        requires
            r < b * (hi + 1),
            b * q <= r,
            0 < b,
    ;
}

/// A halo index of block `k`, mirrored into the domain, lies in block `k` or in one next to it.
proof fn lemma_halo_near(g: int, k: int, s: int, b: int, halo: int)
    requires
        1 <= halo <= 2,
        halo <= b,
        0 <= k,
        0 <= b * k < s,
        b * k - halo <= g < b * k + b + halo,
    ensures
        crate::math::boundary::resolved(g, s - 1, BoundaryCondition::Neumann) is Some,
        ({
            let r = crate::math::boundary::resolved(g, s - 1, BoundaryCondition::Neumann)->0;
            0 <= r < s && k - 1 <= r / b <= k + 1
        }),
{
    crate::math::boundary::law_resolved_in_domain(g, s - 1, BoundaryCondition::Neumann);
    let r = crate::math::boundary::resolved(g, s - 1, BoundaryCondition::Neumann)->0;
    let p = 2 * s;
    assert(b * (k - 1) == b * k - b && b * (k + 2) == b * k + 2 * b) by (nonlinear_arith);
    assert(k >= 1 ==> b * k >= b) by (nonlinear_arith)
        requires
            0 < b,
    ;
    if g < 0 {
        assert(k == 0);
        vstd::arithmetic::div_mod::lemma_fundamental_div_mod_converse(g, p, -1, g + p);
    } else if g >= s {
        if g < p {
            vstd::arithmetic::div_mod::lemma_small_mod(g as nat, p as nat);
        }
    }
    assert(b * (k - 1) <= r < b * (k + 2));
    lemma_div_between(r, b, k - 1, k + 1);
}

/// Changing other blocks of its color leaves all that the halo of block `a` reads as it is.
pub proof fn law_same_color_halo_unchanged<D, const BSX: usize, const N: usize>(
    g1: SparseGrid<D, BSX, N>,
    g2: SparseGrid<D, BSX, N>,
    a: int,
    halo: int,
    x: int,
    y: int,
    z: int,
) where D: Copy + Default + Send + Sync
    requires
        g1.wf(),
        g2.wf(),
        g2.same_shape(&g1),
        0 <= a < g1.n_blocks,
        forall|b: int|
            0 <= b < g1.n_blocks && (b == a || color_of(g1.nx as int, g1.ny as int, b) != color_of(
                g1.nx as int,
                g1.ny as int,
                a,
            )) ==> #[trigger] g2.same_block(&g1, b),
        1 <= halo <= 2,
        halo <= BSX,
        0 <= x < BSX + 2 * halo,
        0 <= y < BSX + 2 * halo,
        0 <= z < BSX + 2 * halo,
    ensures
        halo_element(&g2, a, halo, x, y, z) == halo_element(&g1, a, halo, x, y, z),
{
    let b = BSX as int;
    let (nx, ny, nz) = (g1.nx as int, g1.ny as int, g1.nz as int);
    let (sx, sy, sz) = (g1.sx as int, g1.sy as int, g1.sz as int);
    crate::layout::lemma_coords3(a, nx, ny, nz);
    let (kx, ky, kz) = (
        crate::layout::coord_x(a, nx),
        crate::layout::coord_y(a, nx, ny),
        crate::layout::coord_z(a, nx, ny),
    );
    crate::multires::halo::lemma_origin(kx, sx, b);
    crate::multires::halo::lemma_origin(ky, sy, b);
    crate::multires::halo::lemma_origin(kz, sz, b);
    lemma_halo_near(b * kx + x - halo, kx, sx, b, halo);
    lemma_halo_near(b * ky + y - halo, ky, sy, b, halo);
    lemma_halo_near(b * kz + z - halo, kz, sz, b, halo);
    let bc = BoundaryCondition::Neumann;
    let rx = crate::math::boundary::resolved(b * kx + x - halo, sx - 1, bc)->0;
    let ry = crate::math::boundary::resolved(b * ky + y - halo, sy - 1, bc)->0;
    let rz = crate::math::boundary::resolved(b * kz + z - halo, sz - 1, bc)->0;
    g1.lemma_ids(rx, ry, rz);
    let bid = g1.bid_of(rx, ry, rz);
    crate::layout::lemma_index3(rx / b, ry / b, rz / b, nx, ny, nz);
    crate::layout::lemma_coords3(bid, nx, ny, nz);
    if bid != a && color_of(nx, ny, bid) == color_of(nx, ny, a) {
        law_same_color_apart(nx, ny, nz, a, bid);
    }
    assert(g2.same_block(&g1, bid));
    assert(g2.block_value(bid, SparseGrid::<D, BSX, N>::vid_of(rx, ry, rz)) == g1.block_value(
        bid,
        SparseGrid::<D, BSX, N>::vid_of(rx, ry, rz),
    ));
}

/// The element that cell `(x, y, z)` of the halo of block `bid` holds.
pub open spec fn halo_element<D, const BSX: usize, const N: usize>(
    grid: &SparseGrid<D, BSX, N>,
    bid: int,
    halo: int,
    x: int,
    y: int,
    z: int,
) -> D where D: Copy + Default + Send + Sync {
    crate::math::gather::element_at(
        grid,
        BSX * crate::layout::coord_x(bid, grid.nx as int) + x - halo,
        BSX * crate::layout::coord_y(bid, grid.nx as int, grid.ny as int) + y - halo,
        BSX * crate::layout::coord_z(bid, grid.nx as int, grid.ny as int) + z - halo,
        BoundaryCondition::Neumann,
    )
}

/// `h` is the halo of block `bid`, as far as it is filled.
pub open spec fn is_halo_of<
    D,
    O,
    const BSX: usize,
    const N: usize,
    const HSX: usize,
>(grid: &SparseGrid<D, BSX, N>, bid: int, halo: int, full: bool, h: HaloBlock<O, BSX, HSX>) -> bool where
    D: Dequant<O>,
    O: Copy + Default,
 {
    &&& h.wf()
    &&& forall|x: int, y: int, z: int|
        0 <= x < HSX && 0 <= y < HSX && 0 <= z < HSX && crate::multires::halo::is_filled(
            x,
            y,
            z,
            halo,
            BSX as int,
            full,
        ) ==> #[trigger] h.at(x, y, z) == halo_element(grid, bid, halo, x, y, z).spec_dequant()
}

/// `data` is what `kernel` gives for the halo of block `bid`, the time step and whether to clamp.
pub open spec fn is_update<
    D,
    O,
    const BSX: usize,
    const N: usize,
    const HSX: usize,
    K: Fn(&HaloBlock<O, BSX, HSX>, Scalar, bool) -> Vec<D>,
>(
    grid: &SparseGrid<D, BSX, N>,
    kernel: &K,
    params: PdeParams,
    bid: int,
    halo: int,
    full: bool,
    data: Seq<D>,
) -> bool where
    D: Dequant<O>,
    O: Copy + Default,
 {
    exists|h: HaloBlock<O, BSX, HSX>, v: Vec<D>|
        is_halo_of(grid, bid, halo, full, h) && #[trigger] call_ensures(
            *kernel,
            (&h, params.dt, params.do_constr_zero_one),
            v,
        ) && v@ == data
}

/// What one pass over the blocks of `bucket` makes of the grid: each of them that is allocated holds
/// what the kernel gave for its halo before the pass, and all else stays as it was.
pub open spec fn color_pass<
    D,
    O,
    const BSX: usize,
    const N: usize,
    const HSX: usize,
    K: Fn(&HaloBlock<O, BSX, HSX>, Scalar, bool) -> Vec<D>,
>(
    before: SparseGrid<D, BSX, N>,
    after: SparseGrid<D, BSX, N>,
    bucket: Seq<u32>,
    kernel: &K,
    params: PdeParams,
    halo: int,
    full: bool,
) -> bool where D: Dequant<O>, O: Copy + Default {
    &&& after.wf()
    &&& after.same_shape(&before)
    &&& after.spec_free() == before.spec_free()
    &&& forall|b: int|
        0 <= b < before.n_blocks ==> #[trigger] after.kind(b) == before.kind(b)
    &&& forall|b: int|
        0 <= b < before.n_blocks && !(bucket.contains(b as u32) && b <= u32::MAX && before.kind(
            b,
        ) is Allocated) ==> #[trigger] after.same_block(&before, b)
    &&& forall|b: u32|
        #![trigger bucket.contains(b)]
        bucket.contains(b) && before.kind(b as int) is Allocated ==> is_update(
            &before,
            kernel,
            params,
            b as int,
            halo,
            full,
            after.block_data(b as int),
        )
}

/// An update of block `a` is one in any grid that differs in other blocks of its color alone.
proof fn lemma_update_transfers<
    D,
    O,
    const BSX: usize,
    const N: usize,
    const HSX: usize,
    K: Fn(&HaloBlock<O, BSX, HSX>, Scalar, bool) -> Vec<D>,
>(
    g1: SparseGrid<D, BSX, N>,
    g2: SparseGrid<D, BSX, N>,
    kernel: &K,
    params: PdeParams,
    a: int,
    halo: int,
    full: bool,
    data: Seq<D>,
) where D: Dequant<O>, O: Copy + Default
    requires
        g1.wf(),
        g2.wf(),
        g2.same_shape(&g1),
        0 <= a < g1.n_blocks,
        forall|b: int|
            0 <= b < g1.n_blocks && (b == a || color_of(g1.nx as int, g1.ny as int, b) != color_of(
                g1.nx as int,
                g1.ny as int,
                a,
            )) ==> #[trigger] g2.same_block(&g1, b),
        is_update(&g1, kernel, params, a, halo, full, data),
        1 <= halo <= 2,
        halo <= BSX,
        HSX == BSX + 2 * halo,
    ensures
        is_update(&g2, kernel, params, a, halo, full, data),
{
    let (h, v) = choose|h: HaloBlock<O, BSX, HSX>, v: Vec<D>|
        is_halo_of(&g1, a, halo, full, h) && #[trigger] call_ensures(
            *kernel,
            (&h, params.dt, params.do_constr_zero_one),
            v,
        ) && v@ == data;
    assert forall|x: int, y: int, z: int|
        0 <= x < HSX && 0 <= y < HSX && 0 <= z < HSX && crate::multires::halo::is_filled(
            x,
            y,
            z,
            halo,
            BSX as int,
            full,
        ) implies #[trigger] h.at(x, y, z) == halo_element(
        &g2,
        a,
        halo,
        x,
        y,
        z,
    ).spec_dequant() by {
        law_same_color_halo_unchanged(g1, g2, a, halo, x, y, z);
    }
    assert(is_halo_of(&g2, a, halo, full, h));
}

/// The blocks of a color can be updated in place, at the same time or one after the other: whichever
/// other blocks of the color have been updated by then, what the kernel gives for the halo of a block
/// in the grid as it is (`mid`) is what the block ends up with.
pub proof fn law_color_pass_is_gauss_seidel<
    D,
    O,
    const BSX: usize,
    const N: usize,
    const HSX: usize,
    K: Fn(&HaloBlock<O, BSX, HSX>, Scalar, bool) -> Vec<D>,
>(
    before: SparseGrid<D, BSX, N>,
    mid: SparseGrid<D, BSX, N>,
    after: SparseGrid<D, BSX, N>,
    bucket: Seq<u32>,
    color: int,
    kernel: &K,
    params: PdeParams,
    halo: int,
    full: bool,
    a: u32,
) where D: Dequant<O>, O: Copy + Default
    requires
        before.wf(),
        mid.wf(),
        mid.same_shape(&before),
        color_pass(before, after, bucket, kernel, params, halo, full),
        forall|i: int|
            0 <= i < bucket.len() ==> (#[trigger] bucket[i]) < before.n_blocks && color_of(
                before.nx as int,
                before.ny as int,
                bucket[i] as int,
            ) == color,
        forall|b: int|
            0 <= b < before.n_blocks ==> #[trigger] mid.same_block(&before, b) || mid.same_block(
                &after,
                b,
            ),
        mid.same_block(&before, a as int),
        bucket.contains(a),
        before.kind(a as int) is Allocated,
        1 <= halo <= 2,
        halo <= BSX,
        HSX == BSX + 2 * halo,
    ensures
        is_update(&mid, kernel, params, a as int, halo, full, after.block_data(a as int)),
{
    let (nx, ny) = (before.nx as int, before.ny as int);
    let k = choose|k: int| 0 <= k < bucket.len() && bucket[k] == a;
    assert(bucket[k] < before.n_blocks);
    assert forall|b: int|
        0 <= b < before.n_blocks && (b == a || color_of(nx, ny, b) != color_of(
            nx,
            ny,
            a as int,
        )) implies #[trigger] mid.same_block(&before, b) by {
        if b != a {
            if bucket.contains(b as u32) && b <= u32::MAX {
                let j = choose|j: int| 0 <= j < bucket.len() && bucket[j] == b as u32;
                assert(color_of(nx, ny, bucket[j] as int) == color);
            }
            assert(after.same_block(&before, b));
        }
    }
    lemma_update_transfers(
        before,
        mid,
        kernel,
        params,
        a as int,
        halo,
        full,
        after.block_data(a as int),
    );
}

/// What taking the blocks of `order` one after the other makes of the grid, each on the grid as the
/// ones before left it.
pub open spec fn serial_pass<
    D,
    O,
    const BSX: usize,
    const N: usize,
    const HSX: usize,
    K: Fn(&HaloBlock<O, BSX, HSX>, Scalar, bool) -> Vec<D>,
>(
    before: SparseGrid<D, BSX, N>,
    after: SparseGrid<D, BSX, N>,
    order: Seq<u32>,
    kernel: &K,
    params: PdeParams,
    halo: int,
    full: bool,
) -> bool where D: Dequant<O>, O: Copy + Default
    decreases order.len(),
{
    if order.len() == 0 {
        after == before
    } else {
        exists|mid: SparseGrid<D, BSX, N>|
            serial_pass(before, mid, order.drop_last(), kernel, params, halo, full)
                && #[trigger] color_pass(
                mid,
                after,
                seq![order.last()],
                kernel,
                params,
                halo,
                full,
            )
    }
}

/// Taking the blocks of a color one after the other, in any order and each on the grid as the ones
/// before left it, is a pass over the color.
pub proof fn law_serial_is_color_pass<
    D,
    O,
    const BSX: usize,
    const N: usize,
    const HSX: usize,
    K: Fn(&HaloBlock<O, BSX, HSX>, Scalar, bool) -> Vec<D>,
>(
    before: SparseGrid<D, BSX, N>,
    after: SparseGrid<D, BSX, N>,
    order: Seq<u32>,
    color: int,
    kernel: &K,
    params: PdeParams,
    halo: int,
    full: bool,
) where D: Dequant<O>, O: Copy + Default
    requires
        before.wf(),
        serial_pass(before, after, order, kernel, params, halo, full),
        order.no_duplicates(),
        forall|i: int|
            0 <= i < order.len() ==> (#[trigger] order[i]) < before.n_blocks && color_of(
                before.nx as int,
                before.ny as int,
                order[i] as int,
            ) == color,
        1 <= halo <= 2,
        halo <= BSX,
        HSX == BSX + 2 * halo,
    ensures
        color_pass(before, after, order, kernel, params, halo, full),
    decreases order.len(),
{
    if order.len() > 0 {
        let (rest, last) = (order.drop_last(), order.last());
        let mid = choose|mid: SparseGrid<D, BSX, N>|
            serial_pass(before, mid, rest, kernel, params, halo, full) && #[trigger] color_pass(
                mid,
                after,
                seq![last],
                kernel,
                params,
                halo,
                full,
            );
        assert forall|i: int| 0 <= i < rest.len() implies (#[trigger] rest[i]) < before.n_blocks
            && color_of(before.nx as int, before.ny as int, rest[i] as int) == color by {
            assert(order[i] == rest[i]);
        }
        law_serial_is_color_pass(before, mid, rest, color, kernel, params, halo, full);
        assert(order[order.len() - 1] == last);
        assert(seq![last][0] == last);
        assert forall|b: u32| #[trigger] order.contains(b) implies rest.contains(b) || b == last by {
            let i = choose|i: int| 0 <= i < order.len() && order[i] == b;
            if i < rest.len() {
                assert(rest[i] == b);
            }
        }
        assert forall|b: u32| #[trigger] rest.contains(b) implies order.contains(b) && b != last by {
            let i = choose|i: int| 0 <= i < rest.len() && rest[i] == b;
            assert(order[i] == b);
        }
        assert(order.contains(last));
        assert forall|b: int| 0 <= b < before.n_blocks implies #[trigger] after.kind(b)
            == before.kind(b) by {
            assert(after.kind(b) == mid.kind(b));
            assert(mid.kind(b) == before.kind(b));
        }
        assert forall|b: int|
            0 <= b < before.n_blocks && !(order.contains(b as u32) && b <= u32::MAX && before.kind(
                b,
            ) is Allocated) implies #[trigger] after.same_block(&before, b) by {
            assert(mid.kind(b) == before.kind(b));
            assert(seq![last].contains(b as u32) ==> b as u32 == last);
            assert(after.same_block(&mid, b));
            assert(mid.same_block(&before, b));
            assert forall|v: int| #[trigger] after.block_value(b, v) == before.block_value(b, v) by {
                assert(after.block_value(b, v) == mid.block_value(b, v));
                assert(mid.block_value(b, v) == before.block_value(b, v));
            }
        }
        assert forall|b: u32|
            #![trigger order.contains(b)]
            order.contains(b) && before.kind(b as int) is Allocated implies is_update(
            &before,
            kernel,
            params,
            b as int,
            halo,
            full,
            after.block_data(b as int),
        ) by {
            let i = choose|i: int| 0 <= i < order.len() && order[i] == b;
            assert(order[i] < before.n_blocks);
            assert(mid.kind(b as int) == before.kind(b as int));
            if b == last {
                assert(seq![last].contains(b));
                lemma_serial_step(before, mid, rest, color, kernel, params, b, halo, full, after);
            } else {
                assert(!seq![last].contains(b));
                assert(b as int as u32 == b);
                assert(after.same_block(&mid, b as int));
                assert(after.block_data(b as int) =~= mid.block_data(b as int)) by {
                    assert forall|v: int| 0 <= v < N implies after.block_data(b as int)[v]
                        == mid.block_data(b as int)[v] by {
                        assert(after.block_value(b as int, v) == mid.block_value(b as int, v));
                    }
                }
                assert(rest.contains(b));
            }
        }
    }
}

proof fn lemma_serial_step<
    D,
    O,
    const BSX: usize,
    const N: usize,
    const HSX: usize,
    K: Fn(&HaloBlock<O, BSX, HSX>, Scalar, bool) -> Vec<D>,
>(
    g0: SparseGrid<D, BSX, N>,
    mid: SparseGrid<D, BSX, N>,
    rest: Seq<u32>,
    color: int,
    kernel: &K,
    params: PdeParams,
    a: u32,
    halo: int,
    full: bool,
    after: SparseGrid<D, BSX, N>,
) where D: Dequant<O>, O: Copy + Default
    requires
        g0.wf(),
        color_pass(g0, mid, rest, kernel, params, halo, full),
        forall|i: int|
            0 <= i < rest.len() ==> color_of(
                g0.nx as int,
                g0.ny as int,
                (#[trigger] rest[i]) as int,
            ) == color,
        a < g0.n_blocks,
        color_of(g0.nx as int, g0.ny as int, a as int) == color,
        !rest.contains(a),
        is_update(&mid, kernel, params, a as int, halo, full, after.block_data(a as int)),
        1 <= halo <= 2,
        halo <= BSX,
        HSX == BSX + 2 * halo,
    ensures
        is_update(&g0, kernel, params, a as int, halo, full, after.block_data(a as int)),
{
    assert forall|b: int|
        0 <= b < mid.n_blocks && (b == a || color_of(mid.nx as int, mid.ny as int, b) != color_of(
            mid.nx as int,
            mid.ny as int,
            a as int,
        )) implies #[trigger] g0.same_block(&mid, b) by {
        if rest.contains(b as u32) && b <= u32::MAX {
            let i = choose|i: int| 0 <= i < rest.len() && rest[i] == b as u32;
            assert(color_of(g0.nx as int, g0.ny as int, rest[i] as int) == color);
        }
        assert(mid.same_block(&g0, b));
        assert forall|v: int| #[trigger] g0.block_value(b, v) == mid.block_value(b, v) by {
            assert(mid.block_value(b, v) == g0.block_value(b, v));
        }
    }
    lemma_update_transfers(
        mid,
        g0,
        kernel,
        params,
        a as int,
        halo,
        full,
        after.block_data(a as int),
    );
}

/// What `k` passes make of the grid, one color after the other, over and over.
pub open spec fn color_passes<
    D,
    O,
    const BSX: usize,
    const N: usize,
    const HSX: usize,
    K: Fn(&HaloBlock<O, BSX, HSX>, Scalar, bool) -> Vec<D>,
>(
    before: SparseGrid<D, BSX, N>,
    after: SparseGrid<D, BSX, N>,
    buckets: Seq<Vec<u32>>,
    kernel: &K,
    params: PdeParams,
    halo: int,
    full: bool,
    k: int,
) -> bool where D: Dequant<O>, O: Copy + Default
    decreases k,
{
    if k <= 0 {
        after == before
    } else {
        let bucket = buckets[(k - 1) % 8]@;
        exists|mid: SparseGrid<D, BSX, N>|
            color_passes(before, mid, buckets, kernel, params, halo, full, k - 1) && #[trigger] color_pass(
                mid,
                after,
                bucket,
                kernel,
                params,
                halo,
                full,
            )
    }
}

proof fn lemma_one_more_pass<
    D,
    O,
    const BSX: usize,
    const N: usize,
    const HSX: usize,
    K: Fn(&HaloBlock<O, BSX, HSX>, Scalar, bool) -> Vec<D>,
>(
    before: SparseGrid<D, BSX, N>,
    mid: SparseGrid<D, BSX, N>,
    after: SparseGrid<D, BSX, N>,
    buckets: Seq<Vec<u32>>,
    kernel: &K,
    params: PdeParams,
    halo: int,
    full: bool,
    k: int,
) where D: Dequant<O>, O: Copy + Default
    requires
        0 <= k,
        color_passes(before, mid, buckets, kernel, params, halo, full, k),
        color_pass(mid, after, buckets[k % 8]@, kernel, params, halo, full),
    ensures
        color_passes(before, after, buckets, kernel, params, halo, full, k + 1),
{
    assert(color_pass(mid, after, buckets[((k + 1) - 1) % 8]@, kernel, params, halo, full));
}

proof fn lemma_bucket_members(
    nx: int,
    ny: int,
    active: Seq<u32>,
    buckets: Seq<Vec<u32>>,
    c: int,
    id: u32,
)
    requires
        are_color_buckets(nx, ny, active, buckets),
        0 <= c < 8,
    ensures
        buckets[c]@.contains(id) == of_color(nx, ny, active, c).contains(id),
        buckets[c]@.contains(id) ==> active.contains(id),
{
    broadcast use vstd::seq_lib::group_to_multiset_ensures;

    let s = of_color(nx, ny, active, c);
    assert(crate::multires::sort::sorted_by(s, buckets[c]@, |bid: u32| morton_key(nx, ny, bid)));
    assert(buckets[c]@.to_multiset().count(id) == s.to_multiset().count(id));
    if buckets[c]@.contains(id) {
        assert(s.contains(id));
        lemma_of_color_contains(nx, ny, active, c, id);
    }
}

/// Sweeps change the allocated blocks of the active list and nothing else: a block that is not active,
/// or is not allocated, stays as it is, no block changes its kind, and the pool is left alone. So
/// sweeps over no blocks change nothing, and no sweeps at all leave the very grid.
pub proof fn law_sweeps_leave_the_rest<
    D,
    O,
    const BSX: usize,
    const N: usize,
    const HSX: usize,
    K: Fn(&HaloBlock<O, BSX, HSX>, Scalar, bool) -> Vec<D>,
>(
    before: SparseGrid<D, BSX, N>,
    after: SparseGrid<D, BSX, N>,
    active: Seq<u32>,
    buckets: Seq<Vec<u32>>,
    kernel: &K,
    params: PdeParams,
    halo: int,
    full: bool,
    k: int,
) where D: Dequant<O>, O: Copy + Default
    requires
        before.wf(),
        are_color_buckets(before.nx as int, before.ny as int, active, buckets),
        color_passes(before, after, buckets, kernel, params, halo, full, k),
    ensures
        after.wf(),
        after.same_shape(&before),
        after.spec_free() == before.spec_free(),
        forall|b: int| 0 <= b < before.n_blocks ==> #[trigger] after.kind(b) == before.kind(b),
        forall|b: int|
            0 <= b < before.n_blocks && !(before.kind(b) is Allocated && b <= u32::MAX
                && active.contains(b as u32)) ==> #[trigger] after.same_block(&before, b),
        active.len() == 0 ==> forall|b: int|
            0 <= b < before.n_blocks ==> #[trigger] after.same_block(&before, b),
        k <= 0 ==> after == before,
    decreases k,
{
    if k > 0 {
        let c = (k - 1) % 8;
        let bucket = buckets[c]@;
        let mid = choose|mid: SparseGrid<D, BSX, N>|
            color_passes(before, mid, buckets, kernel, params, halo, full, k - 1) && #[trigger]
            color_pass(mid, after, bucket, kernel, params, halo, full);
        law_sweeps_leave_the_rest(
            before,
            mid,
            active,
            buckets,
            kernel,
            params,
            halo,
            full,
            k - 1,
        );
        assert forall|b: int|
            0 <= b < before.n_blocks && !(before.kind(b) is Allocated && b <= u32::MAX
                && active.contains(b as u32)) implies #[trigger] after.same_block(&before, b) by {
            lemma_bucket_members(
                before.nx as int,
                before.ny as int,
                active,
                buckets,
                c,
                b as u32,
            );
            assert(mid.kind(b) == before.kind(b));
            assert(after.same_block(&mid, b));
            assert(mid.same_block(&before, b));
            assert forall|v: int| #[trigger]
                after.block_value(b, v) == before.block_value(b, v) by {
                assert(after.block_value(b, v) == mid.block_value(b, v));
                assert(mid.block_value(b, v) == before.block_value(b, v));
            }
        }
        assert forall|b: int| 0 <= b < before.n_blocks implies #[trigger] after.kind(b)
            == before.kind(b) by {
            assert(after.kind(b) == mid.kind(b));
            assert(mid.kind(b) == before.kind(b));
        }
    }
}

proof fn lemma_of_color_has(nx: int, ny: int, s: Seq<u32>, c: int, id: u32)
    requires
        s.contains(id),
        color_of(nx, ny, id as int) == c,
    ensures
        of_color(nx, ny, s, c).contains(id),
    decreases s.len(),
{
    let i = choose|i: int| 0 <= i < s.len() && s[i] == id;
    let rest = of_color(nx, ny, s.drop_last(), c);
    if i == s.len() - 1 {
        assert(rest.push(id)[rest.len() as int] == id);
    } else {
        assert(s.drop_last()[i] == id);
        lemma_of_color_has(nx, ny, s.drop_last(), c, id);
        let j = choose|j: int| 0 <= j < rest.len() && rest[j] == id;
        assert(of_color(nx, ny, s, c)[j] == id);
    }
}

/// What holds of all values that the kernel gives, such as to lie in the unit interval if it clamps,
/// holds after the first sweep of every voxel of every block that is active and allocated. In the
/// middle of the first sweep it holds of the colors that were passed.
pub proof fn law_sweeps_keep_range<
    D,
    O,
    const BSX: usize,
    const N: usize,
    const HSX: usize,
    K: Fn(&HaloBlock<O, BSX, HSX>, Scalar, bool) -> Vec<D>,
>(
    before: SparseGrid<D, BSX, N>,
    after: SparseGrid<D, BSX, N>,
    active: Seq<u32>,
    buckets: Seq<Vec<u32>>,
    kernel: &K,
    params: PdeParams,
    halo: int,
    full: bool,
    k: int,
    in_range: spec_fn(D) -> bool,
) where D: Dequant<O>, O: Copy + Default
    requires
        before.wf(),
        are_color_buckets(before.nx as int, before.ny as int, active, buckets),
        color_passes(before, after, buckets, kernel, params, halo, full, k),
        forall|h: HaloBlock<O, BSX, HSX>, v: Vec<D>, i: int|
            #![trigger call_ensures(*kernel, (&h, params.dt, params.do_constr_zero_one), v), v@[i]]
            call_ensures(*kernel, (&h, params.dt, params.do_constr_zero_one), v) && 0 <= i
                < v@.len() ==> in_range(v@[i]),
    ensures
        forall|b: u32, v: int|
            active.contains(b) && b < before.n_blocks && before.kind(b as int) is Allocated
                && color_of(before.nx as int, before.ny as int, b as int) < k && 0 <= v < N
                ==> in_range(#[trigger] after.block_value(b as int, v)),
    decreases k,
{
    let (nx, ny) = (before.nx as int, before.ny as int);
    if k <= 0 {
        assert forall|b: u32| #[trigger] color_of(nx, ny, b as int) >= 0 by {}
    } else {
        let c = (k - 1) % 8;
        let bucket = buckets[c]@;
        let mid = choose|mid: SparseGrid<D, BSX, N>|
            color_passes(before, mid, buckets, kernel, params, halo, full, k - 1) && #[trigger]
            color_pass(mid, after, bucket, kernel, params, halo, full);
        law_sweeps_keep_range(
            before,
            mid,
            active,
            buckets,
            kernel,
            params,
            halo,
            full,
            k - 1,
            in_range,
        );
        law_sweeps_leave_the_rest(before, mid, active, buckets, kernel, params, halo, full, k - 1);
        assert forall|b: u32, v: int|
            active.contains(b) && b < before.n_blocks && before.kind(b as int) is Allocated
                && color_of(nx, ny, b as int) < k && 0 <= v < N implies in_range(
            #[trigger] after.block_value(b as int, v),
        ) by {
            lemma_bucket_members(nx, ny, active, buckets, c, b);
            assert(mid.kind(b as int) == before.kind(b as int));
            if color_of(nx, ny, b as int) == c {
                lemma_of_color_has(nx, ny, active, c, b);
            }
            if bucket.contains(b) {
                let data = after.block_data(b as int);
                let (h, w) = choose|h: HaloBlock<O, BSX, HSX>, w: Vec<D>|
                    is_halo_of(&mid, b as int, halo, full, h) && #[trigger] call_ensures(
                        *kernel,
                        (&h, params.dt, params.do_constr_zero_one),
                        w,
                    ) && w@ == data;
                assert(data[v] == after.block_value(b as int, v));
                assert(in_range(w@[v]));
            } else {
                assert(b as int as u32 == b);
                assert(after.same_block(&mid, b as int));
                assert(after.block_value(b as int, v) == mid.block_value(b as int, v));
            }
        }
    }
}

/// What the kernel gives depends on the filled part of the halo and on nothing else.
pub open spec fn is_determined<
    D,
    O,
    const BSX: usize,
    const N: usize,
    const HSX: usize,
    K: Fn(&HaloBlock<O, BSX, HSX>, Scalar, bool) -> Vec<D>,
>(kernel: &K, params: PdeParams, halo: int, full: bool) -> bool where O: Copy + Default {
    forall|h1: HaloBlock<O, BSX, HSX>, v1: Vec<D>, h2: HaloBlock<O, BSX, HSX>, v2: Vec<D>|
        #![trigger call_ensures(*kernel, (&h1, params.dt, params.do_constr_zero_one), v1),
            call_ensures(*kernel, (&h2, params.dt, params.do_constr_zero_one), v2)]
        call_ensures(*kernel, (&h1, params.dt, params.do_constr_zero_one), v1) && call_ensures(
            *kernel,
            (&h2, params.dt, params.do_constr_zero_one),
            v2,
        ) && (forall|x: int, y: int, z: int|
            0 <= x < HSX && 0 <= y < HSX && 0 <= z < HSX && crate::multires::halo::is_filled(
                x,
                y,
                z,
                halo,
                BSX as int,
                full,
            ) ==> #[trigger] h1.at(x, y, z) == h2.at(x, y, z)) ==> v1@ == v2@
}

/// The result of sweeps is fixed by the grid, the active list and the kernel: in whatever order the
/// blocks of a color are listed or taken, each block ends up the same.
pub proof fn law_sweeps_determined<
    D,
    O,
    const BSX: usize,
    const N: usize,
    const HSX: usize,
    K: Fn(&HaloBlock<O, BSX, HSX>, Scalar, bool) -> Vec<D>,
>(
    before: SparseGrid<D, BSX, N>,
    after1: SparseGrid<D, BSX, N>,
    after2: SparseGrid<D, BSX, N>,
    active: Seq<u32>,
    buckets1: Seq<Vec<u32>>,
    buckets2: Seq<Vec<u32>>,
    kernel: &K,
    params: PdeParams,
    halo: int,
    full: bool,
    k: int,
) where D: Dequant<O>, O: Copy + Default
    requires
        before.wf(),
        are_color_buckets(before.nx as int, before.ny as int, active, buckets1),
        are_color_buckets(before.nx as int, before.ny as int, active, buckets2),
        color_passes(before, after1, buckets1, kernel, params, halo, full, k),
        color_passes(before, after2, buckets2, kernel, params, halo, full, k),
        is_determined::<D, O, BSX, N, HSX, K>(kernel, params, halo, full),
        1 <= halo <= 2,
        halo <= BSX,
        HSX == BSX + 2 * halo,
    ensures
        forall|b: int| 0 <= b < before.n_blocks ==> #[trigger] after1.same_block(&after2, b),
    decreases k,
{
    if k > 0 {
        let c = (k - 1) % 8;
        let (bucket1, bucket2) = (buckets1[c]@, buckets2[c]@);
        let m1 = choose|mid: SparseGrid<D, BSX, N>|
            color_passes(before, mid, buckets1, kernel, params, halo, full, k - 1) && #[trigger]
            color_pass(mid, after1, bucket1, kernel, params, halo, full);
        let m2 = choose|mid: SparseGrid<D, BSX, N>|
            color_passes(before, mid, buckets2, kernel, params, halo, full, k - 1) && #[trigger]
            color_pass(mid, after2, bucket2, kernel, params, halo, full);
        law_sweeps_determined(
            before,
            m1,
            m2,
            active,
            buckets1,
            buckets2,
            kernel,
            params,
            halo,
            full,
            k - 1,
        );
        law_sweeps_leave_the_rest(before, m1, active, buckets1, kernel, params, halo, full, k - 1);
        law_sweeps_leave_the_rest(before, m2, active, buckets2, kernel, params, halo, full, k - 1);
        assert forall|b: int| 0 <= b < before.n_blocks implies #[trigger] after1.same_block(
            &after2,
            b,
        ) by {
            let (nx, ny) = (before.nx as int, before.ny as int);
            lemma_bucket_members(nx, ny, active, buckets1, c, b as u32);
            lemma_bucket_members(nx, ny, active, buckets2, c, b as u32);
            assert(m1.same_block(&m2, b));
            assert(after1.kind(b) == m1.kind(b));
            assert(after2.kind(b) == m2.kind(b));
            if bucket1.contains(b as u32) && b <= u32::MAX && m1.kind(b) is Allocated {
                lemma_same_update(m1, m2, after1, after2, kernel, params, b, halo, full);
            } else {
                assert(after1.same_block(&m1, b));
                assert(after2.same_block(&m2, b));
                assert forall|v: int| #[trigger]
                    after1.block_value(b, v) == after2.block_value(b, v) by {
                    assert(after1.block_value(b, v) == m1.block_value(b, v));
                    assert(m1.block_value(b, v) == m2.block_value(b, v));
                    assert(after2.block_value(b, v) == m2.block_value(b, v));
                }
            }
        }
    }
}

proof fn lemma_same_update<
    D,
    O,
    const BSX: usize,
    const N: usize,
    const HSX: usize,
    K: Fn(&HaloBlock<O, BSX, HSX>, Scalar, bool) -> Vec<D>,
>(
    m1: SparseGrid<D, BSX, N>,
    m2: SparseGrid<D, BSX, N>,
    after1: SparseGrid<D, BSX, N>,
    after2: SparseGrid<D, BSX, N>,
    kernel: &K,
    params: PdeParams,
    b: int,
    halo: int,
    full: bool,
) where D: Dequant<O>, O: Copy + Default
    requires
        m1.wf(),
        m2.wf(),
        after1.wf(),
        after2.wf(),
        m2.same_shape(&m1),
        after1.same_shape(&m1),
        after2.same_shape(&m1),
        0 <= b < m1.n_blocks,
        forall|a: int| 0 <= a < m1.n_blocks ==> #[trigger] m1.same_block(&m2, a),
        m1.kind(b) is Allocated,
        after1.kind(b) == m1.kind(b),
        after2.kind(b) == m1.kind(b),
        is_update(&m1, kernel, params, b, halo, full, after1.block_data(b)),
        is_update(&m2, kernel, params, b, halo, full, after2.block_data(b)),
        is_determined::<D, O, BSX, N, HSX, K>(kernel, params, halo, full),
        1 <= halo <= 2,
        halo <= BSX,
        HSX == BSX + 2 * halo,
    ensures
        after1.same_block(&after2, b),
{
    let (d1, d2) = (after1.block_data(b), after2.block_data(b));
    let (h1, v1) = choose|h: HaloBlock<O, BSX, HSX>, v: Vec<D>|
        is_halo_of(&m1, b, halo, full, h) && #[trigger] call_ensures(
            *kernel,
            (&h, params.dt, params.do_constr_zero_one),
            v,
        ) && v@ == d1;
    let (h2, v2) = choose|h: HaloBlock<O, BSX, HSX>, v: Vec<D>|
        is_halo_of(&m2, b, halo, full, h) && #[trigger] call_ensures(
            *kernel,
            (&h, params.dt, params.do_constr_zero_one),
            v,
        ) && v@ == d2;
    assert forall|a: int| 0 <= a < m1.n_blocks implies #[trigger] m2.same_block(&m1, a) by {
        assert(m1.same_block(&m2, a));
        assert forall|v: int| #[trigger] m2.block_value(a, v) == m1.block_value(a, v) by {
            assert(m1.block_value(a, v) == m2.block_value(a, v));
        }
    }
    assert forall|x: int, y: int, z: int|
        0 <= x < HSX && 0 <= y < HSX && 0 <= z < HSX && crate::multires::halo::is_filled(
            x,
            y,
            z,
            halo,
            BSX as int,
            full,
        ) implies #[trigger] h1.at(x, y, z) == h2.at(x, y, z) by {
        law_same_color_halo_unchanged(m1, m2, b, halo, x, y, z);
        assert(h2.at(x, y, z) == halo_element(&m2, b, halo, x, y, z).spec_dequant());
    }
    assert(d1 == d2);
    let p = after1.kind(b)->Allocated_0;
    let (s1, s2) = (
        after1.block_pool.spec_block(p.0 as int).data@,
        after2.block_pool.spec_block(p.0 as int).data@,
    );
    assert forall|v: int| 0 <= v < N implies s1[v] == s2[v] by {
        assert(d1[v] == after1.block_value(b, v));
        assert(d2[v] == after2.block_value(b, v));
    }
    assert(s1 =~= s2);
}

/// What a serial sweep makes of the grid in `k` of its color steps: it visits the colors 0 to 7 in
/// order, over and over, and in each the active blocks of the color in the order of the active list.
pub open spec fn serial_sweep<
    D,
    O,
    const BSX: usize,
    const N: usize,
    const HSX: usize,
    K: Fn(&HaloBlock<O, BSX, HSX>, Scalar, bool) -> Vec<D>,
>(
    before: SparseGrid<D, BSX, N>,
    after: SparseGrid<D, BSX, N>,
    active: Seq<u32>,
    kernel: &K,
    params: PdeParams,
    halo: int,
    full: bool,
    k: int,
) -> bool where D: Dequant<O>, O: Copy + Default
    decreases k,
{
    if k <= 0 {
        after == before
    } else {
        let order = of_color(before.nx as int, before.ny as int, active, (k - 1) % 8);
        exists|mid: SparseGrid<D, BSX, N>|
            serial_sweep(before, mid, active, kernel, params, halo, full, k - 1)
                && #[trigger] serial_pass(mid, after, order, kernel, params, halo, full)
    }
}

proof fn lemma_of_color_distinct(nx: int, ny: int, s: Seq<u32>, c: int)
    requires
        s.no_duplicates(),
    ensures
        of_color(nx, ny, s, c).no_duplicates(),
    decreases s.len(),
{
    if s.len() > 0 {
        let t = s.drop_last();
        let rest = of_color(nx, ny, t, c);
        assert(t.no_duplicates());
        lemma_of_color_distinct(nx, ny, t, c);
        if rest.contains(s.last()) {
            lemma_of_color_contains(nx, ny, t, c, s.last());
            let i = choose|i: int| 0 <= i < t.len() && t[i] == s.last();
            assert(s[i] == s[s.len() - 1]);
        }
        assert forall|i: int, j: int|
            0 <= i < j < of_color(nx, ny, s, c).len() implies of_color(nx, ny, s, c)[i] != of_color(
            nx,
            ny,
            s,
            c,
        )[j] by {
            if j == rest.len() {
                assert(rest.contains(rest[i]));
            }
        }
    }
}

/// A pass depends on which blocks there are to take, and not on how they are listed.
proof fn lemma_pass_of_members<
    D,
    O,
    const BSX: usize,
    const N: usize,
    const HSX: usize,
    K: Fn(&HaloBlock<O, BSX, HSX>, Scalar, bool) -> Vec<D>,
>(
    before: SparseGrid<D, BSX, N>,
    after: SparseGrid<D, BSX, N>,
    a: Seq<u32>,
    b: Seq<u32>,
    kernel: &K,
    params: PdeParams,
    halo: int,
    full: bool,
) where D: Dequant<O>, O: Copy + Default
    requires
        color_pass(before, after, a, kernel, params, halo, full),
        forall|id: u32| #[trigger] a.contains(id) <==> b.contains(id),
    ensures
        color_pass(before, after, b, kernel, params, halo, full),
{
    assert forall|id: u32|
        #![trigger b.contains(id)]
        b.contains(id) && before.kind(id as int) is Allocated implies is_update(
        &before,
        kernel,
        params,
        id as int,
        halo,
        full,
        after.block_data(id as int),
    ) by {
        assert(a.contains(id));
    }
    assert forall|id: int|
        0 <= id < before.n_blocks && !(b.contains(id as u32) && id <= u32::MAX && before.kind(
            id,
        ) is Allocated) implies #[trigger] after.same_block(&before, id) by {
        assert(a.contains(id as u32) == b.contains(id as u32));
    }
}

/// A serial sweep takes the passes of a sweep by colors: whatever it gives, the color passes can give,
/// for every number of steps.
pub proof fn law_serial_sweep_is_color_passes<
    D,
    O,
    const BSX: usize,
    const N: usize,
    const HSX: usize,
    K: Fn(&HaloBlock<O, BSX, HSX>, Scalar, bool) -> Vec<D>,
>(
    before: SparseGrid<D, BSX, N>,
    after: SparseGrid<D, BSX, N>,
    active: Seq<u32>,
    buckets: Seq<Vec<u32>>,
    kernel: &K,
    params: PdeParams,
    halo: int,
    full: bool,
    k: int,
) where D: Dequant<O>, O: Copy + Default
    requires
        before.wf(),
        active.no_duplicates(),
        forall|i: int| 0 <= i < active.len() ==> (#[trigger] active[i]) < before.n_blocks,
        are_color_buckets(before.nx as int, before.ny as int, active, buckets),
        serial_sweep(before, after, active, kernel, params, halo, full, k),
        1 <= halo <= 2,
        halo <= BSX,
        HSX == BSX + 2 * halo,
    ensures
        color_passes(before, after, buckets, kernel, params, halo, full, k),
    decreases k,
{
    if k > 0 {
        let (nx, ny) = (before.nx as int, before.ny as int);
        let c = (k - 1) % 8;
        let order = of_color(nx, ny, active, c);
        let mid = choose|mid: SparseGrid<D, BSX, N>|
            serial_sweep(before, mid, active, kernel, params, halo, full, k - 1)
                && #[trigger] serial_pass(mid, after, order, kernel, params, halo, full);
        law_serial_sweep_is_color_passes(
            before,
            mid,
            active,
            buckets,
            kernel,
            params,
            halo,
            full,
            k - 1,
        );
        law_sweeps_leave_the_rest(before, mid, active, buckets, kernel, params, halo, full, k - 1);
        lemma_of_color_distinct(nx, ny, active, c);
        assert forall|i: int| 0 <= i < order.len() implies (#[trigger] order[i]) < mid.n_blocks
            && color_of(mid.nx as int, mid.ny as int, order[i] as int) == c by {
            assert(order.contains(order[i]));
            lemma_of_color_contains(nx, ny, active, c, order[i]);
            let j = choose|j: int| 0 <= j < active.len() && active[j] == order[i];
            assert(active[j] < before.n_blocks);
        }
        law_serial_is_color_pass(mid, after, order, c, kernel, params, halo, full);
        assert forall|id: u32| #[trigger] order.contains(id) <==> buckets[c]@.contains(id) by {
            lemma_bucket_members(nx, ny, active, buckets, c, id);
        }
        lemma_pass_of_members(mid, after, order, buckets[c]@, kernel, params, halo, full);
        lemma_one_more_pass(before, mid, after, buckets, kernel, params, halo, full, k - 1);
    }
}

/// The colored sweep equals the serial one: if what the kernel gives is fixed by the halo, then after
/// any number of steps, `8 * iterations` of them for so many sweeps, both have the same blocks with the
/// same values, and the same block map.
pub proof fn law_sweep_equals_serial<
    D,
    O,
    const BSX: usize,
    const N: usize,
    const HSX: usize,
    K: Fn(&HaloBlock<O, BSX, HSX>, Scalar, bool) -> Vec<D>,
>(
    before: SparseGrid<D, BSX, N>,
    after: SparseGrid<D, BSX, N>,
    serial: SparseGrid<D, BSX, N>,
    active: Seq<u32>,
    buckets: Seq<Vec<u32>>,
    kernel: &K,
    params: PdeParams,
    halo: int,
    full: bool,
    k: int,
) where D: Dequant<O>, O: Copy + Default
    requires
        before.wf(),
        active.no_duplicates(),
        forall|i: int| 0 <= i < active.len() ==> (#[trigger] active[i]) < before.n_blocks,
        are_color_buckets(before.nx as int, before.ny as int, active, buckets),
        color_passes(before, after, buckets, kernel, params, halo, full, k),
        serial_sweep(before, serial, active, kernel, params, halo, full, k),
        is_determined::<D, O, BSX, N, HSX, K>(kernel, params, halo, full),
        1 <= halo <= 2,
        halo <= BSX,
        HSX == BSX + 2 * halo,
    ensures
        after.same_shape(&serial),
        after.spec_free() == serial.spec_free(),
        forall|b: int| 0 <= b < before.n_blocks ==> #[trigger] after.same_block(&serial, b),
{
    law_serial_sweep_is_color_passes(
        before,
        serial,
        active,
        buckets,
        kernel,
        params,
        halo,
        full,
        k,
    );
    law_sweeps_determined(
        before,
        after,
        serial,
        active,
        buckets,
        buckets,
        kernel,
        params,
        halo,
        full,
        k,
    );
    law_sweeps_leave_the_rest(before, after, active, buckets, kernel, params, halo, full, k);
    law_sweeps_leave_the_rest(before, serial, active, buckets, kernel, params, halo, full, k);
}

/// The kernel can be called on every halo with the given parameters, and gives one value for each voxel
/// of a block.
pub open spec fn is_kernel<
    D,
    O,
    const BSX: usize,
    const N: usize,
    const HSX: usize,
    K: Fn(&HaloBlock<O, BSX, HSX>, Scalar, bool) -> Vec<D>,
>(kernel: &K, params: PdeParams) -> bool where O: Copy + Default {
    &&& forall|h: HaloBlock<O, BSX, HSX>|
        h.wf() ==> #[trigger] call_requires(*kernel, (&h, params.dt, params.do_constr_zero_one))
    &&& forall|h: HaloBlock<O, BSX, HSX>, v: Vec<D>| #[trigger]
        call_ensures(*kernel, (&h, params.dt, params.do_constr_zero_one), v) ==> v@.len() == N
}

/// Updates the allocated blocks of `bucket`: halos and kernels of all of them run in parallel on the
/// grid as it is, and the results are written back.
fn run_color<
    D,
    O,
    const BSX: usize,
    const N: usize,
    const HSX: usize,
    const HALO: usize,
    const FULL: bool,
    K: Fn(&HaloBlock<O, BSX, HSX>, Scalar, bool) -> Vec<D> + Send + Sync,
>(grid: &mut SparseGrid<D, BSX, N>, bucket: &Vec<u32>, kernel: &K, params: PdeParams) where
    D: Dequant<O>,
    O: Copy + Default,

    requires
        old(grid).wf(),
        HSX == BSX + 2 * HALO,
        HSX * HSX <= usize::MAX,
        HSX * HSX * HSX <= usize::MAX,
        crate::math::gather::addressable(old(grid), BoundaryCondition::Neumann),
        old(grid).sx + HSX <= i32::MAX,
        old(grid).sy + HSX <= i32::MAX,
        old(grid).sz + HSX <= i32::MAX,
        forall|i: int| 0 <= i < bucket@.len() ==> (#[trigger] bucket@[i]) < old(grid).n_blocks,
        is_kernel::<D, O, BSX, N, HSX, K>(kernel, params),
    ensures
        color_pass(*old(grid), *final(grid), bucket@, kernel, params, HALO as int, FULL),
{
    let view: &SparseGrid<D, BSX, N> = &*grid;
    let work = |i: usize| -> (r: Option<Vec<D>>)
        requires
            view.wf(),
            HSX == BSX + 2 * HALO,
            HSX * HSX <= usize::MAX,
            HSX * HSX * HSX <= usize::MAX,
            crate::math::gather::addressable(view, BoundaryCondition::Neumann),
            view.sx + HSX <= i32::MAX,
            view.sy + HSX <= i32::MAX,
            view.sz + HSX <= i32::MAX,
            i < bucket@.len(),
            bucket@[i as int] < view.n_blocks,
            is_kernel::<D, O, BSX, N, HSX, K>(kernel, params),
        ensures
            r is Some == view.kind(bucket@[i as int] as int) is Allocated,
            r matches Some(d) ==> d@.len() == N && is_update(
                view,
                kernel,
                params,
                bucket@[i as int] as int,
                HALO as int,
                FULL,
                d@,
            ),
    { update_block::<D, O, BSX, N, HSX, HALO, FULL, K>(view, bucket[i] as usize, kernel, params) };
    let updates: Vec<Option<Vec<D>>> = crate::par::map_index(bucket.len(), work);
    proof {
        assert forall|i: int| 0 <= i < bucket@.len() implies {
            &&& (#[trigger] updates@[i]) is Some == old(grid).kind(bucket@[i] as int) is Allocated
            &&& updates@[i] matches Some(d) ==> d@.len() == N && is_update(
                old(grid),
                kernel,
                params,
                bucket@[i] as int,
                HALO as int,
                FULL,
                d@,
            )
        } by {
            assert(updates@[(i as usize) as int] == updates@[i]);
        }
    }
    let ids: Vec<usize> = widened(bucket);
    proof {
        assert forall|i: int| 0 <= i < bucket@.len() implies #[trigger] ids@[i] == bucket@[i] by {}
    }
    grid.set_blocks(&ids, &updates);
    proof {
        assert forall|b: int|
            0 <= b < old(grid).n_blocks && !(bucket@.contains(b as u32) && b <= u32::MAX && old(
                grid,
            ).kind(b) is Allocated) implies #[trigger] grid.same_block(old(grid), b) by {
            if SparseGrid::<D, BSX, N>::is_updated(ids@, updates@, b) {
                let k = choose|k: int|
                    0 <= k < ids@.len() && #[trigger] ids@[k] == b && updates@[k] is Some;
                assert(bucket@[k] == b as u32);
                assert(bucket@.contains(b as u32));
            }
        }
        assert forall|b: u32|
            #![trigger bucket@.contains(b)]
            bucket@.contains(b) && old(grid).kind(b as int) is Allocated implies is_update(
            old(grid),
            kernel,
            params,
            b as int,
            HALO as int,
            FULL,
            grid.block_data(b as int),
        ) by {
            let k = choose|k: int| 0 <= k < bucket@.len() && bucket@[k] == b;
            assert(updates@[k] is Some);
            assert(ids@[k] == b as int);
            assert(SparseGrid::<D, BSX, N>::is_updated(ids@, updates@, b as int));
            let data = grid.block_data(b as int);
            let j = choose|j: int|
                0 <= j < ids@.len() && #[trigger] ids@[j] == b as int && updates@[j] is Some
                    && updates@[j].unwrap()@ == data;
            assert(updates@[j] is Some);
            assert(bucket@[j] == b);
        }
    }
}

/// Block ids as indices.
fn widened(ids: &Vec<u32>) -> (r: Vec<usize>)
    ensures
        r@ == Seq::new(ids@.len(), |i: int| ids@[i] as usize),
{
    let mut r: Vec<usize> = Vec::with_capacity(ids.len());
    let mut i: usize = 0;
    while i < ids.len()
        invariant
            i <= ids@.len(),
            r@ == Seq::new(i as nat, |k: int| ids@[k] as usize),
        decreases ids@.len() - i,
    {
        r.push(ids[i] as usize);
        i = i + 1;
    }
    r
}

/// The update of block `bid`, or nothing where the block is not allocated.
fn update_block<
    D,
    O,
    const BSX: usize,
    const N: usize,
    const HSX: usize,
    const HALO: usize,
    const FULL: bool,
    K: Fn(&HaloBlock<O, BSX, HSX>, Scalar, bool) -> Vec<D>,
>(grid: &SparseGrid<D, BSX, N>, bid: usize, kernel: &K, params: PdeParams) -> (r: Option<
    Vec<D>,
>) where
    D: Dequant<O>,
    O: Copy + Default,

    requires
        grid.wf(),
        HSX == BSX + 2 * HALO,
        HSX * HSX <= usize::MAX,
        HSX * HSX * HSX <= usize::MAX,
        crate::math::gather::addressable(grid, BoundaryCondition::Neumann),
        grid.sx + HSX <= i32::MAX,
        grid.sy + HSX <= i32::MAX,
        grid.sz + HSX <= i32::MAX,
        bid < grid.n_blocks,
        is_kernel::<D, O, BSX, N, HSX, K>(kernel, params),
    ensures
        r is Some == grid.kind(bid as int) is Allocated,
        r matches Some(d) ==> d@.len() == N && is_update(
            grid,
            kernel,
            params,
            bid as int,
            HALO as int,
            FULL,
            d@,
        ),
{
    match grid.block_kind(bid) {
        BlockKind::Allocated(_) => {
            let mut halo: HaloBlock<O, BSX, HSX> = HaloBlock::new();
            halo.fill::<HALO, FULL, D, N>(grid, bid, BoundaryCondition::Neumann);
            let d: Vec<D> = kernel(&halo, params.dt, params.do_constr_zero_one);
            proof {
                assert(is_halo_of(grid, bid as int, HALO as int, FULL, halo));
                assert(call_ensures(
                    *kernel,
                    (&halo, params.dt, params.do_constr_zero_one),
                    d,
                ));
            }
            Some(d)
        },
        _ => None,
    }
}

/// Runs `params.iterations` sweeps over the eight color buckets.
fn run<
    D,
    O,
    const BSX: usize,
    const N: usize,
    const HSX: usize,
    const HALO: usize,
    const FULL: bool,
    K: Fn(&HaloBlock<O, BSX, HSX>, Scalar, bool) -> Vec<D> + Send + Sync,
>(grid: &mut SparseGrid<D, BSX, N>, buckets: &Vec<Vec<u32>>, kernel: &K, params: PdeParams) where
    D: Dequant<O>,
    O: Copy + Default,

    requires
        old(grid).wf(),
        HSX == BSX + 2 * HALO,
        HSX * HSX <= usize::MAX,
        HSX * HSX * HSX <= usize::MAX,
        crate::math::gather::addressable(old(grid), BoundaryCondition::Neumann),
        old(grid).sx + HSX <= i32::MAX,
        old(grid).sy + HSX <= i32::MAX,
        old(grid).sz + HSX <= i32::MAX,
        buckets@.len() == 8,
        forall|c: int, i: int|
            0 <= c < 8 && 0 <= i < buckets@[c]@.len() ==> (#[trigger] buckets@[c]@[i]) < old(
                grid,
            ).n_blocks,
        is_kernel::<D, O, BSX, N, HSX, K>(kernel, params),
    ensures
        final(grid).wf(),
        final(grid).same_shape(old(grid)),
        color_passes(
            *old(grid),
            *final(grid),
            buckets@,
            kernel,
            params,
            HALO as int,
            FULL,
            8 * params.iterations,
        ),
{
    let iterations: usize = params.iterations;
    let mut it: usize = 0;
    while it < iterations
        invariant
            it <= iterations,
            grid.wf(),
            grid.same_shape(old(grid)),
            HSX == BSX + 2 * HALO,
            HSX * HSX <= usize::MAX,
            HSX * HSX * HSX <= usize::MAX,
            crate::math::gather::addressable(old(grid), BoundaryCondition::Neumann),
            old(grid).sx + HSX <= i32::MAX,
            old(grid).sy + HSX <= i32::MAX,
            old(grid).sz + HSX <= i32::MAX,
            buckets@.len() == 8,
            forall|c: int, i: int|
                0 <= c < 8 && 0 <= i < buckets@[c]@.len() ==> (#[trigger] buckets@[c]@[i]) < old(
                    grid,
                ).n_blocks,
            is_kernel::<D, O, BSX, N, HSX, K>(kernel, params),
            color_passes(*old(grid), *grid, buckets@, kernel, params, HALO as int, FULL, 8 * it),
        decreases iterations - it,
    {
        let mut color: usize = 0;
        while color < 8
            invariant
                color <= 8,
                it < iterations,
                grid.wf(),
                grid.same_shape(old(grid)),
                HSX == BSX + 2 * HALO,
                HSX * HSX <= usize::MAX,
                HSX * HSX * HSX <= usize::MAX,
                crate::math::gather::addressable(old(grid), BoundaryCondition::Neumann),
                old(grid).sx + HSX <= i32::MAX,
                old(grid).sy + HSX <= i32::MAX,
                old(grid).sz + HSX <= i32::MAX,
                buckets@.len() == 8,
                forall|c: int, i: int|
                    0 <= c < 8 && 0 <= i < buckets@[c]@.len() ==> (#[trigger] buckets@[c]@[i])
                        < old(grid).n_blocks,
                is_kernel::<D, O, BSX, N, HSX, K>(kernel, params),
                color_passes(
                    *old(grid),
                    *grid,
                    buckets@,
                    kernel,
                    params,
                    HALO as int,
                    FULL,
                    8 * it + color,
                ),
            decreases 8 - color,
        {
            let ghost prior = *grid;
            run_color::<D, O, BSX, N, HSX, HALO, FULL, K>(grid, &buckets[color], kernel, params);
            proof {
                let k = 8 * it + color;
                assert(k % 8 == color);
                lemma_one_more_pass(
                    *old(grid),
                    prior,
                    *grid,
                    buckets@,
                    kernel,
                    params,
                    HALO as int,
                    FULL,
                    k,
                );
            }
            color = color + 1;
        }
        it = it + 1;
    }
}

/// `after` is `before` after `n` sweeps over the active blocks, each through all the colors.
pub open spec fn is_swept<
    D,
    O,
    const BSX: usize,
    const N: usize,
    const HSX: usize,
    K: Fn(&HaloBlock<O, BSX, HSX>, Scalar, bool) -> Vec<D>,
>(
    before: SparseGrid<D, BSX, N>,
    after: SparseGrid<D, BSX, N>,
    active: Seq<u32>,
    kernel: &K,
    params: PdeParams,
    halo: int,
    full: bool,
    n: int,
) -> bool where D: Dequant<O>, O: Copy + Default {
    exists|buckets: Seq<Vec<u32>>| #[trigger]
        are_color_buckets(before.nx as int, before.ny as int, active, buckets) && color_passes(
            before,
            after,
            buckets,
            kernel,
            params,
            halo,
            full,
            8 * n,
        )
}

/// Smooths the blocks of `active` in place: `params.iterations` sweeps over the eight colors, each
/// block replaced by what `kernel` gives for its halo, the time step and whether to clamp. Blocks that
/// are not allocated are passed over.
pub fn apply_pde<
    D,
    O,
    const BSX: usize,
    const N: usize,
    const HSX: usize,
    K: Fn(&HaloBlock<O, BSX, HSX>, Scalar, bool) -> Vec<D> + Send + Sync,
>(
    grid: &mut SparseGrid<D, BSX, N>,
    active: &Vec<u32>,
    stencil: Stencil,
    params: &PdeParams,
    kernel: &K,
) where D: Dequant<O>, O: Copy + Default
    requires
        old(grid).wf(),
        HSX == BSX + 2 * stencil.halo(),
        HSX * HSX <= usize::MAX,
        HSX * HSX * HSX <= usize::MAX,
        crate::math::gather::addressable(old(grid), BoundaryCondition::Neumann),
        old(grid).sx + HSX <= i32::MAX,
        old(grid).sy + HSX <= i32::MAX,
        old(grid).sz + HSX <= i32::MAX,
        forall|i: int| 0 <= i < active@.len() ==> (#[trigger] active@[i]) < old(grid).n_blocks,
        is_kernel::<D, O, BSX, N, HSX, K>(kernel, *params),
    ensures
        final(grid).wf(),
        final(grid).same_shape(old(grid)),
        is_swept(
            *old(grid),
            *final(grid),
            active@,
            kernel,
            *params,
            stencil.halo(),
            stencil.reads_full_halo(),
            params.iterations as int,
        ),
{
    let buckets: Vec<Vec<u32>> = build_color_buckets(grid, active);
    match stencil {
        Stencil::Laplacian => run::<D, O, BSX, N, HSX, 1, false, K>(
            grid,
            &buckets,
            kernel,
            *params,
        ),
        Stencil::MeanCurvature => run::<D, O, BSX, N, HSX, 1, true, K>(
            grid,
            &buckets,
            kernel,
            *params,
        ),
        Stencil::BiLaplacian => run::<D, O, BSX, N, HSX, 2, true, K>(
            grid,
            &buckets,
            kernel,
            *params,
        ),
    }
    proof {
        assert(are_color_buckets(old(grid).nx as int, old(grid).ny as int, active@, buckets@));
    }
}

/// The color of a block is told by the parities of its coordinates: a step along x changes it by
/// one, a step along y by two and one along z by four, up from even coordinates and down from odd
/// ones.
pub proof fn law_color_steps(nx: int, ny: int, nz: int, x: int, y: int, z: int)
    requires
        0 <= x < nx,
        0 <= y < ny,
        0 <= z < nz,
    ensures
        ({
            let color = |x: int, y: int, z: int| color_of(nx, ny, x + nx * y + nx * ny * z);
            &&& color(0, 0, 0) == 0
            &&& 0 <= color(x, y, z) < 8
            &&& x + 1 < nx ==> color(x + 1, y, z) - color(x, y, z) == if x % 2 == 0 { 1int } else { -1 }
            &&& y + 1 < ny ==> color(x, y + 1, z) - color(x, y, z) == if y % 2 == 0 { 2int } else { -2 }
            &&& z + 1 < nz ==> color(x, y, z + 1) - color(x, y, z) == if z % 2 == 0 { 4int } else { -4 }
        }),
{
    crate::layout::law_coords_of_cell(0, 0, 0, nx, ny, nz);
    crate::layout::law_coords_of_cell(x, y, z, nx, ny, nz);
    if x + 1 < nx {
        crate::layout::law_coords_of_cell(x + 1, y, z, nx, ny, nz);
    }
    if y + 1 < ny {
        crate::layout::law_coords_of_cell(x, y + 1, z, nx, ny, nz);
    }
    if z + 1 < nz {
        crate::layout::law_coords_of_cell(x, y, z + 1, nx, ny, nz);
    }
}

/// The blocks of a color are picked out of a list one by one, in its order: those of two lists are
/// those of the first, then those of the second, and a block alone is picked exactly if it has the
/// color.
pub proof fn law_of_color_splits(nx: int, ny: int, s: Seq<u32>, t: Seq<u32>, c: int, b: u32)
    ensures
        of_color(nx, ny, s + t, c) == of_color(nx, ny, s, c) + of_color(nx, ny, t, c),
        of_color(nx, ny, seq![b], c) == (if color_of(nx, ny, b as int) == c {
            seq![b]
        } else {
            seq![]
        }),
    decreases t.len(),
{
    assert(seq![b].drop_last() =~= seq![]);
    assert(of_color(nx, ny, seq![b].drop_last(), c) =~= seq![]);
    assert(Seq::<u32>::empty().push(b) =~= seq![b]);
    if t.len() == 0 {
        assert(s + t =~= s);
        assert(of_color(nx, ny, s, c) + of_color(nx, ny, t, c) =~= of_color(nx, ny, s, c));
    } else {
        law_of_color_splits(nx, ny, s, t.drop_last(), c, b);
        assert((s + t).drop_last() =~= s + t.drop_last());
        assert((s + t).last() == t.last());
        let (p, q) = (of_color(nx, ny, s, c), of_color(nx, ny, t.drop_last(), c));
        assert((p + q).push(t.last()) =~= p + q.push(t.last()));
    }
}

/// The order within a bucket is that of the Morton codes of the block coordinates.
pub proof fn law_morton_key_of_block(nx: int, ny: int, nz: int, x: int, y: int, z: int)
    requires
        0 <= x < nx,
        0 <= y < ny,
        0 <= z < nz,
        nx * ny * nz <= u32::MAX,
    ensures
        morton_key(nx, ny, (x + nx * y + nx * ny * z) as u32) == crate::multires::sort::morton_code(
            x as u32,
            y as u32,
            z as u32,
        ),
{
    crate::layout::law_coords_of_cell(x, y, z, nx, ny, nz);
}

/// A bucket holds the listed blocks of its color and no others, and its blocks go up by their keys.
pub proof fn law_bucket_blocks(
    nx: int,
    ny: int,
    active: Seq<u32>,
    buckets: Seq<Vec<u32>>,
    c: int,
    b: u32,
    i: int,
    j: int,
)
    requires
        are_color_buckets(nx, ny, active, buckets),
        0 <= c < 8,
    ensures
        buckets.len() == 8,
        buckets[c]@.contains(b) <==> active.contains(b) && color_of(nx, ny, b as int) == c,
        0 <= i < j < buckets[c]@.len() ==> morton_key(nx, ny, buckets[c]@[i]) <= morton_key(
            nx,
            ny,
            buckets[c]@[j],
        ),
{
    let bucket = buckets[c]@;
    lemma_bucket_members(nx, ny, active, buckets, c, b);
    if bucket.contains(b) {
        lemma_of_color_contains(nx, ny, active, c, b);
    }
    if active.contains(b) && color_of(nx, ny, b as int) == c {
        lemma_of_color_has(nx, ny, active, c, b);
    }
    if 0 <= i < j < bucket.len() {
        let (p, q) = (bucket[i], bucket[j]);
        let key = |bid: u32| morton_key(nx, ny, bid);
        assert(key(p) <= key(q));
    }
}

/// A cell of the halo of the block at `(bx, by, bz)` is the element as far from the first voxel of
/// the block as the cell is from the end of the halo, mirrored at the sides of the domain.
pub proof fn law_halo_by_coordinates<D, const BSX: usize, const N: usize>(
    grid: &SparseGrid<D, BSX, N>,
    bx: int,
    by: int,
    bz: int,
    halo: int,
    x: int,
    y: int,
    z: int,
) where D: Copy + Default + Send + Sync
    requires
        0 <= bx < grid.nx,
        0 <= by < grid.ny,
        0 <= bz < grid.nz,
    ensures
        ({
            let e = halo_element(grid, bx + grid.nx * by + grid.nx * grid.ny * bz, halo, x, y, z);
            let (gx, gy, gz) = (BSX * bx + x - halo, BSX * by + y - halo, BSX * bz + z - halo);
            &&& e == crate::math::gather::element_at(grid, gx, gy, gz, BoundaryCondition::Neumann)
            &&& 0 <= gx < grid.sx && 0 <= gy < grid.sy && 0 <= gz < grid.sz ==> e == grid.voxel(
                gx,
                gy,
                gz,
            )
        }),
{
    crate::layout::law_coords_of_cell(
        bx,
        by,
        bz,
        grid.nx as int,
        grid.ny as int,
        grid.nz as int,
    );
}

/// What the kernel is handed for a block: at least the block itself and, along each axis, the cells
/// before and behind it, or all around it with a full halo, each with the element at its place.
pub proof fn law_halo_cells<D, O, const BSX: usize, const N: usize, const HSX: usize>(
    grid: &SparseGrid<D, BSX, N>,
    bid: int,
    halo: int,
    full: bool,
    h: HaloBlock<O, BSX, HSX>,
    x: int,
    y: int,
    z: int,
) where D: Dequant<O>, O: Copy + Default
    requires
        is_halo_of(grid, bid, halo, full, h),
        0 <= x < HSX,
        0 <= y < HSX,
        0 <= z < HSX,
        full || halo <= x < halo + BSX || (halo <= y < halo + BSX && halo <= z < halo + BSX),
    ensures
        h.data@[x + HSX * y + HSX * HSX * z] == halo_element(
            grid,
            bid,
            halo,
            x,
            y,
            z,
        ).spec_dequant(),
{
    let s = HSX as int;
    crate::layout::law_coords_of_cell(x, y, z, s, s, s);
    assert(h.at(x, y, z) == h.data@[x + HSX * y + HSX * HSX * z]);
}

/// The halo of a stencil is as wide as its taps reach, and it is read in full exactly if a tap lies
/// diagonally.
pub proof fn law_halo_fits_taps()
    ensures
        forall|k: int|
            0 <= k < 7 ==> crate::arith::max(
                (#[trigger] crate::math::laplacian::offsets()[k]).0,
                -crate::math::laplacian::offsets()[k].0,
            ) <= Stencil::Laplacian.halo(),
        crate::math::laplacian::offsets()[2].0 == Stencil::Laplacian.halo(),
        forall|k: int|
            0 <= k < 19 ==> crate::arith::max(
                (#[trigger] crate::math::meancurv::offsets()[k]).0,
                -crate::math::meancurv::offsets()[k].0,
            ) <= Stencil::MeanCurvature.halo(),
        crate::math::meancurv::offsets()[2].0 == Stencil::MeanCurvature.halo(),
        forall|k: int|
            0 <= k < 25 ==> crate::arith::max(
                (#[trigger] crate::math::bilaplacian::offsets()[k]).0,
                -crate::math::bilaplacian::offsets()[k].0,
            ) <= Stencil::BiLaplacian.halo(),
        crate::math::bilaplacian::offsets()[8].0 == Stencil::BiLaplacian.halo(),
        Stencil::Laplacian.reads_full_halo() <==> exists|k: int|
            0 <= k < 7 && (#[trigger] crate::math::laplacian::offsets()[k]).0 != 0
                && crate::math::laplacian::offsets()[k].1 != 0,
        Stencil::MeanCurvature.reads_full_halo() <==> exists|k: int|
            0 <= k < 19 && (#[trigger] crate::math::meancurv::offsets()[k]).0 != 0
                && crate::math::meancurv::offsets()[k].1 != 0,
        Stencil::BiLaplacian.reads_full_halo() <==> exists|k: int|
            0 <= k < 25 && (#[trigger] crate::math::bilaplacian::offsets()[k]).0 != 0
                && crate::math::bilaplacian::offsets()[k].1 != 0,
{
    assert(crate::math::meancurv::offsets()[7].0 == 1 && crate::math::meancurv::offsets()[7].1 == 1);
    assert(crate::math::bilaplacian::offsets()[13].0 == 1 && crate::math::bilaplacian::offsets()[13].1
        == 1);
}

/// The passes go through the colors in turn, from the first to the last, over and over: after
/// `8 i + c` of them comes one over the blocks of color `c`.
pub proof fn law_passes_cycle_colors<
    D,
    O,
    const BSX: usize,
    const N: usize,
    const HSX: usize,
    K: Fn(&HaloBlock<O, BSX, HSX>, Scalar, bool) -> Vec<D>,
>(
    before: SparseGrid<D, BSX, N>,
    after: SparseGrid<D, BSX, N>,
    buckets: Seq<Vec<u32>>,
    kernel: &K,
    params: PdeParams,
    halo: int,
    full: bool,
    i: int,
    c: int,
) where D: Dequant<O>, O: Copy + Default
    requires
        0 <= i,
        0 <= c < 8,
    ensures
        color_passes(before, after, buckets, kernel, params, halo, full, 8 * i + c + 1) <==> exists|
            mid: SparseGrid<D, BSX, N>,
        |
            color_passes(before, mid, buckets, kernel, params, halo, full, 8 * i + c)
                && #[trigger] color_pass(
                mid,
                after,
                buckets[c]@,
                kernel,
                params,
                halo,
                full,
            ),
        color_passes(before, after, buckets, kernel, params, halo, full, 0) <==> after == before,
{
    assert((8 * i + c) % 8 == c);
    assert(8 * i + c + 1 - 1 == 8 * i + c);
}

/// Passes add up: first `j` and then `k` more, from a color on that is next after the first ones.
proof fn lemma_passes_add<
    D,
    O,
    const BSX: usize,
    const N: usize,
    const HSX: usize,
    K: Fn(&HaloBlock<O, BSX, HSX>, Scalar, bool) -> Vec<D>,
>(
    before: SparseGrid<D, BSX, N>,
    mid: SparseGrid<D, BSX, N>,
    after: SparseGrid<D, BSX, N>,
    buckets: Seq<Vec<u32>>,
    kernel: &K,
    params: PdeParams,
    halo: int,
    full: bool,
    m: int,
    k: int,
) where D: Dequant<O>, O: Copy + Default
    requires
        0 <= m,
        0 <= k,
        color_passes(before, mid, buckets, kernel, params, halo, full, 8 * m),
        color_passes(mid, after, buckets, kernel, params, halo, full, k),
    ensures
        color_passes(before, after, buckets, kernel, params, halo, full, 8 * m + k),
    decreases k,
{
    if k > 0 {
        let g = choose|g: SparseGrid<D, BSX, N>|
            color_passes(mid, g, buckets, kernel, params, halo, full, k - 1) && #[trigger] color_pass(
                g,
                after,
                buckets[(k - 1) % 8]@,
                kernel,
                params,
                halo,
                full,
            );
        lemma_passes_add(before, mid, g, buckets, kernel, params, halo, full, m, k - 1);
        assert((8 * m + k - 1) % 8 == (k - 1) % 8);
        lemma_one_more_pass(before, g, after, buckets, kernel, params, halo, full, 8 * m + k - 1);
    }
}

/// Sweeps add up: `m` sweeps and then `n` more are `m + n` sweeps, and no sweep changes nothing.
pub proof fn law_sweeps_add<
    D,
    O,
    const BSX: usize,
    const N: usize,
    const HSX: usize,
    K: Fn(&HaloBlock<O, BSX, HSX>, Scalar, bool) -> Vec<D>,
>(
    before: SparseGrid<D, BSX, N>,
    mid: SparseGrid<D, BSX, N>,
    after: SparseGrid<D, BSX, N>,
    buckets: Seq<Vec<u32>>,
    active: Seq<u32>,
    kernel: &K,
    params: PdeParams,
    halo: int,
    full: bool,
    m: int,
    n: int,
) where D: Dequant<O>, O: Copy + Default
    requires
        0 <= m,
        0 <= n,
        are_color_buckets(before.nx as int, before.ny as int, active, buckets),
        color_passes(before, mid, buckets, kernel, params, halo, full, 8 * m),
        color_passes(mid, after, buckets, kernel, params, halo, full, 8 * n),
    ensures
        is_swept(before, after, active, kernel, params, halo, full, m + n),
        is_swept(before, before, active, kernel, params, halo, full, 0),
        m == 0 ==> mid == before,
{
    lemma_passes_add(before, mid, after, buckets, kernel, params, halo, full, m, 8 * n);
    assert(8 * m + 8 * n == 8 * (m + n));
    assert(color_passes(before, before, buckets, kernel, params, halo, full, 0));
}

/// A sweep is a pass over each of the eight colors, one after the other: what is between them is a
/// chain of grids, from the one before to the one after.
pub proof fn law_sweep_visits_colors<
    D,
    O,
    const BSX: usize,
    const N: usize,
    const HSX: usize,
    K: Fn(&HaloBlock<O, BSX, HSX>, Scalar, bool) -> Vec<D>,
>(
    before: SparseGrid<D, BSX, N>,
    after: SparseGrid<D, BSX, N>,
    active: Seq<u32>,
    kernel: &K,
    params: PdeParams,
    halo: int,
    full: bool,
) -> (chain: (Seq<SparseGrid<D, BSX, N>>, Seq<Vec<u32>>)) where D: Dequant<O>, O: Copy + Default
    requires
        is_swept(before, after, active, kernel, params, halo, full, 1),
    ensures
        are_color_buckets(before.nx as int, before.ny as int, active, chain.1),
        chain.0.len() == 9,
        chain.0[0] == before,
        chain.0[8] == after,
        forall|c: int|
            0 <= c < 8 ==> #[trigger] color_pass(
                chain.0[c],
                chain.0[c + 1],
                chain.1[c]@,
                kernel,
                params,
                halo,
                full,
            ),
{
    let buckets = choose|buckets: Seq<Vec<u32>>| #[trigger]
        are_color_buckets(before.nx as int, before.ny as int, active, buckets) && color_passes(
            before,
            after,
            buckets,
            kernel,
            params,
            halo,
            full,
            8int,
        );
    (lemma_pass_chain(before, after, buckets, kernel, params, halo, full, 8), buckets)
}

proof fn lemma_pass_chain<
    D,
    O,
    const BSX: usize,
    const N: usize,
    const HSX: usize,
    K: Fn(&HaloBlock<O, BSX, HSX>, Scalar, bool) -> Vec<D>,
>(
    before: SparseGrid<D, BSX, N>,
    after: SparseGrid<D, BSX, N>,
    buckets: Seq<Vec<u32>>,
    kernel: &K,
    params: PdeParams,
    halo: int,
    full: bool,
    k: int,
) -> (chain: Seq<SparseGrid<D, BSX, N>>) where D: Dequant<O>, O: Copy + Default
    requires
        0 <= k <= 8,
        color_passes(before, after, buckets, kernel, params, halo, full, k),
    ensures
        chain.len() == k + 1,
        chain[0] == before,
        chain[k] == after,
        forall|c: int|
            0 <= c < k ==> #[trigger] color_pass(
                chain[c],
                chain[c + 1],
                buckets[c]@,
                kernel,
                params,
                halo,
                full,
            ),
    decreases k,
{
    if k == 0 {
        seq![after]
    } else {
        assert((k - 1) % 8 == k - 1);
        let g = choose|g: SparseGrid<D, BSX, N>|
            color_passes(before, g, buckets, kernel, params, halo, full, k - 1)
                && #[trigger] color_pass(
                g,
                after,
                buckets[(k - 1) % 8]@,
                kernel,
                params,
                halo,
                full,
            );
        let rest = lemma_pass_chain(before, g, buckets, kernel, params, halo, full, k - 1);
        let chain = rest.push(after);
        assert forall|c: int| 0 <= c < k implies #[trigger] color_pass(
            chain[c],
            chain[c + 1],
            buckets[c]@,
            kernel,
            params,
            halo,
            full,
        ) by {
            if c < k - 1 {
                assert(color_pass(
                    rest[c],
                    rest[c + 1],
                    buckets[c]@,
                    kernel,
                    params,
                    halo,
                    full,
                ));
            }
        }
        chain
    }
}

/// A pass over a bucket, voxel by voxel: in the listed blocks that have memory of their own each
/// voxel is what the kernel gives for the halo of its block, and all other voxels are what they
/// were.
pub proof fn law_pass_at_voxel<
    D,
    O,
    const BSX: usize,
    const N: usize,
    const HSX: usize,
    K: Fn(&HaloBlock<O, BSX, HSX>, Scalar, bool) -> Vec<D>,
>(
    before: SparseGrid<D, BSX, N>,
    after: SparseGrid<D, BSX, N>,
    bucket: Seq<u32>,
    kernel: &K,
    params: PdeParams,
    halo: int,
    full: bool,
    x: int,
    y: int,
    z: int,
) where D: Dequant<O>, O: Copy + Default
    requires
        before.wf(),
        before.n_blocks <= u32::MAX,
        color_pass(before, after, bucket, kernel, params, halo, full),
        0 <= x < before.sx,
        0 <= y < before.sy,
        0 <= z < before.sz,
    ensures
        ({
            let b = before.bid_of(x, y, z);
            let v = SparseGrid::<D, BSX, N>::vid_of(x, y, z);
            if bucket.contains(b as u32) && before.kind(b) is Allocated {
                exists|h: HaloBlock<O, BSX, HSX>, d: Vec<D>|
                    is_halo_of(&before, b, halo, full, h) && #[trigger] call_ensures(
                        *kernel,
                        (&h, params.dt, params.do_constr_zero_one),
                        d,
                    ) && after.voxel(x, y, z) == d@[v]
            } else {
                after.voxel(x, y, z) == before.voxel(x, y, z)
            }
        }),
{
    before.lemma_ids(x, y, z);
    let b = before.bid_of(x, y, z);
    let v = SparseGrid::<D, BSX, N>::vid_of(x, y, z);
    assert(after.bid_of(x, y, z) == b);
    assert(after.kind(b) == before.kind(b));
    assert((b as u32) as int == b);
    if bucket.contains(b as u32) && before.kind(b) is Allocated {
        assert(is_update(
            &before,
            kernel,
            params,
            b,
            halo,
            full,
            after.block_data(b),
        ));
        assert(after.block_data(b)[v] == after.block_value(b, v));
    } else {
        assert(after.same_block(&before, b));
        assert(after.block_value(b, v) == before.block_value(b, v));
    }
}

} // verus!
