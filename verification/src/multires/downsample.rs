//! Transfers between a level and the next coarser one.

use crate::channel::Scalar;
use crate::multires::level::LevelData;
use vstd::prelude::*;

verus! {

/// The densities of the eight fine voxels that coarse voxel `vid` of block `bid` covers, x fastest.
pub open spec fn children<const BSX: usize, const N: usize>(
    src: &LevelData<BSX, N>,
    bid: int,
    vid: int,
    bsc: int,
) -> Seq<Scalar> {
    Seq::new(
        8,
        |c: int|
            src.density_at(
                bid,
                crate::layout::index3(
                    2 * crate::layout::coord_x(vid, bsc) + c % 2,
                    2 * crate::layout::coord_y(vid, bsc, bsc) + (c / 2) % 2,
                    2 * crate::layout::coord_z(vid, bsc, bsc) + c / 4,
                    BSX as int,
                    BSX as int,
                ),
            ),
    )
}

/// `r` is what `mean` gives for the eight values.
pub open spec fn is_mean<F: Fn([Scalar; 8]) -> Scalar>(mean: F, kids: Seq<Scalar>, r: Scalar) -> bool {
    exists|a: [Scalar; 8]| a@ == kids && #[trigger] call_ensures(mean, (a,), r)
}

/// The fine level has blocks twice the edge of those of the coarse one, and as many of them.
pub open spec fn level_pair<const BSX: usize, const N: usize, const BSC: usize, const NC: usize>(
    dst: &LevelData<BSC, NC>,
    src: &LevelData<BSX, N>,
) -> bool {
    &&& crate::blockpool::block_shape(BSX as int, N as int)
    &&& crate::blockpool::block_shape(BSC as int, NC as int)
    &&& BSX == 2 * BSC
    &&& dst.n_blocks == src.n_blocks
    &&& dst.wf()
    &&& src.wf()
}

/// The mean of each voxel of coarse block `bid`.
fn block_means<
    const BSX: usize,
    const N: usize,
    const BSC: usize,
    const NC: usize,
    F: Fn([Scalar; 8]) -> Scalar,
>(src: &LevelData<BSX, N>, bid: usize, mean: &F) -> (r: Vec<Scalar>)
    requires
        crate::blockpool::block_shape(BSX as int, N as int),
        crate::blockpool::block_shape(BSC as int, NC as int),
        BSX == 2 * BSC,
        src.wf(),
        bid < src.n_blocks,
        forall|a: [Scalar; 8]| #[trigger] call_requires(*mean, (a,)),
    ensures
        r@.len() == NC,
        forall|v: int|
            0 <= v < NC ==> is_mean(*mean, children(src, bid as int, v, BSC as int), #[trigger] r@[v]),
{
    let ghost bc = BSC as int;
    let ghost bf = BSX as int;
    let mut r: Vec<Scalar> = Vec::with_capacity(NC);
    let mut vid: usize = 0;
    while vid < NC
        invariant
            crate::blockpool::block_shape(BSX as int, N as int),
            crate::blockpool::block_shape(BSC as int, NC as int),
            bc == BSC,
            bf == BSX,
            BSX == 2 * BSC,
            src.wf(),
            bid < src.n_blocks,
            forall|a: [Scalar; 8]| #[trigger] call_requires(*mean, (a,)),
            vid <= NC,
            r@.len() == vid,
            forall|v: int|
                0 <= v < vid ==> is_mean(*mean, children(src, bid as int, v, bc), #[trigger] r@[v]),
        decreases NC - vid,
    {
        proof {
            crate::layout::lemma_coords3(vid as int, bc, bc, bc);
        }
        let fx: usize = 2 * (vid % BSC);
        let fy: usize = 2 * ((vid / BSC) % BSC);
        let fz: usize = 2 * ((vid / BSC) / BSC);
        let mut a: [Scalar; 8] = [Scalar(0); 8];
        let mut c: usize = 0;
        while c < 8
            invariant
                crate::blockpool::block_shape(BSX as int, N as int),
                bc == BSC,
                bf == BSX,
                BSX == 2 * BSC,
                src.wf(),
                bid < src.n_blocks,
                c <= 8,
                fx == 2 * crate::layout::coord_x(vid as int, bc),
                fy == 2 * crate::layout::coord_y(vid as int, bc, bc),
                fz == 2 * crate::layout::coord_z(vid as int, bc, bc),
                fx + 1 < BSX,
                fy + 1 < BSX,
                fz + 1 < BSX,
                forall|k: int|
                    0 <= k < c ==> #[trigger] a@[k] == children(src, bid as int, vid as int, bc)[k],
            decreases 8 - c,
        {
            let i: usize = crate::blockpool::voxel_index::<BSX>(
                fx + c % 2,
                fy + (c / 2) % 2,
                fz + c / 4,
            );
            a[c] = src.density(bid, i);
            c = c + 1;
        }
        assert(a@ =~= children(src, bid as int, vid as int, bc));
        let m: Scalar = mean(a);
        assert(call_ensures(*mean, (a,), m));
        let ghost before = r@;
        r.push(m);
        proof {
            assert forall|v: int| 0 <= v < vid + 1 implies is_mean(*mean, children(src, bid as int, v, bc), #[trigger] r@[v]) by {
                if v < vid {
                    assert(r@[v] == before[v]);
                } else {
                    assert(r@[v] == m);
                }
            }
        }
        vid = vid + 1;
    }
    r
}

/// What downsampling makes of the coarse level: each block that the fine level has materialized is
/// there, with the mean of eight children in each voxel, and all other blocks stay as they were.
pub open spec fn downsampled<
    const BSX: usize,
    const N: usize,
    const BSC: usize,
    const NC: usize,
    F: Fn([Scalar; 8]) -> Scalar,
>(
    before: LevelData<BSC, NC>,
    after: LevelData<BSC, NC>,
    src: &LevelData<BSX, N>,
    mean: F,
) -> bool {
    &&& after.wf()
    &&& after.same_shape(&before)
    &&& forall|b: int| #[trigger]
        src.has(b) ==> after.has(b) && after.only_density_differs(&before, b) && forall|v: int|
            0 <= v < NC ==> is_mean(mean, children(src, b, v, BSC as int), #[trigger] after.density_at(b, v),
                )
    &&& forall|b: int| !src.has(b) ==> #[trigger] after.same_block(&before, b)
}

/// Box downsampling: the density of each coarse voxel is `mean` of its eight fine children. Only the
/// blocks that the fine level has materialized are visited.
pub fn downsample_channel_avg<
    const BSX: usize,
    const N: usize,
    const BSC: usize,
    const NC: usize,
    F: Fn([Scalar; 8]) -> Scalar + Send + Sync,
>(dst: &mut LevelData<BSC, NC>, src: &LevelData<BSX, N>, mean: &F)
    requires
        level_pair(old(dst), src),
        forall|a: [Scalar; 8]| #[trigger] call_requires(*mean, (a,)),
    ensures
        downsampled(*old(dst), *final(dst), src, *mean),
{
    let ids: Vec<usize> = src.active_block_ids();
    let ids_ref: &Vec<usize> = &ids;
    let work = |i: usize| -> (r: Vec<Scalar>)
        requires
            crate::blockpool::block_shape(BSX as int, N as int),
            crate::blockpool::block_shape(BSC as int, NC as int),
            BSX == 2 * BSC,
            src.wf(),
            i < ids_ref@.len(),
            ids_ref@[i as int] < src.n_blocks,
            forall|a: [Scalar; 8]| #[trigger] call_requires(*mean, (a,)),
        ensures
            r@.len() == NC,
            forall|v: int|
                0 <= v < NC ==> is_mean(*mean, children(src, ids_ref@[i as int] as int, v, BSC as int), #[trigger] r@[v]),
    { block_means::<BSX, N, BSC, NC, F>(src, ids_ref[i], mean) };
    proof {
        assert forall|i: usize| i < ids@.len() implies ids@[i as int] < src.n_blocks by {
            assert(src.has(ids@[i as int] as int));
        }
    }
    let mut means: Vec<Vec<Scalar>> = crate::par::map_index(ids.len(), work);
    let ghost all = means@;
    proof {
        assert forall|i: int| 0 <= i < ids@.len() implies (#[trigger] all[i])@.len() == NC
            && forall|v: int|
            0 <= v < NC ==> is_mean(*mean, children(src, ids@[i] as int, v, BSC as int), #[trigger] all[i]@[v]) by {
            assert(all[(i as usize) as int] == all[i]);
        }
    }
    let mut i: usize = ids.len();
    while i > 0
        invariant
            i <= ids@.len(),
            means@ == all.take(i as int),
            all.len() == ids@.len(),
            ids@.no_duplicates(),
            dst.wf(),
            dst.same_shape(old(dst)),
            old(dst).n_blocks == src.n_blocks,
            forall|k: int| 0 <= k < ids@.len() ==> src.has(#[trigger] ids@[k] as int),
            forall|k: int| 0 <= k < ids@.len() ==> (#[trigger] all[k])@.len() == NC,
            forall|k: int|
                i <= k < ids@.len() ==> dst.has(#[trigger] ids@[k] as int)
                    && dst.only_density_differs(old(dst), ids@[k] as int) && forall|v: int|
                    0 <= v < NC ==> #[trigger] dst.density_at(ids@[k] as int, v) == all[k]@[v],
            forall|b: int|
                (forall|k: int| i <= k < ids@.len() ==> #[trigger] ids@[k] != b)
                    ==> #[trigger] dst.same_block(old(dst), b),
        decreases i,
    {
        i = i - 1;
        let ghost prior = *dst;
        assert(src.has(ids@[i as int] as int));
        assert(all[i as int] == means@[i as int]);
        match means.pop() {
            Some(m) => {
                dst.set_density_block(ids[i], m);
            },
            None => {
                assert(false);
            },
        }
        proof {
            assert(means@ =~= all.take(i as int));
            assert forall|b: int|
                (forall|k: int| i <= k < ids@.len() ==> #[trigger] ids@[k] != b) implies #[trigger] dst.same_block(
                old(dst),
                b,
            ) by {
                assert(ids@[i as int] != b);
                assert(dst.same_block(&prior, b));
                assert(prior.same_block(old(dst), b));
            }
            assert forall|k: int| i <= k < ids@.len() implies dst.has(#[trigger] ids@[k] as int)
                && dst.only_density_differs(old(dst), ids@[k] as int) && forall|v: int|
                0 <= v < NC ==> #[trigger] dst.density_at(ids@[k] as int, v) == all[k]@[v] by {
                if k == i {
                    assert(prior.same_block(old(dst), ids@[k] as int));
                }
                if k > i {
                    assert(dst.same_block(&prior, ids@[k] as int));
                    assert forall|v: int| 0 <= v < NC implies #[trigger] dst.density_at(
                        ids@[k] as int,
                        v,
                    ) == all[k]@[v] by {
                        assert(prior.density_at(ids@[k] as int, v) == all[k]@[v]);
                    }
                }
            }
        }
    }
    proof {
        assert forall|b: int| #[trigger] src.has(b) implies dst.has(b) && dst.only_density_differs(old(dst), b) && forall|v: int|
            0 <= v < NC ==> is_mean(*mean, children(src, b, v, BSC as int), #[trigger] dst.density_at(b, v),
                ) by {
            let k = choose|k: int| 0 <= k < ids@.len() && ids@[k] == b as usize;
            assert(ids@[k] as int == b);
            assert forall|v: int| 0 <= v < NC implies is_mean(*mean, children(src, b, v, BSC as int), #[trigger] dst.density_at(b, v),
                ) by {
                assert(dst.density_at(b, v) == all[k]@[v]);
            }
        }
    }
}

/// Half of `g`, rounded down, and clamped to the voxels of an axis of `s`.
pub open spec fn coarse_coord(g: int, s: int) -> int {
    let h = g / 2;
    if h < 0 {
        0
    } else if h > s - 1 {
        s - 1
    } else {
        h
    }
}

fn coarse_axis(g: i32, s: usize) -> (r: usize)
    requires
        1 <= s <= i32::MAX,
    ensures
        r == coarse_coord(g as int, s as int),
        r < s,
{
    if g < 0 {
        0
    } else {
        let h: usize = (g / 2) as usize;
        if h > s - 1 {
            s - 1
        } else {
            h
        }
    }
}

/// The coarse density at a voxel coordinate of the next finer level.
pub open spec fn coarse_sample<const BSC: usize, const NC: usize>(
    coarse: &LevelData<BSC, NC>,
    gx: int,
    gy: int,
    gz: int,
) -> Scalar {
    coarse.density_at(
        crate::layout::index3(
            coarse_coord(gx, coarse.sx as int) / BSC as int,
            coarse_coord(gy, coarse.sy as int) / BSC as int,
            coarse_coord(gz, coarse.sz as int) / BSC as int,
            coarse.nx as int,
            coarse.ny as int,
        ),
        crate::layout::index3(
            coarse_coord(gx, coarse.sx as int) % BSC as int,
            coarse_coord(gy, coarse.sy as int) % BSC as int,
            coarse_coord(gz, coarse.sz as int) % BSC as int,
            BSC as int,
            BSC as int,
        ),
    )
}

/// The coarse density at a voxel coordinate of the next finer level. Coordinates beyond the domain
/// are clamped to it.
pub fn sample_coarse<const BSC: usize, const NC: usize>(
    coarse: &LevelData<BSC, NC>,
    gx: i32,
    gy: i32,
    gz: i32,
) -> (r: Scalar)
    requires
        crate::blockpool::block_shape(BSC as int, NC as int),
        coarse.wf(),
        1 <= coarse.sx <= i32::MAX,
        1 <= coarse.sy <= i32::MAX,
        1 <= coarse.sz <= i32::MAX,
        coarse.sx == BSC * coarse.nx,
        coarse.sy == BSC * coarse.ny,
        coarse.sz == BSC * coarse.nz,
    ensures
        r == coarse_sample(coarse, gx as int, gy as int, gz as int),
{
    let x: usize = coarse_axis(gx, coarse.sx);
    let y: usize = coarse_axis(gy, coarse.sy);
    let z: usize = coarse_axis(gz, coarse.sz);
    let bx: usize = x / BSC;
    let by: usize = y / BSC;
    let bz: usize = z / BSC;
    proof {
        let b = BSC as int;
        vstd::arithmetic::div_mod::lemma_multiply_divide_lt(x as int, b, coarse.nx as int);
        vstd::arithmetic::div_mod::lemma_multiply_divide_lt(y as int, b, coarse.ny as int);
        vstd::arithmetic::div_mod::lemma_multiply_divide_lt(z as int, b, coarse.nz as int);
        assert(b * coarse.nx == coarse.nx * b) by (nonlinear_arith);
        assert(b * coarse.ny == coarse.ny * b) by (nonlinear_arith);
        assert(b * coarse.nz == coarse.nz * b) by (nonlinear_arith);
        crate::layout::lemma_index3(
            bx as int,
            by as int,
            bz as int,
            coarse.nx as int,
            coarse.ny as int,
            coarse.nz as int,
        );
    }
    let bid: usize = bx + by * coarse.nx + bz * coarse.nxy;
    let vid: usize = crate::blockpool::voxel_index::<BSC>(x % BSC, y % BSC, z % BSC);
    coarse.density(bid, vid)
}

/// Sampling the coarse level at the first child of a coarse voxel reads that voxel.
pub proof fn law_sample_reads_coarse_voxel(c: int, s: int)
    requires
        0 <= c < s,
    ensures
        coarse_coord(2 * c, s) == c,
        coarse_coord(2 * c + 1, s) == c,
{
}

/// The child at place `dx + 2 * dy + 4 * dz` of coarse voxel `(cx, cy, cz)` is fine voxel
/// `(2 * cx + dx, 2 * cy + dy, 2 * cz + dz)` of the same block.
pub proof fn law_children_by_coordinates<const BSX: usize, const N: usize>(
    src: &LevelData<BSX, N>,
    bid: int,
    bsc: int,
    cx: int,
    cy: int,
    cz: int,
    dx: int,
    dy: int,
    dz: int,
)
    requires
        0 <= cx < bsc,
        0 <= cy < bsc,
        0 <= cz < bsc,
        0 <= dx < 2,
        0 <= dy < 2,
        0 <= dz < 2,
    ensures
        children(src, bid, cx + bsc * cy + bsc * bsc * cz, bsc).len() == 8,
        children(src, bid, cx + bsc * cy + bsc * bsc * cz, bsc)[dx + 2 * dy + 4 * dz]
            == src.density_at(
            bid,
            (2 * cx + dx) + BSX * (2 * cy + dy) + BSX * BSX * (2 * cz + dz),
        ),
{
    let b = BSX as int;
    crate::layout::law_coords_of_cell(cx, cy, cz, bsc, bsc, bsc);
    let c = dx + 2 * dy + 4 * dz;
    assert(c % 2 == dx && (c / 2) % 2 == dy && c / 4 == dz);
    let (x, y, z) = (2 * cx + dx, 2 * cy + dy, 2 * cz + dz);
    assert(x + y * b + z * (b * b) == x + b * y + b * b * z) by (nonlinear_arith);
}

/// Every fine voxel of a block goes into the coarse voxel at half its coordinates, and into no other
/// place of it than the one that its lowest bits give.
pub proof fn law_fine_voxel_has_its_place<const BSX: usize, const N: usize>(
    src: &LevelData<BSX, N>,
    bid: int,
    fx: int,
    fy: int,
    fz: int,
)
    requires
        BSX as int % 2 == 0,
        0 <= fx < BSX,
        0 <= fy < BSX,
        0 <= fz < BSX,
    ensures
        ({
            let h = BSX as int / 2;
            children(src, bid, fx / 2 + h * (fy / 2) + h * h * (fz / 2), h)[fx % 2 + 2 * (fy % 2) + 4
                * (fz % 2)] == src.density_at(bid, fx + BSX * fy + BSX * BSX * fz)
        }),
{
    law_children_by_coordinates(
        src,
        bid,
        BSX as int / 2,
        fx / 2,
        fy / 2,
        fz / 2,
        fx % 2,
        fy % 2,
        fz % 2,
    );
}

/// Downsampling, voxel by voxel: the density of coarse voxel `(cx, cy, cz)` of a block that the fine
/// level has is what `mean` gives for the eight fine voxels whose halved coordinates it has.
pub proof fn law_downsample_averages_children<
    const BSX: usize,
    const N: usize,
    const BSC: usize,
    const NC: usize,
    F: Fn([Scalar; 8]) -> Scalar,
>(
    before: LevelData<BSC, NC>,
    after: LevelData<BSC, NC>,
    src: &LevelData<BSX, N>,
    mean: F,
    b: int,
    cx: int,
    cy: int,
    cz: int,
)
    requires
        downsampled(before, after, src, mean),
        src.has(b),
        NC == BSC * BSC * BSC,
        BSX == 2 * BSC,
        0 <= cx < BSC,
        0 <= cy < BSC,
        0 <= cz < BSC,
    ensures
        after.has(b),
        exists|a: [Scalar; 8]|
            {
                &&& #[trigger] call_ensures(
                    mean,
                    (a,),
                    after.density_at(b, cx + BSC * cy + BSC * BSC * cz),
                )
                &&& forall|dx: int, dy: int, dz: int|
                    0 <= dx < 2 && 0 <= dy < 2 && 0 <= dz < 2 ==> a@[#[trigger] crate::layout::index3(
                        dx,
                        dy,
                        dz,
                        2,
                        2,
                    )] == src.density_at(
                        b,
                        (2 * cx + dx) + BSX * (2 * cy + dy) + BSX * BSX * (2 * cz + dz),
                    )
            },
{
    let bc = BSC as int;
    let v = cx + bc * cy + bc * bc * cz;
    crate::layout::law_coords_of_cell(cx, cy, cz, bc, bc, bc);
    let r = after.density_at(b, v);
    assert(is_mean(mean, children(src, b, v, bc), r));
    let a = choose|a: [Scalar; 8]|
        a@ == children(src, b, v, bc) && #[trigger] call_ensures(mean, (a,), r);
    assert forall|dx: int, dy: int, dz: int|
        0 <= dx < 2 && 0 <= dy < 2 && 0 <= dz < 2 implies a@[#[trigger] crate::layout::index3(
        dx,
        dy,
        dz,
        2,
        2,
    )] == src.density_at(
        b,
        (2 * cx + dx) + BSX * (2 * cy + dy) + BSX * BSX * (2 * cz + dz),
    ) by {
        law_children_by_coordinates(src, b, bc, cx, cy, cz, dx, dy, dz);
    }
}

/// Downsampling leaves alone what has no fine counterpart, and all but the density of what has.
pub proof fn law_downsample_keeps_the_rest<
    const BSX: usize,
    const N: usize,
    const BSC: usize,
    const NC: usize,
    F: Fn([Scalar; 8]) -> Scalar,
>(
    before: LevelData<BSC, NC>,
    after: LevelData<BSC, NC>,
    src: &LevelData<BSX, N>,
    mean: F,
    b: int,
)
    requires
        downsampled(before, after, src, mean),
    ensures
        !src.has(b) && before.has(b) ==> after.has(b) && after.record(b) == before.record(b),
        !src.has(b) && !before.has(b) ==> !after.has(b),
        src.has(b) && before.has(b) ==> after.record(b).cell_flags@ == before.record(b).cell_flags@
            && after.record(b).dist_fine_coarse@ == before.record(b).dist_fine_coarse@
            && after.record(b).faces == before.record(b).faces,
{
    if !src.has(b) {
        assert(after.same_block(&before, b));
    }
}

/// A coarse sample is the density of the coarse voxel at half the fine coordinates: inside the
/// domain, voxel `(gx / 2, gy / 2, gz / 2)`, in the block that covers it.
pub proof fn law_coarse_sample_halves<const BSC: usize, const NC: usize>(
    coarse: &LevelData<BSC, NC>,
    kx: int,
    ky: int,
    kz: int,
    vx: int,
    vy: int,
    vz: int,
    dx: int,
    dy: int,
    dz: int,
)
    requires
        0 < BSC,
        coarse.sx == BSC * coarse.nx,
        coarse.sy == BSC * coarse.ny,
        coarse.sz == BSC * coarse.nz,
        0 <= kx < coarse.nx,
        0 <= ky < coarse.ny,
        0 <= kz < coarse.nz,
        0 <= vx < BSC,
        0 <= vy < BSC,
        0 <= vz < BSC,
        0 <= dx < 2,
        0 <= dy < 2,
        0 <= dz < 2,
    ensures
        coarse_sample(
            coarse,
            2 * (BSC * kx + vx) + dx,
            2 * (BSC * ky + vy) + dy,
            2 * (BSC * kz + vz) + dz,
        ) == coarse.density_at(
            kx + coarse.nx * ky + coarse.nx * coarse.ny * kz,
            vx + BSC * vy + BSC * BSC * vz,
        ),
{
    let b = BSC as int;
    let (nx, ny) = (coarse.nx as int, coarse.ny as int);
    crate::layout::lemma_block_split(kx, vx, b);
    crate::layout::lemma_block_split(ky, vy, b);
    crate::layout::lemma_block_split(kz, vz, b);
    lemma_in_axis(kx, vx, b, coarse.nx as int);
    lemma_in_axis(ky, vy, b, coarse.ny as int);
    lemma_in_axis(kz, vz, b, coarse.nz as int);
    assert(kx + ky * nx + kz * (nx * ny) == kx + nx * ky + nx * ny * kz) by (nonlinear_arith);
    assert(vx + vy * b + vz * (b * b) == vx + b * vy + b * b * vz) by (nonlinear_arith);
}

proof fn lemma_in_axis(k: int, v: int, b: int, n: int)
    requires
        0 <= k < n,
        0 <= v < b,
    ensures
        0 <= b * k + v < b * n,
{
    assert(b * k + b <= b * n) by (nonlinear_arith)
        requires
            k + 1 <= n,
            0 < b,
    ;
    assert(0 <= b * k) by (nonlinear_arith)
        requires
            0 <= k,
            0 < b,
    ;
}

/// Fine coordinates beyond the domain sample what its border does, axis by axis.
pub proof fn law_coarse_sample_clamps<const BSC: usize, const NC: usize>(
    coarse: &LevelData<BSC, NC>,
    gx: int,
    gy: int,
    gz: int,
)
    requires
        1 <= coarse.sx,
        1 <= coarse.sy,
        1 <= coarse.sz,
    ensures
        gx < 0 ==> coarse_sample(coarse, gx, gy, gz) == coarse_sample(coarse, 0, gy, gz),
        gx >= 2 * coarse.sx ==> coarse_sample(coarse, gx, gy, gz) == coarse_sample(
            coarse,
            2 * coarse.sx - 1,
            gy,
            gz,
        ),
        gy < 0 ==> coarse_sample(coarse, gx, gy, gz) == coarse_sample(coarse, gx, 0, gz),
        gy >= 2 * coarse.sy ==> coarse_sample(coarse, gx, gy, gz) == coarse_sample(
            coarse,
            gx,
            2 * coarse.sy - 1,
            gz,
        ),
        gz < 0 ==> coarse_sample(coarse, gx, gy, gz) == coarse_sample(coarse, gx, gy, 0),
        gz >= 2 * coarse.sz ==> coarse_sample(coarse, gx, gy, gz) == coarse_sample(
            coarse,
            gx,
            gy,
            2 * coarse.sz - 1,
        ),
{
}

} // verus!
