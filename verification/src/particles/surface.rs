//! Surface reconstruction from a point cloud: load, place, bucket, splat, convert.

use crate::blockpool::BlockPool;
use crate::channel::Scalar;
use crate::io::ply::{load_vertices, PlyError, PlyVertex};
use crate::math::gather::Dequant;
use crate::multires::halo::HaloBlock;
use crate::particles::dims::GridDims;
use crate::particles::finalize::finalize;
use crate::particles::sort::{bucket_by_block, place, Bucketed, Candidate};
use crate::particles::splat::{splat, SplatPlan};
use crate::solver::{apply_pde, PdeParams, Stencil};
use crate::sparse_grid::SparseGrid;
use vstd::prelude::*;

verus! {

/// Why a surface could not be reconstructed.
#[derive(Clone, Copy, Debug, PartialEq, Eq, Structural)]
pub enum SurfaceError {
    /// The file could not be read.
    Ply(PlyError),
    /// The file has no vertices.
    NoVertices,
    /// The pool has not enough blocks for the grid.
    PoolExhausted,
}

/// The point cloud of a file, or why there is none.
pub open spec fn cloud_of(ply: Seq<u8>) -> Result<Seq<PlyVertex>, SurfaceError> {
    match crate::io::ply::loaded(ply) {
        Ok(s) => if s.len() == 0 {
            Err(SurfaceError::NoVertices)
        } else {
            Ok(s)
        },
        Err(e) => Err(SurfaceError::Ply(e)),
    }
}

/// Loads the vertices of a point cloud, of which there must be at least one.
pub fn load_cloud(ply: &Vec<u8>) -> (r: Result<Vec<PlyVertex>, SurfaceError>)
    ensures
        match cloud_of(ply@) {
            Ok(s) => r matches Ok(v) && v@ == s,
            Err(e) => r == Err::<Vec<PlyVertex>, SurfaceError>(e),
        },
{
    match load_vertices(ply) {
        Err(e) => Err(SurfaceError::Ply(e)),
        Ok(v) => {
            if v.len() == 0 {
                Err(SurfaceError::NoVertices)
            } else {
                Ok(v)
            }
        },
    }
}

/// The candidates that are kept, in block-major order, and the blocks that their footprints reach.
pub struct SurfacePlan {
    /// Which candidate stands at each place.
    pub order: Vec<usize>,
    /// Blocks with at least one of them, by increasing id.
    pub particle_blocks: Vec<usize>,
    /// Start offsets of the blocks, and the number of kept candidates at the end.
    pub starts: Vec<usize>,
    /// Blocks that the footprints reach, by increasing id.
    pub active: Vec<usize>,
}

/// The centre blocks of the listed candidates.
pub open spec fn centers(cands: Seq<Candidate>, kept: Seq<usize>, dims: &GridDims) -> Seq<usize> {
    Seq::new(
        kept.len(),
        |i: int| crate::particles::sort::center_of(cands[kept[i] as int], dims) as usize,
    )
}

/// The footprints of the listed candidates.
pub open spec fn footprints(cands: Seq<Candidate>, kept: Seq<usize>) -> Seq<
    crate::particles::dims::BlockBox,
> {
    Seq::new(kept.len(), |i: int| cands[kept[i] as int].footprint)
}

/// `r` is the plan: the kept candidates in the order of their blocks, and the blocks that their
/// footprints reach.
pub open spec fn is_surface_plan(cands: Seq<Candidate>, dims: &GridDims, r: &SurfacePlan) -> bool {
    let kept = crate::particles::sort::kept_below(cands, dims, cands.len() as int);
    &&& crate::particles::active::are_active_blocks(r.active@, footprints(cands, kept), dims)
    &&& exists|plan: crate::particles::sort::BucketPlan|
        {
            &&& #[trigger] crate::particles::sort::is_bucketing(centers(cands, kept, dims), plan)
            &&& r.order@ == crate::particles::sort::permuted(kept, plan.perm@)
            &&& r.particle_blocks == plan.particle_blocks
            &&& r.starts == plan.starts
        }
}

/// Keeps the candidates that lie in the domain, orders them by block, and collects the blocks that
/// their footprints reach.
pub fn plan_surface(cands: &Vec<Candidate>, dims: &GridDims) -> (r: SurfacePlan)
    requires
        dims.wf(),
        ({
            let kept = crate::particles::sort::kept_below(cands@, dims, cands@.len() as int);
            &&& crate::particles::active::reach_fits(footprints(cands@, kept), dims)
            &&& crate::particles::sort::blocks_fit(centers(cands@, kept, dims), dims)
        }),
    ensures
        is_surface_plan(cands@, dims, &r),
{
    let placed = place(cands, dims);
    let ghost kept = placed.kept@;
    let ghost bids = placed.bids@;
    proof {
        assert(bids =~= centers(cands@, kept, dims));
        crate::particles::sort::lemma_blocks_fit(bids, dims);
    }
    let b: Bucketed<usize> = bucket_by_block(placed.kept, placed.bids);
    SurfacePlan {
        order: b.positions,
        particle_blocks: b.particle_blocks,
        starts: b.starts,
        active: placed.active,
    }
}

/// A grid before anything is splatted: the active blocks are allocated and full, all else is empty.
pub open spec fn is_prepared<D, const BSX: usize, const N: usize>(
    g: SparseGrid<D, BSX, N>,
    dims: &GridDims,
    empty: D,
    full: D,
    active: Seq<usize>,
) -> bool where D: Copy + Default + Send + Sync {
    &&& g.wf()
    &&& g.sx == dims.sx
    &&& g.sy == dims.sy
    &&& g.sz == dims.sz
    &&& g.empty_value == empty
    &&& g.full_value == full
    &&& forall|i: int| 0 <= i < active.len() ==> g.kind(#[trigger] active[i] as int) is Allocated
    &&& forall|b: int|
        0 <= b < g.n_blocks && !active.contains(b as usize) ==> #[trigger] g.kind(b) is Empty
    &&& forall|b: int, v: int|
        0 <= b < g.n_blocks && active.contains(b as usize) && 0 <= v < N
            ==> #[trigger] g.block_value(b, v) == full
}

/// The plan fits a grid of the given sizes.
pub open spec fn plan_fits(plan: &SplatPlan, dims: &GridDims) -> bool {
    let edge = dims.bsx + 2 * plan.margin;
    &&& plan.starts@.len() == plan.particle_blocks@.len() + 1
    &&& forall|r: int|
        0 <= r < plan.particle_blocks@.len() ==> #[trigger] plan.starts@[r] <= plan.starts@[r + 1]
            <= plan.boxes@.len()
    &&& forall|r: int|
        0 <= r < plan.particle_blocks@.len() ==> (#[trigger] plan.particle_blocks@[r])
            < dims.count()
    &&& dims.sx + edge <= i32::MAX
    &&& dims.sy + edge <= i32::MAX
    &&& dims.sz + edge <= i32::MAX
    &&& edge * edge * edge <= usize::MAX
}

/// What comes of reconstructing a surface: the prepared grid, splatted in the order of the colors of
/// the blocks, and then converted.
pub open spec fn is_surface<
    D,
    const BSX: usize,
    const N: usize,
    V: Fn(usize, i32, i32, i32) -> D,
    M: Fn(D, D) -> D,
    C: Fn(D, D) -> D,
    F: Fn(D) -> D,
>(
    r: SparseGrid<D, BSX, N>,
    dims: &GridDims,
    empty: D,
    full: D,
    active: Seq<usize>,
    plan: &SplatPlan,
    value: &V,
    merge: &M,
    combine: &C,
    finish: &F,
) -> bool where D: Copy + Default + Send + Sync {
    exists|g0: SparseGrid<D, BSX, N>, g1: SparseGrid<D, BSX, N>|
        {
            &&& #[trigger] is_prepared(g0, dims, empty, full, active)
            &&& crate::particles::splat::ranks_splatted(
                g0,
                g1,
                plan,
                crate::particles::splat::color_order(
                    dims.nx as int,
                    dims.ny as int,
                    plan.particle_blocks@,
                    8,
                ),
                value,
                merge,
                combine,
                full,
            )
            &&& #[trigger] crate::particles::finalize::finalized(g1, r, active, finish)
        }
}

/// Exactly the active blocks of the grid are allocated, and all voxels of the others read as empty.
pub open spec fn stands_on<D, const BSX: usize, const N: usize>(
    g: SparseGrid<D, BSX, N>,
    dims: &GridDims,
    empty: D,
    active: Seq<usize>,
) -> bool where D: Copy + Default + Send + Sync {
    &&& g.n_blocks == dims.count()
    &&& forall|b: int|
        0 <= b < g.n_blocks ==> (#[trigger] g.kind(b) is Allocated <==> active.contains(b as usize))
    &&& forall|b: int, v: int|
        0 <= b < g.n_blocks && !active.contains(b as usize) ==> #[trigger] g.block_value(b, v)
            == empty
}

/// Builds the density grid of a surface: allocates the active blocks and fills them with `full`,
/// splats the particles, and converts the result. Fails exactly if the pool has not enough blocks for
/// the active ones and the two that every grid needs.
pub fn reconstruct_surface<
    D,
    const BSX: usize,
    const N: usize,
    V: Fn(usize, i32, i32, i32) -> D + Send + Sync,
    M: Fn(D, D) -> D + Send + Sync,
    C: Fn(D, D) -> D,
    F: Fn(D) -> D + Send + Sync,
>(
    name: String,
    dims: &GridDims,
    empty: D,
    full: D,
    pool: BlockPool<D, BSX, N>,
    active: &Vec<usize>,
    plan: &SplatPlan,
    value: &V,
    merge: &M,
    combine: &C,
    finish: &F,
) -> (r: Result<SparseGrid<D, BSX, N>, SurfaceError>) where D: Copy + Default + Send + Sync
    requires
        dims.wf(),
        dims.bsx == BSX,
        crate::blockpool::block_shape(BSX as int, N as int),
        pool.wf(),
        forall|i: int| 0 <= i < active@.len() ==> (#[trigger] active@[i]) < dims.count(),
        forall|i: int, j: int| 0 <= i < j < active@.len() ==> #[trigger] active@[i] < #[trigger] active@[j],
        plan_fits(plan, dims),
        crate::particles::splat::callable(value, merge, combine),
        forall|v: D| #[trigger] call_requires(*finish, (v,)),
    ensures
        r is Ok <==> active@.len() + 2 <= pool.spec_limit() - pool.spec_allocated(),
        r matches Err(e) ==> e == SurfaceError::PoolExhausted,
        r matches Ok(g) ==> g.wf() && g.name == name && g.sx == dims.sx && g.sy == dims.sy && g.sz
            == dims.sz && stands_on(g, dims, empty, active@) && is_surface(
            g,
            dims,
            empty,
            full,
            active@,
            plan,
            value,
            merge,
            combine,
            finish,
        ),
{
    let room: usize = pool.remaining();
    if room < 2 || room - 2 < active.len() {
        return Err(SurfaceError::PoolExhausted);
    }
    let mut grid = SparseGrid::new(name, dims.sx, dims.sy, dims.sz, empty, full, pool);
    let ghost fresh = grid;
    proof {
        grid.lemma_missing(active@, 0, active@.len() as int);
    }
    grid.ensure_blocks(active);
    let ghost ensured = grid;
    grid.fill_blocks(active, full);
    let ghost g0 = grid;
    proof {
        assert forall|i: int| 0 <= i < active@.len() implies g0.kind(#[trigger] active@[i] as int) is Allocated by {
            assert(ensured.kind(active@[i] as int) is Allocated);
            assert(g0.kind(active@[i] as int) == ensured.kind(active@[i] as int));
        }
        assert forall|b: int| 0 <= b < g0.n_blocks && !active@.contains(b as usize) implies #[trigger] g0.kind(
            b,
        ) is Empty by {
            assert(ensured.same_block(&fresh, b));
            assert(g0.kind(b) == ensured.kind(b));
            assert(fresh.kind(b) is Empty);
        }
        assert(is_prepared(g0, dims, empty, full, active@));
        assert(plan.fits(&g0));
    }
    splat(&mut grid, plan, value, merge, combine, full);
    let ghost g1 = grid;
    finalize(&mut grid, active, finish);
    assert(crate::particles::finalize::finalized(g1, grid, active@, finish));
    proof {
        assert forall|b: int| 0 <= b < grid.n_blocks implies (#[trigger] grid.kind(b) is Allocated
            <==> active@.contains(b as usize)) && (!active@.contains(b as usize) ==> grid.kind(
            b,
        ) is Empty) by {
            assert(grid.kind(b) == g1.kind(b));
            assert(g1.kind(b) == g0.kind(b));
            if active@.contains(b as usize) {
                let i = choose|i: int| 0 <= i < active@.len() && active@[i] == b as usize;
                assert(g0.kind(active@[i] as int) is Allocated);
            }
        }
        assert forall|b: int, v: int|
            0 <= b < grid.n_blocks && !active@.contains(b as usize) implies #[trigger] grid.block_value(
            b,
            v,
        ) == empty by {
            assert(grid.kind(b) is Empty);
        }
    }
    Ok(grid)
}

/// Block ids of 32 bits.
pub open spec fn short_ids(ids: Seq<usize>) -> Seq<u32> {
    Seq::new(ids.len(), |i: int| ids[i] as u32)
}

fn shortened(ids: &Vec<usize>) -> (r: Vec<u32>)
    ensures
        r@ == short_ids(ids@),
{
    let mut r: Vec<u32> = Vec::with_capacity(ids.len());
    let mut i: usize = 0;
    while i < ids.len()
        invariant
            i <= ids@.len(),
            r@ == short_ids(ids@.take(i as int)),
        decreases ids@.len() - i,
    {
        r.push(ids[i] as u32);
        i = i + 1;
        assert(r@ =~= short_ids(ids@.take(i as int)));
    }
    assert(ids@.take(ids@.len() as int) =~= ids@);
    r
}

/// `g` comes of smoothing `s` by mean-curvature flow over the active blocks.
pub open spec fn is_smoothed<
    D,
    O,
    const BSX: usize,
    const N: usize,
    const HSX: usize,
    K: Fn(&HaloBlock<O, BSX, HSX>, Scalar, bool) -> Vec<D>,
>(
    s: SparseGrid<D, BSX, N>,
    g: SparseGrid<D, BSX, N>,
    active: Seq<usize>,
    kernel: &K,
    params: PdeParams,
) -> bool where D: Dequant<O>, O: Copy + Default {
    exists|buckets: Seq<Vec<u32>>| #[trigger]
        crate::solver::are_color_buckets(s.nx as int, s.ny as int, short_ids(active), buckets)
            && crate::solver::color_passes(
            s,
            g,
            buckets,
            kernel,
            params,
            Stencil::MeanCurvature.halo(),
            Stencil::MeanCurvature.reads_full_halo(),
            8 * params.iterations,
        )
}

/// Builds the density grid of a surface and smooths it by mean-curvature flow, with `kernel` for the
/// update of a block. Fails exactly where the surface cannot be built.
pub fn reconstruct_and_smooth<
    D,
    O,
    const BSX: usize,
    const N: usize,
    const HSX: usize,
    V: Fn(usize, i32, i32, i32) -> D + Send + Sync,
    M: Fn(D, D) -> D + Send + Sync,
    C: Fn(D, D) -> D,
    F: Fn(D) -> D + Send + Sync,
    K: Fn(&HaloBlock<O, BSX, HSX>, Scalar, bool) -> Vec<D> + Send + Sync,
>(
    name: String,
    dims: &GridDims,
    empty: D,
    full: D,
    pool: BlockPool<D, BSX, N>,
    active: &Vec<usize>,
    plan: &SplatPlan,
    value: &V,
    merge: &M,
    combine: &C,
    finish: &F,
    params: &PdeParams,
    kernel: &K,
) -> (r: Result<SparseGrid<D, BSX, N>, SurfaceError>) where D: Dequant<O>, O: Copy + Default
    requires
        dims.wf(),
        dims.bsx == BSX,
        crate::blockpool::block_shape(BSX as int, N as int),
        pool.wf(),
        forall|i: int| 0 <= i < active@.len() ==> (#[trigger] active@[i]) < dims.count(),
        forall|i: int, j: int| 0 <= i < j < active@.len() ==> #[trigger] active@[i] < #[trigger] active@[j],
        plan_fits(plan, dims),
        crate::particles::splat::callable(value, merge, combine),
        forall|v: D| #[trigger] call_requires(*finish, (v,)),
        HSX == BSX + 2,
        HSX * HSX <= usize::MAX,
        HSX * HSX * HSX <= usize::MAX,
        1 <= dims.sx && 1 <= dims.sy && 1 <= dims.sz,
        2 * dims.sx <= i32::MAX && dims.sx + HSX <= i32::MAX,
        2 * dims.sy <= i32::MAX && dims.sy + HSX <= i32::MAX,
        2 * dims.sz <= i32::MAX && dims.sz + HSX <= i32::MAX,
        dims.count() <= u32::MAX,
        crate::solver::is_kernel::<D, O, BSX, N, HSX, K>(kernel, *params),
    ensures
        r is Ok <==> active@.len() + 2 <= pool.spec_limit() - pool.spec_allocated(),
        r matches Err(e) ==> e == SurfaceError::PoolExhausted,
        r matches Ok(g) ==> g.wf() && g.name == name && g.sx == dims.sx && g.sy == dims.sy && g.sz
            == dims.sz && stands_on(g, dims, empty, active@) && exists|s: SparseGrid<D, BSX, N>| #[trigger]
            is_surface(
                s,
                dims,
                empty,
                full,
                active@,
                plan,
                value,
                merge,
                combine,
                finish,
            ) && is_smoothed(s, g, active@, kernel, *params),
{
    match reconstruct_surface(
        name,
        dims,
        empty,
        full,
        pool,
        active,
        plan,
        value,
        merge,
        combine,
        finish,
    ) {
        Err(e) => Err(e),
        Ok(mut grid) => {
            let ghost s = grid;
            let ids: Vec<u32> = shortened(active);
            proof {
                assert forall|i: int| 0 <= i < ids@.len() implies (#[trigger] ids@[i])
                    < grid.n_blocks by {
                    assert(active@[i] < dims.count());
                }
            }
            apply_pde(&mut grid, &ids, Stencil::MeanCurvature, params, kernel);
            assert(is_smoothed(s, grid, active@, kernel, *params));
            proof {
                let buckets = choose|buckets: Seq<Vec<u32>>| #[trigger]
                    crate::solver::are_color_buckets(
                        s.nx as int,
                        s.ny as int,
                        ids@,
                        buckets,
                    ) && crate::solver::color_passes(
                        s,
                        grid,
                        buckets,
                        kernel,
                        *params,
                        Stencil::MeanCurvature.halo(),
                        Stencil::MeanCurvature.reads_full_halo(),
                        8 * params.iterations,
                    );
                crate::solver::law_sweeps_leave_the_rest(
                    s,
                    grid,
                    ids@,
                    buckets,
                    kernel,
                    *params,
                    Stencil::MeanCurvature.halo(),
                    Stencil::MeanCurvature.reads_full_halo(),
                    8 * params.iterations,
                );
                assert forall|b: int, v: int|
                    0 <= b < grid.n_blocks && !active@.contains(
                        b as usize,
                    ) implies #[trigger] grid.block_value(b, v) == empty by {
                    assert(grid.kind(b) == s.kind(b));
                    assert(!(s.kind(b) is Allocated));
                    assert(grid.same_block(&s, b));
                    assert(grid.block_value(b, v) == s.block_value(b, v));
                }
            }
            Ok(grid)
        },
    }
}

/// A voxel of the surface: in the active blocks it is the finished reduction of what the particles
/// contribute to it, starting from the full value; elsewhere it is empty.
pub proof fn law_surface_voxel<
    D,
    const BSX: usize,
    const N: usize,
    V: Fn(usize, i32, i32, i32) -> D,
    M: Fn(D, D) -> D,
    C: Fn(D, D) -> D,
    F: Fn(D) -> D,
>(
    r: SparseGrid<D, BSX, N>,
    dims: &GridDims,
    empty: D,
    full: D,
    active: Seq<usize>,
    plan: &SplatPlan,
    value: &V,
    merge: &M,
    combine: &C,
    finish: &F,
    op: spec_fn(D, D) -> D,
    val: spec_fn(usize, int, int, int) -> D,
    x: int,
    y: int,
    z: int,
) where D: Copy + Default + Send + Sync
    requires
        dims.wf(),
        dims.bsx == BSX,
        dims.sx <= i32::MAX,
        dims.sy <= i32::MAX,
        dims.sz <= i32::MAX,
        is_surface(r, dims, empty, full, active, plan, value, merge, combine, finish),
        crate::particles::reduce::reduces_by(op, merge, combine, full),
        crate::particles::reduce::gives(value, val),
        forall|i: int| 0 <= i < active.len() ==> (#[trigger] active[i]) < dims.count(),
        0 <= x < dims.sx,
        0 <= y < dims.sy,
        0 <= z < dims.sz,
        active.contains(dims.spec_block_of(x, y, z) as usize),
    ensures
        call_ensures(
            *finish,
            (crate::particles::reduce::contributions(
                plan,
                val,
                crate::particles::splat::color_order(
                    dims.nx as int,
                    dims.ny as int,
                    plan.particle_blocks@,
                    8,
                ),
                BSX as int,
                dims.nx as int,
                dims.ny as int,
                x,
                y,
                z,
            ).fold_left(full, op),),
            r.voxel(x, y, z),
        ),
{
    let order = crate::particles::splat::color_order(
        dims.nx as int,
        dims.ny as int,
        plan.particle_blocks@,
        8,
    );
    let (g0, g1) = choose|g0: SparseGrid<D, BSX, N>, g1: SparseGrid<D, BSX, N>|
        {
            &&& #[trigger] is_prepared(g0, dims, empty, full, active)
            &&& crate::particles::splat::ranks_splatted(
                g0,
                g1,
                plan,
                order,
                value,
                merge,
                combine,
                full,
            )
            &&& #[trigger] crate::particles::finalize::finalized(g1, r, active, finish)
        };
    g0.lemma_ids(x, y, z);
    let b = g0.bid_of(x, y, z);
    assert(b == dims.spec_block_of(x, y, z));
    let k = choose|k: int| 0 <= k < active.len() && active[k] == b as usize;
    assert(g0.kind(active[k] as int) is Allocated);
    assert(g0.block_value(b, SparseGrid::<D, BSX, N>::vid_of(x, y, z)) == full);
    crate::particles::reduce::law_splat_is_scatter(
        g0,
        g1,
        plan,
        order,
        value,
        merge,
        combine,
        full,
        op,
        val,
        x,
        y,
        z,
    );
    crate::particles::reduce::lemma_splat_keeps(g0, g1, plan, order, value, merge, combine, full);
    crate::particles::finalize::law_finalized_voxel(g1, r, active, finish, x, y, z);
}

/// The centers and the footprints are those of the kept particles, one for one.
pub proof fn law_centers_of_kept(cands: Seq<Candidate>, kept: Seq<usize>, dims: &GridDims, i: int)
    requires
        0 <= i < kept.len(),
    ensures
        centers(cands, kept, dims).len() == kept.len(),
        centers(cands, kept, dims)[i] == dims.spec_block_of(
            cands[kept[i] as int].x as int,
            cands[kept[i] as int].y as int,
            cands[kept[i] as int].z as int,
        ) as usize,
        footprints(cands, kept).len() == kept.len(),
        footprints(cands, kept)[i] == cands[kept[i] as int].footprint,
{
}

/// The plan orders the particles that are inside, each once: of two the one in the lower block
/// comes first, and in one block the one that came first.
pub proof fn law_surface_order(cands: Seq<Candidate>, dims: &GridDims, r: &SurfacePlan, i: int, j: int)
    requires
        cands.len() <= usize::MAX,
        is_surface_plan(cands, dims, r),
        0 <= i < j < r.order@.len(),
    ensures
        r.order@[i] < cands.len() && r.order@[j] < cands.len(),
        cands[r.order@[i] as int].inside,
        r.order@[i] != r.order@[j],
        ({
            let (a, b) = (cands[r.order@[i] as int], cands[r.order@[j] as int]);
            let p = dims.spec_block_of(a.x as int, a.y as int, a.z as int) as usize;
            let q = dims.spec_block_of(b.x as int, b.y as int, b.z as int) as usize;
            p < q || (p == q && r.order@[i] < r.order@[j])
        }),
{
    let kept = crate::particles::sort::kept_below(cands, dims, cands.len() as int);
    let bids = centers(cands, kept, dims);
    let plan = choose|plan: crate::particles::sort::BucketPlan|
        {
            &&& #[trigger] crate::particles::sort::is_bucketing(bids, plan)
            &&& r.order@ == crate::particles::sort::permuted(kept, plan.perm@)
            &&& r.particle_blocks == plan.particle_blocks
            &&& r.starts == plan.starts
        };
    crate::particles::sort::law_bucketing_is_stable_sort(bids, plan, i, j);
    let (a, b) = (plan.perm@[i] as int, plan.perm@[j] as int);
    crate::particles::sort::law_kept_particles(cands, dims, cands.len() as int, kept[a]);
    crate::particles::sort::law_kept_particles(cands, dims, cands.len() as int, kept[b]);
    assert(kept.contains(kept[a]));
    if a < b {
        assert(kept[a] < kept[b]);
    } else {
        assert(kept[b] < kept[a]);
    }
}

/// Outside of the active blocks the surface is empty, and the active blocks have memory of their own.
pub proof fn law_surface_elsewhere<D, const BSX: usize, const N: usize>(
    g: SparseGrid<D, BSX, N>,
    dims: &GridDims,
    empty: D,
    active: Seq<usize>,
    x: int,
    y: int,
    z: int,
) where D: Copy + Default + Send + Sync
    requires
        g.wf(),
        stands_on(g, dims, empty, active),
        0 <= x < g.sx,
        0 <= y < g.sy,
        0 <= z < g.sz,
    ensures
        !active.contains(g.bid_of(x, y, z) as usize) ==> g.voxel(x, y, z) == empty,
        active.contains(g.bid_of(x, y, z) as usize) <==> g.kind(g.bid_of(x, y, z)) is Allocated,
{
    g.lemma_ids(x, y, z);
    let (b, v) = (g.bid_of(x, y, z), SparseGrid::<D, BSX, N>::vid_of(x, y, z));
    assert(g.kind(b) is Allocated <==> active.contains(b as usize));
    if !active.contains(b as usize) {
        assert(g.block_value(b, v) == empty);
    }
}

/// The smoothing of a surface is that of mean curvature: a halo of one voxel, read in full, and eight
/// passes for each iteration. Without iterations nothing changes.
pub proof fn law_smoothing<
    D,
    O,
    const BSX: usize,
    const N: usize,
    const HSX: usize,
    K: Fn(&HaloBlock<O, BSX, HSX>, Scalar, bool) -> Vec<D>,
>(
    s: SparseGrid<D, BSX, N>,
    g: SparseGrid<D, BSX, N>,
    active: Seq<usize>,
    kernel: &K,
    params: PdeParams,
) where D: Dequant<O>, O: Copy + Default
    requires
        is_smoothed(s, g, active, kernel, params),
    ensures
        params.iterations == 0 ==> g == s,
        exists|buckets: Seq<Vec<u32>>| #[trigger]
            crate::solver::are_color_buckets(s.nx as int, s.ny as int, short_ids(active), buckets)
                && crate::solver::color_passes(
                s,
                g,
                buckets,
                kernel,
                params,
                1,
                true,
                8 * params.iterations,
            ),
        short_ids(active).len() == active.len(),
        forall|i: int|
            0 <= i < active.len() && active[i] <= u32::MAX ==> #[trigger] short_ids(active)[i]
                == active[i],
{
}

/// A cloud has at least one point, and it is that of the file; a file without any is an error of
/// its own, and what else is wrong with a file is handed on.
pub proof fn law_cloud(ply: Seq<u8>, e: PlyError)
    ensures
        cloud_of(ply) matches Ok(s) ==> 0 < s.len() && crate::io::ply::loaded(ply) == Ok::<
            Seq<PlyVertex>,
            PlyError,
        >(s),
        cloud_of(ply) == Err::<Seq<PlyVertex>, SurfaceError>(SurfaceError::NoVertices) <==> (
        crate::io::ply::loaded(ply) matches Ok(s) && s.len() == 0),
        cloud_of(ply) == Err::<Seq<PlyVertex>, SurfaceError>(SurfaceError::Ply(e)) <==> (
        crate::io::ply::loaded(ply) matches Err(f) && f == e),
{
}

} // verus!
