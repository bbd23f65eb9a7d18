//! Particles to grid: mass and momentum splatted to the faces of a staggered grid.

use crate::channel::Scalar;
use crate::fluid::mac::{MacGrid, X, Y, Z};
use crate::fluid::particles::{bucket_particles, BucketedParticles, Particles};
use crate::particles::active::active_blocks;
use crate::particles::dims::{BlockBox, GridDims};
use crate::particles::splat::SplatPlan;
use vstd::prelude::*;

verus! {

/// Where a transfer goes: the particles by block, and the blocks that they reach.
pub struct TransferPlan {
    pub particles: BucketedParticles,
    /// Blocks that the footprints reach, by increasing id.
    pub active: Vec<usize>,
}

/// All cells lie in the domain.
pub open spec fn cells_inside(cells: Seq<(usize, usize, usize)>, dims: &GridDims) -> bool {
    forall|i: int|
        0 <= i < cells.len() ==> (#[trigger] cells[i]).0 < dims.sx && cells[i].1 < dims.sy
            && cells[i].2 < dims.sz
}

/// The blocks of the cells.
pub open spec fn blocks_of(cells: Seq<(usize, usize, usize)>, dims: &GridDims) -> Seq<usize> {
    Seq::new(
        cells.len(),
        |i: int|
            dims.spec_block_of(cells[i].0 as int, cells[i].1 as int, cells[i].2 as int) as usize,
    )
}

/// Plans the transfer of particles: `cells[j]` is the cell of particle `j`, and `footprints[j]` the
/// blocks that its faces reach.
pub fn plan_transfer(
    particles: &Particles,
    cells: &Vec<(usize, usize, usize)>,
    footprints: &Vec<BlockBox>,
    dims: &GridDims,
) -> (r: TransferPlan)
    requires
        particles.wf(),
        dims.wf(),
        cells@.len() == particles.positions@.len(),
        cells_inside(cells@, dims),
        crate::particles::sort::blocks_fit(blocks_of(cells@, dims), dims),
        crate::particles::active::reach_fits(footprints@, dims),
    ensures
        crate::fluid::particles::is_bucketed(particles, blocks_of(cells@, dims), &r.particles),
        crate::particles::active::are_active_blocks(r.active@, footprints@, dims),
{
    let mut bids: Vec<usize> = Vec::new();
    let n: usize = cells.len();
    let mut i: usize = 0;
    while i < n
        invariant
            n == cells@.len(),
            i <= n,
            dims.wf(),
            cells_inside(cells@, dims),
            bids@ == blocks_of(cells@, dims).take(i as int),
            forall|j: int| 0 <= j < i ==> (#[trigger] bids@[j]) < dims.count(),
        decreases n - i,
    {
        let (x, y, z): (usize, usize, usize) = cells[i];
        assert((x, y, z) == cells@[i as int]);
        bids.push(dims.block_of(x, y, z));
        assert(bids@ =~= blocks_of(cells@, dims).take(i + 1));
        i = i + 1;
    }
    proof {
        assert(bids@ =~= blocks_of(cells@, dims));
        crate::particles::sort::lemma_blocks_fit(bids@, dims);
    }
    TransferPlan {
        particles: bucket_particles(particles, &bids),
        active: active_blocks(footprints, dims),
    }
}

/// What the mass field and the momentum field of one axis become: the particles are splatted to both,
/// in the order of the colors of their blocks.
pub open spec fn axis_splatted<
    const BSX: usize,
    const N: usize,
    V: Fn(usize, i32, i32, i32) -> Scalar,
    W: Fn(usize, i32, i32, i32) -> Scalar,
    S: Fn(Scalar, Scalar) -> Scalar,
>(
    before: &MacGrid<BSX, N>,
    after: &MacGrid<BSX, N>,
    a: int,
    plan: &SplatPlan,
    mass_value: &V,
    mom_value: &W,
    sum: &S,
) -> bool {
    &&& crate::particles::splat::ranks_splatted(
        before.mass@[a],
        after.mass@[a],
        plan,
        crate::particles::splat::color_order(
            before.mass@[a].nx as int,
            before.mass@[a].ny as int,
            plan.particle_blocks@,
            8,
        ),
        mass_value,
        sum,
        sum,
        Scalar(0),
    )
    &&& crate::particles::splat::ranks_splatted(
        before.velocity@[a],
        after.velocity@[a],
        plan,
        crate::particles::splat::color_order(
            before.velocity@[a].nx as int,
            before.velocity@[a].ny as int,
            plan.particle_blocks@,
            8,
        ),
        mom_value,
        sum,
        sum,
        Scalar(0),
    )
}

/// Splats the particles to the faces along axis `a`: `mass_value` of each particle and face is summed
/// into the mass field, and `mom_value` into the velocity field, which holds momentum until it is
/// normalized. `sum` adds two numbers.
pub fn splat<
    const BSX: usize,
    const N: usize,
    V: Fn(usize, i32, i32, i32) -> Scalar + Send + Sync,
    W: Fn(usize, i32, i32, i32) -> Scalar + Send + Sync,
    S: Fn(Scalar, Scalar) -> Scalar + Send + Sync,
>(
    mac: &mut MacGrid<BSX, N>,
    a: usize,
    plan: &SplatPlan,
    mass_value: &V,
    mom_value: &W,
    sum: &S,
)
    requires
        old(mac).wf(),
        a < 3,
        plan.fits(&old(mac).velocity@[0]),
        crate::particles::splat::callable(mass_value, sum, sum),
        crate::particles::splat::callable(mom_value, sum, sum),
    ensures
        final(mac).wf(),
        forall|k: int|
            0 <= k < 3 && k != a ==> #[trigger] final(mac).velocity@[k] == old(mac).velocity@[k],
        forall|k: int| 0 <= k < 3 && k != a ==> #[trigger] final(mac).mass@[k] == old(mac).mass@[k],
        final(mac).same_sizes(old(mac)),
        axis_splatted(old(mac), final(mac), a as int, plan, mass_value, mom_value, sum),
{
    proof {
        let (sx, sy, sz) = (mac.spec_sx(), mac.spec_sy(), mac.spec_sz());
        assert(crate::fluid::mac::is_face_grid(&mac.velocity@[0], sx, sy, sz));
        assert(crate::fluid::mac::is_face_grid(&mac.velocity@[a as int], sx, sy, sz));
        assert(crate::fluid::mac::is_face_grid(&mac.mass@[a as int], sx, sy, sz));
    }
    crate::particles::splat::splat(
        &mut mac.mass[a],
        plan,
        mass_value,
        sum,
        sum,
        Scalar(0),
    );
    crate::particles::splat::splat(
        &mut mac.velocity[a],
        plan,
        mom_value,
        sum,
        sum,
        Scalar(0),
    );
}

/// What is splatted along one axis: where, and the mass and the momentum that a particle gives to a
/// face.
pub struct FaceSplat<'a, V, W> {
    pub plan: &'a SplatPlan,
    pub mass: &'a V,
    pub momentum: &'a W,
}

/// What a transfer makes of the grid: the active blocks are zeroed, the particles are splatted axis by
/// axis, and the momentum is turned into velocity.
pub open spec fn is_transferred<
    const BSX: usize,
    const N: usize,
    V0: Fn(usize, i32, i32, i32) -> Scalar,
    W0: Fn(usize, i32, i32, i32) -> Scalar,
    V1: Fn(usize, i32, i32, i32) -> Scalar,
    W1: Fn(usize, i32, i32, i32) -> Scalar,
    V2: Fn(usize, i32, i32, i32) -> Scalar,
    W2: Fn(usize, i32, i32, i32) -> Scalar,
    S: Fn(Scalar, Scalar) -> Scalar,
    R: Fn(Scalar, Scalar) -> Scalar,
>(
    before: &MacGrid<BSX, N>,
    z: &MacGrid<BSX, N>,
    s: &MacGrid<BSX, N>,
    after: &MacGrid<BSX, N>,
    active: Seq<usize>,
    fx: &FaceSplat<V0, W0>,
    fy: &FaceSplat<V1, W1>,
    fz: &FaceSplat<V2, W2>,
    sum: &S,
    ratio: &R,
) -> bool {
    &&& forall|a: int|
        0 <= a < 3 ==> crate::fluid::mac::zeroed(
            &before.velocity@[a],
            #[trigger] &z.velocity@[a],
            active,
        )
    &&& forall|a: int|
        0 <= a < 3 ==> crate::fluid::mac::zeroed(&before.mass@[a], #[trigger] &z.mass@[a], active)
    &&& axis_splatted(z, s, 0, fx.plan, fx.mass, fx.momentum, sum)
    &&& axis_splatted(z, s, 1, fy.plan, fy.mass, fy.momentum, sum)
    &&& axis_splatted(z, s, 2, fz.plan, fz.mass, fz.momentum, sum)
    &&& after.mass == s.mass
    &&& forall|a: int|
        0 <= a < 3 ==> crate::fluid::mac::normalized(
            &s.velocity@[a],
            #[trigger] &after.velocity@[a],
            &s.mass@[a],
            active,
            ratio,
        )
}

/// The full transfer: zeroes the active blocks, splats mass and momentum to the faces along x, y and
/// z, and turns momentum into velocity.
pub fn particles_to_grid<
    const BSX: usize,
    const N: usize,
    V0: Fn(usize, i32, i32, i32) -> Scalar + Send + Sync,
    W0: Fn(usize, i32, i32, i32) -> Scalar + Send + Sync,
    V1: Fn(usize, i32, i32, i32) -> Scalar + Send + Sync,
    W1: Fn(usize, i32, i32, i32) -> Scalar + Send + Sync,
    V2: Fn(usize, i32, i32, i32) -> Scalar + Send + Sync,
    W2: Fn(usize, i32, i32, i32) -> Scalar + Send + Sync,
    S: Fn(Scalar, Scalar) -> Scalar + Send + Sync,
    R: Fn(Scalar, Scalar) -> Scalar + Send + Sync,
>(
    mac: &mut MacGrid<BSX, N>,
    active: &Vec<usize>,
    fx: &FaceSplat<V0, W0>,
    fy: &FaceSplat<V1, W1>,
    fz: &FaceSplat<V2, W2>,
    sum: &S,
    ratio: &R,
)
    requires
        old(mac).wf(),
        forall|i: int|
            0 <= i < active@.len() ==> (#[trigger] active@[i]) < old(mac).velocity@[0].n_blocks,
        forall|a: int|
            0 <= a < 3 ==> crate::fluid::mac::has_room_for(
                #[trigger] &old(mac).velocity@[a],
                active@,
            ),
        forall|a: int|
            0 <= a < 3 ==> crate::fluid::mac::has_room_for(#[trigger] &old(mac).mass@[a], active@),
        fx.plan.fits(&old(mac).velocity@[0]),
        fy.plan.fits(&old(mac).velocity@[0]),
        fz.plan.fits(&old(mac).velocity@[0]),
        crate::particles::splat::callable(fx.mass, sum, sum),
        crate::particles::splat::callable(fx.momentum, sum, sum),
        crate::particles::splat::callable(fy.mass, sum, sum),
        crate::particles::splat::callable(fy.momentum, sum, sum),
        crate::particles::splat::callable(fz.mass, sum, sum),
        crate::particles::splat::callable(fz.momentum, sum, sum),
        forall|a: Scalar, b: Scalar| #[trigger] call_requires(*ratio, (a, b)),
    ensures
        final(mac).wf(),
        final(mac).same_sizes(old(mac)),
        exists|z: MacGrid<BSX, N>, s: MacGrid<BSX, N>| #[trigger]
            is_transferred(
                old(mac),
                &z,
                &s,
                final(mac),
                active@,
                fx,
                fy,
                fz,
                sum,
                ratio,
            ),
{
    mac.zero_blocks(active);
    let ghost z = *mac;
    splat(mac, X, fx.plan, fx.mass, fx.momentum, sum);
    proof {
        let (sx, sy, sz) = (mac.spec_sx(), mac.spec_sy(), mac.spec_sz());
        assert(crate::fluid::mac::is_face_grid(&mac.velocity@[0], sx, sy, sz));
        assert(crate::fluid::mac::is_face_grid(&z.velocity@[0], sx, sy, sz));
    }
    splat(mac, Y, fy.plan, fy.mass, fy.momentum, sum);
    proof {
        let (sx, sy, sz) = (mac.spec_sx(), mac.spec_sy(), mac.spec_sz());
        assert(crate::fluid::mac::is_face_grid(&mac.velocity@[0], sx, sy, sz));
        assert(crate::fluid::mac::is_face_grid(&z.velocity@[0], sx, sy, sz));
    }
    splat(mac, Z, fz.plan, fz.mass, fz.momentum, sum);
    let ghost s = *mac;
    mac.normalize_velocity(active, ratio);
    assert(is_transferred(old(mac), &z, &s, mac, active@, fx, fy, fz, sum, ratio));
}

/// The blocks of the cells are listed in the order of the cells, each by where its cell lies.
pub proof fn law_blocks_of_cells(
    cells: Seq<(usize, usize, usize)>,
    dims: &GridDims,
    i: int,
    bx: int,
    by: int,
    bz: int,
)
    requires
        0 <= i < cells.len(),
        dims.bsx * bx <= cells[i].0 < dims.bsx * bx + dims.bsx,
        dims.bsx * by <= cells[i].1 < dims.bsx * by + dims.bsx,
        dims.bsx * bz <= cells[i].2 < dims.bsx * bz + dims.bsx,
    ensures
        blocks_of(cells, dims).len() == cells.len(),
        blocks_of(cells, dims)[i] == (bx + dims.nx * by + dims.nx * dims.ny * bz) as usize,
{
    let b = dims.bsx as int;
    crate::particles::dims::law_block_of_voxel(
        dims,
        bx,
        by,
        bz,
        cells[i].0 - b * bx,
        cells[i].1 - b * by,
        cells[i].2 - b * bz,
    );
}

/// One axis of a transfer at face `(x, y, z)` of an active block: the mass is the sum of what the
/// particles give the face, and the velocity the ratio of the sum of their momentum to it.
proof fn lemma_axis_transfer<
    const BSX: usize,
    const N: usize,
    V: Fn(usize, i32, i32, i32) -> Scalar,
    W: Fn(usize, i32, i32, i32) -> Scalar,
    S: Fn(Scalar, Scalar) -> Scalar,
    R: Fn(Scalar, Scalar) -> Scalar,
>(
    before: &MacGrid<BSX, N>,
    zero: &MacGrid<BSX, N>,
    s: &MacGrid<BSX, N>,
    after: &MacGrid<BSX, N>,
    active: Seq<usize>,
    a: int,
    f: &FaceSplat<V, W>,
    sum: &S,
    ratio: &R,
    op: spec_fn(Scalar, Scalar) -> Scalar,
    mass: spec_fn(usize, int, int, int) -> Scalar,
    momentum: spec_fn(usize, int, int, int) -> Scalar,
    x: int,
    y: int,
    z: int,
)
    requires
        0 <= a < 3,
        before.wf(),
        before.spec_sx() <= i32::MAX && before.spec_sy() <= i32::MAX && before.spec_sz() <= i32::MAX,
        crate::fluid::mac::zeroed(&before.velocity@[a], &zero.velocity@[a], active),
        crate::fluid::mac::zeroed(&before.mass@[a], &zero.mass@[a], active),
        axis_splatted(zero, s, a, f.plan, f.mass, f.momentum, sum),
        after.mass == s.mass,
        crate::fluid::mac::normalized(
            &s.velocity@[a],
            &after.velocity@[a],
            &s.mass@[a],
            active,
            ratio,
        ),
        crate::particles::reduce::reduces_by(op, sum, sum, Scalar(0)),
        crate::particles::reduce::gives(f.mass, mass),
        crate::particles::reduce::gives(f.momentum, momentum),
        0 <= x < before.spec_sx(),
        0 <= y < before.spec_sy(),
        0 <= z < before.spec_sz(),
        active.contains(before.velocity@[0].bid_of(x, y, z) as usize),
    ensures
        face_sum(before, f.plan, mass, op, x, y, z) == after.mass@[a].voxel(x, y, z),
        call_ensures(
            *ratio,
            (
                face_sum(before, f.plan, momentum, op, x, y, z),
                face_sum(before, f.plan, mass, op, x, y, z),
            ),
            after.velocity@[a].voxel(x, y, z),
        ),
{
    let (v, m) = (zero.velocity@[a], zero.mass@[a]);
    let b = before.velocity@[0].bid_of(x, y, z);
    before.velocity@[0].lemma_ids(x, y, z);
    let (bv, bm) = (&before.velocity@[a], &before.mass@[a]);
    assert(crate::fluid::mac::is_face_grid(
        bv,
        before.spec_sx(),
        before.spec_sy(),
        before.spec_sz(),
    ));
    assert(crate::fluid::mac::is_face_grid(
        bm,
        before.spec_sx(),
        before.spec_sy(),
        before.spec_sz(),
    ));
    let first = &before.velocity@[0];
    assert(crate::fluid::mac::is_face_grid(
        first,
        before.spec_sx(),
        before.spec_sy(),
        before.spec_sz(),
    ));
    let vid = crate::sparse_grid::SparseGrid::<Scalar, BSX, N>::vid_of(x, y, z);
    let k = choose|k: int| 0 <= k < active.len() && active[k] == b as usize;
    assert(v.kind(active[k] as int) is Allocated);
    assert(m.kind(active[k] as int) is Allocated);
    assert(v.block_value(b, vid) == Scalar(0));
    assert(m.block_value(b, vid) == Scalar(0));
    let order = crate::particles::splat::color_order(
        v.nx as int,
        v.ny as int,
        f.plan.particle_blocks@,
        8,
    );
    crate::particles::reduce::law_splat_is_scatter(
        v,
        s.velocity@[a],
        f.plan,
        order,
        f.momentum,
        sum,
        sum,
        Scalar(0),
        op,
        momentum,
        x,
        y,
        z,
    );
    crate::particles::reduce::law_splat_is_scatter(
        m,
        s.mass@[a],
        f.plan,
        order,
        f.mass,
        sum,
        sum,
        Scalar(0),
        op,
        mass,
        x,
        y,
        z,
    );
    crate::particles::reduce::lemma_splat_keeps(
        v,
        s.velocity@[a],
        f.plan,
        order,
        f.momentum,
        sum,
        sum,
        Scalar(0),
    );
    crate::particles::reduce::lemma_splat_keeps(
        m,
        s.mass@[a],
        f.plan,
        order,
        f.mass,
        sum,
        sum,
        Scalar(0),
    );
    assert(crate::fluid::mac::is_zip(
        ratio,
        s.velocity@[a].block_data(b),
        s.mass@[a].block_data(b),
        after.velocity@[a].block_data(b),
    ));
    assert(after.velocity@[a].block_data(b)[vid] == after.velocity@[a].block_value(b, vid));
    assert(after.velocity@[a].kind(b) == s.velocity@[a].kind(b));
}

/// The sum of what the particles of a plan give face `(x, y, z)`.
pub open spec fn face_sum<const BSX: usize, const N: usize>(
    mac: &MacGrid<BSX, N>,
    plan: &SplatPlan,
    val: spec_fn(usize, int, int, int) -> Scalar,
    op: spec_fn(Scalar, Scalar) -> Scalar,
    x: int,
    y: int,
    z: int,
) -> Scalar {
    let g = mac.velocity@[0];
    crate::particles::reduce::contributions(
        plan,
        val,
        crate::particles::splat::color_order(
            g.nx as int,
            g.ny as int,
            plan.particle_blocks@,
            8,
        ),
        BSX as int,
        g.nx as int,
        g.ny as int,
        x,
        y,
        z,
    ).fold_left(Scalar(0), op)
}

/// A transfer at a face of an active block, axis by axis: the mass there is the sum of what the
/// particles give the face along that axis, whatever was there before, and the velocity the ratio
/// of the sum of their momentum along the axis to that mass.
pub proof fn law_transfer_at_face<
    const BSX: usize,
    const N: usize,
    V0: Fn(usize, i32, i32, i32) -> Scalar,
    W0: Fn(usize, i32, i32, i32) -> Scalar,
    V1: Fn(usize, i32, i32, i32) -> Scalar,
    W1: Fn(usize, i32, i32, i32) -> Scalar,
    V2: Fn(usize, i32, i32, i32) -> Scalar,
    W2: Fn(usize, i32, i32, i32) -> Scalar,
    S: Fn(Scalar, Scalar) -> Scalar,
    R: Fn(Scalar, Scalar) -> Scalar,
>(
    before: &MacGrid<BSX, N>,
    zero: &MacGrid<BSX, N>,
    s: &MacGrid<BSX, N>,
    after: &MacGrid<BSX, N>,
    active: Seq<usize>,
    fx: &FaceSplat<V0, W0>,
    fy: &FaceSplat<V1, W1>,
    fz: &FaceSplat<V2, W2>,
    sum: &S,
    ratio: &R,
    op: spec_fn(Scalar, Scalar) -> Scalar,
    mass: (
        spec_fn(usize, int, int, int) -> Scalar,
        spec_fn(usize, int, int, int) -> Scalar,
        spec_fn(usize, int, int, int) -> Scalar,
    ),
    momentum: (
        spec_fn(usize, int, int, int) -> Scalar,
        spec_fn(usize, int, int, int) -> Scalar,
        spec_fn(usize, int, int, int) -> Scalar,
    ),
    x: int,
    y: int,
    z: int,
)
    requires
        before.wf(),
        before.spec_sx() <= i32::MAX && before.spec_sy() <= i32::MAX && before.spec_sz() <= i32::MAX,
        is_transferred(before, zero, s, after, active, fx, fy, fz, sum, ratio),
        crate::particles::reduce::reduces_by(op, sum, sum, Scalar(0)),
        crate::particles::reduce::gives(fx.mass, mass.0),
        crate::particles::reduce::gives(fy.mass, mass.1),
        crate::particles::reduce::gives(fz.mass, mass.2),
        crate::particles::reduce::gives(fx.momentum, momentum.0),
        crate::particles::reduce::gives(fy.momentum, momentum.1),
        crate::particles::reduce::gives(fz.momentum, momentum.2),
        0 <= x < before.spec_sx(),
        0 <= y < before.spec_sy(),
        0 <= z < before.spec_sz(),
        active.contains(before.velocity@[0].bid_of(x, y, z) as usize),
    ensures
        after.mass@[0].voxel(x, y, z) == face_sum(before, fx.plan, mass.0, op, x, y, z),
        after.mass@[1].voxel(x, y, z) == face_sum(before, fy.plan, mass.1, op, x, y, z),
        after.mass@[2].voxel(x, y, z) == face_sum(before, fz.plan, mass.2, op, x, y, z),
        call_ensures(
            *ratio,
            (
                face_sum(before, fx.plan, momentum.0, op, x, y, z),
                after.mass@[0].voxel(x, y, z),
            ),
            after.velocity@[0].voxel(x, y, z),
        ),
        call_ensures(
            *ratio,
            (
                face_sum(before, fy.plan, momentum.1, op, x, y, z),
                after.mass@[1].voxel(x, y, z),
            ),
            after.velocity@[1].voxel(x, y, z),
        ),
        call_ensures(
            *ratio,
            (
                face_sum(before, fz.plan, momentum.2, op, x, y, z),
                after.mass@[2].voxel(x, y, z),
            ),
            after.velocity@[2].voxel(x, y, z),
        ),
{
    let (z0, z1, z2) = (&zero.velocity@[0], &zero.velocity@[1], &zero.velocity@[2]);
    let (m0, m1, m2) = (&zero.mass@[0], &zero.mass@[1], &zero.mass@[2]);
    let (a0, a1, a2) = (&after.velocity@[0], &after.velocity@[1], &after.velocity@[2]);
    lemma_axis_transfer(
        before,
        zero,
        s,
        after,
        active,
        0,
        fx,
        sum,
        ratio,
        op,
        mass.0,
        momentum.0,
        x,
        y,
        z,
    );
    lemma_axis_transfer(
        before,
        zero,
        s,
        after,
        active,
        1,
        fy,
        sum,
        ratio,
        op,
        mass.1,
        momentum.1,
        x,
        y,
        z,
    );
    lemma_axis_transfer(
        before,
        zero,
        s,
        after,
        active,
        2,
        fz,
        sum,
        ratio,
        op,
        mass.2,
        momentum.2,
        x,
        y,
        z,
    );
}

} // verus!
