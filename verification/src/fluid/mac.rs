//! The staggered grid: three face velocities and three face masses.
//!
//! Voxel `(i, j, k)` of component `a` stores the value at the right face of that cell along axis `a`.
//! The half-cell shift lives in the coordinates, so all six grids have the size of the domain.

use crate::blockpool::BlockPool;
use crate::channel::Scalar;
use crate::sparse_grid::{BlockKind, SparseGrid};
use vstd::prelude::*;

verus! {

/// The x face direction.
pub const X: usize = 0;

/// The y face direction.
pub const Y: usize = 1;

/// The z face direction.
pub const Z: usize = 2;

/// Staggered grid: `velocity[a]` and `mass[a]` are the fields of the faces along axis `a`.
pub struct MacGrid<const BSX: usize, const N: usize> {
    pub velocity: Vec<SparseGrid<Scalar, BSX, N>>,
    pub mass: Vec<SparseGrid<Scalar, BSX, N>>,
}

/// The grid is well-formed, has the given sizes, and reads as zero where it is empty or full.
pub open spec fn is_face_grid<const BSX: usize, const N: usize>(
    g: &SparseGrid<Scalar, BSX, N>,
    sx: usize,
    sy: usize,
    sz: usize,
) -> bool {
    &&& g.wf()
    &&& g.sx == sx
    &&& g.sy == sy
    &&& g.sz == sz
    &&& g.empty_value == Scalar(0)
    &&& g.full_value == Scalar(0)
}

/// A grid of `sx * sy * sz` voxels can be built with a pool of the given size.
pub open spec fn can_build(bsx: int, n: int, sx: int, sy: int, sz: int, max_segments: int, per_seg: int) -> bool {
    let nx = crate::layout::ceil_div(sx, bsx);
    let ny = crate::layout::ceil_div(sy, bsx);
    let nz = crate::layout::ceil_div(sz, bsx);
    &&& crate::blockpool::block_shape(bsx, n)
    &&& crate::arith::is_pow2(per_seg)
    &&& 0 < per_seg
    &&& 0 < max_segments
    &&& 2 <= max_segments * per_seg <= usize::MAX
    &&& sx + bsx <= usize::MAX
    &&& sy + bsx <= usize::MAX
    &&& sz + bsx <= usize::MAX
    &&& nx * ny <= usize::MAX
    &&& nx * ny * nz <= usize::MAX
}

fn face_grid<const BSX: usize, const N: usize>(
    name: String,
    sx: usize,
    sy: usize,
    sz: usize,
    max_segments: usize,
    blocks_per_seg: usize,
) -> (r: SparseGrid<Scalar, BSX, N>)
    requires
        can_build(
            BSX as int,
            N as int,
            sx as int,
            sy as int,
            sz as int,
            max_segments as int,
            blocks_per_seg as int,
        ),
    ensures
        is_face_grid(&r, sx, sy, sz),
        r.name == name,
        r.spec_free() == max_segments * blocks_per_seg - 2,
        forall|b: int| 0 <= b < r.n_blocks ==> #[trigger] r.kind(b) is Empty,
{
    let pool: BlockPool<Scalar, BSX, N> = BlockPool::new(max_segments, blocks_per_seg);
    SparseGrid::new(name, sx, sy, sz, Scalar(0), Scalar(0), pool)
}

impl<const BSX: usize, const N: usize> MacGrid<BSX, N> {
    /// The sizes of the domain.
    pub open spec fn spec_sx(&self) -> usize {
        self.velocity@[0].sx
    }

    pub open spec fn spec_sy(&self) -> usize {
        self.velocity@[0].sy
    }

    pub open spec fn spec_sz(&self) -> usize {
        self.velocity@[0].sz
    }

    /// Both grids have the same sizes.
    pub open spec fn same_sizes(&self, other: &Self) -> bool {
        &&& self.spec_sx() == other.spec_sx()
        &&& self.spec_sy() == other.spec_sy()
        &&& self.spec_sz() == other.spec_sz()
    }

    /// There are three velocity and three mass grids, all of the same sizes.
    pub open spec fn wf(&self) -> bool {
        &&& self.velocity@.len() == 3
        &&& self.mass@.len() == 3
        &&& forall|a: int|
            0 <= a < 3 ==> is_face_grid(
                #[trigger] &self.velocity@[a],
                self.spec_sx(),
                self.spec_sy(),
                self.spec_sz(),
            )
        &&& forall|a: int|
            0 <= a < 3 ==> is_face_grid(
                #[trigger] &self.mass@[a],
                self.spec_sx(),
                self.spec_sy(),
                self.spec_sz(),
            )
    }

    /// A grid of `sx * sy * sz` cells, zero everywhere. Each of the six fields gets a pool of
    /// `max_segments` segments of `blocks_per_seg` blocks.
    pub fn new(sx: usize, sy: usize, sz: usize, max_segments: usize, blocks_per_seg: usize) -> (r: Self)
        requires
            can_build(
                BSX as int,
                N as int,
                sx as int,
                sy as int,
                sz as int,
                max_segments as int,
                blocks_per_seg as int,
            ),
        ensures
            r.wf(),
            r.spec_sx() == sx,
            r.spec_sy() == sy,
            r.spec_sz() == sz,
            forall|a: int|
                0 <= a < 3 ==> (#[trigger] r.velocity@[a]).spec_free() == max_segments
                    * blocks_per_seg - 2 && all_empty(&r.velocity@[a]),
            forall|a: int|
                0 <= a < 3 ==> (#[trigger] r.mass@[a]).spec_free() == max_segments * blocks_per_seg
                    - 2 && all_empty(&r.mass@[a]),
            r.velocity@[0].name@ == "vel_u"@,
            r.velocity@[1].name@ == "vel_v"@,
            r.velocity@[2].name@ == "vel_w"@,
            r.mass@[0].name@ == "mass_u"@,
            r.mass@[1].name@ == "mass_v"@,
            r.mass@[2].name@ == "mass_w"@,
    {
        let mut velocity: Vec<SparseGrid<Scalar, BSX, N>> = Vec::with_capacity(3);
        velocity.push(face_grid("vel_u".to_string(), sx, sy, sz, max_segments, blocks_per_seg));
        velocity.push(face_grid("vel_v".to_string(), sx, sy, sz, max_segments, blocks_per_seg));
        velocity.push(face_grid("vel_w".to_string(), sx, sy, sz, max_segments, blocks_per_seg));
        let mut mass: Vec<SparseGrid<Scalar, BSX, N>> = Vec::with_capacity(3);
        mass.push(face_grid("mass_u".to_string(), sx, sy, sz, max_segments, blocks_per_seg));
        mass.push(face_grid("mass_v".to_string(), sx, sy, sz, max_segments, blocks_per_seg));
        mass.push(face_grid("mass_w".to_string(), sx, sy, sz, max_segments, blocks_per_seg));
        MacGrid { velocity, mass }
    }

    /// Cells along x.
    pub fn sx(&self) -> (r: usize)
        requires
            self.wf(),
        ensures
            r == self.spec_sx(),
    {
        self.velocity[X].sx
    }

    /// Cells along y.
    pub fn sy(&self) -> (r: usize)
        requires
            self.wf(),
        ensures
            r == self.spec_sy(),
    {
        self.velocity[X].sy
    }

    /// Cells along z.
    pub fn sz(&self) -> (r: usize)
        requires
            self.wf(),
        ensures
            r == self.spec_sz(),
    {
        self.velocity[X].sz
    }

    /// Blocks along x.
    pub fn nx(&self) -> (r: usize)
        requires
            self.wf(),
        ensures
            r == crate::layout::ceil_div(self.spec_sx() as int, BSX as int),
    {
        assert(is_face_grid(&self.velocity@[0], self.spec_sx(), self.spec_sy(), self.spec_sz()));
        self.velocity[X].nx
    }

    /// Blocks along y.
    pub fn ny(&self) -> (r: usize)
        requires
            self.wf(),
        ensures
            r == crate::layout::ceil_div(self.spec_sy() as int, BSX as int),
    {
        assert(is_face_grid(&self.velocity@[0], self.spec_sx(), self.spec_sy(), self.spec_sz()));
        self.velocity[X].ny
    }

    /// Blocks of one z slice.
    pub fn nxy(&self) -> (r: usize)
        requires
            self.wf(),
        ensures
            r == crate::layout::ceil_div(self.spec_sx() as int, BSX as int)
                * crate::layout::ceil_div(self.spec_sy() as int, BSX as int),
    {
        assert(is_face_grid(&self.velocity@[0], self.spec_sx(), self.spec_sy(), self.spec_sz()));
        self.velocity[X].nxy
    }

    /// The velocity of the faces along axis `a`.
    pub fn velocity(&self, a: usize) -> (r: &SparseGrid<Scalar, BSX, N>)
        requires
            self.wf(),
            a < 3,
        ensures
            *r == self.velocity@[a as int],
    {
        &self.velocity[a]
    }

    /// The velocity of the faces along axis `a`, to be changed.
    pub fn velocity_mut(&mut self, a: usize) -> (r: &mut SparseGrid<Scalar, BSX, N>)
        requires
            old(self).wf(),
            a < 3,
        ensures
            *r == old(self).velocity@[a as int],
            final(self).velocity@ == old(self).velocity@.update(a as int, *final(r)),
            final(self).mass == old(self).mass,
    {
        &mut self.velocity[a]
    }

    /// The mass at the faces along axis `a`.
    pub fn mass(&self, a: usize) -> (r: &SparseGrid<Scalar, BSX, N>)
        requires
            self.wf(),
            a < 3,
        ensures
            *r == self.mass@[a as int],
    {
        &self.mass[a]
    }

    /// The mass at the faces along axis `a`, to be changed.
    pub fn mass_mut(&mut self, a: usize) -> (r: &mut SparseGrid<Scalar, BSX, N>)
        requires
            old(self).wf(),
            a < 3,
        ensures
            *r == old(self).mass@[a as int],
            final(self).mass@ == old(self).mass@.update(a as int, *final(r)),
            final(self).velocity == old(self).velocity,
    {
        &mut self.mass[a]
    }

    /// The active blocks of `after` are zero, and the others are those of `before`.
    pub open spec fn is_zeroed(before: Self, after: Self, active: Seq<usize>) -> bool {
        &&& forall|a: int|
            0 <= a < 3 ==> zeroed(&before.velocity@[a], #[trigger] &after.velocity@[a], active)
        &&& forall|a: int| 0 <= a < 3 ==> zeroed(&before.mass@[a], #[trigger] &after.mass@[a], active)
    }

    /// Allocates and zeroes every field over the active blocks.
    pub fn zero_blocks(&mut self, active: &Vec<usize>)
        requires
            old(self).wf(),
            forall|i: int|
                0 <= i < active@.len() ==> (#[trigger] active@[i]) < old(self).velocity@[0].n_blocks,
            forall|a: int|
                0 <= a < 3 ==> has_room_for(#[trigger] &old(self).velocity@[a], active@),
            forall|a: int| 0 <= a < 3 ==> has_room_for(#[trigger] &old(self).mass@[a], active@),
        ensures
            final(self).wf(),
            final(self).same_sizes(old(self)),
            Self::is_zeroed(*old(self), *final(self), active@),
    {
        let mut a: usize = 0;
        while a < 3
            invariant
                a <= 3,
                old(self).wf(),
                self.wf(),
                self.spec_sx() == old(self).spec_sx(),
                self.spec_sy() == old(self).spec_sy(),
                self.spec_sz() == old(self).spec_sz(),
                forall|i: int|
                    0 <= i < active@.len() ==> (#[trigger] active@[i])
                        < old(self).velocity@[0].n_blocks,
                forall|k: int|
                    0 <= k < 3 ==> has_room_for(#[trigger] &old(self).velocity@[k], active@),
                forall|k: int| 0 <= k < 3 ==> has_room_for(#[trigger] &old(self).mass@[k], active@),
                forall|k: int|
                    0 <= k < a ==> zeroed(
                        &old(self).velocity@[k],
                        #[trigger] &self.velocity@[k],
                        active@,
                    ),
                forall|k: int|
                    0 <= k < a ==> zeroed(
                        &old(self).mass@[k],
                        #[trigger] &self.mass@[k],
                        active@,
                    ),
                forall|k: int|
                    a <= k < 3 ==> #[trigger] self.velocity@[k] == old(self).velocity@[k],
                forall|k: int| a <= k < 3 ==> #[trigger] self.mass@[k] == old(self).mass@[k],
            decreases 3 - a,
        {
            proof {
                assert(is_face_grid(
                    &self.velocity@[a as int],
                    self.spec_sx(),
                    self.spec_sy(),
                    self.spec_sz(),
                ));
                assert(is_face_grid(
                    &self.mass@[a as int],
                    self.spec_sx(),
                    self.spec_sy(),
                    self.spec_sz(),
                ));
                assert(is_face_grid(
                    &old(self).velocity@[0],
                    self.spec_sx(),
                    self.spec_sy(),
                    self.spec_sz(),
                ));
                assert(self.velocity@[a as int] == old(self).velocity@[a as int]);
                assert(self.mass@[a as int] == old(self).mass@[a as int]);
            }
            zero_field(&mut self.velocity[a], active);
            zero_field(&mut self.mass[a], active);
            a = a + 1;
        }
    }
}

/// The pool of the grid has room for those of the active blocks that are not allocated.
pub open spec fn has_room_for<const BSX: usize, const N: usize>(
    g: &SparseGrid<Scalar, BSX, N>,
    active: Seq<usize>,
) -> bool {
    g.missing(active, active.len() as int) <= g.spec_free()
}

/// No block of the grid is allocated.
pub open spec fn all_empty<const BSX: usize, const N: usize>(g: &SparseGrid<Scalar, BSX, N>) -> bool {
    forall|b: int| 0 <= b < g.n_blocks ==> #[trigger] g.kind(b) is Empty
}

/// The active blocks are allocated and zero, and the others are as they were.
pub open spec fn zeroed<const BSX: usize, const N: usize>(
    before: &SparseGrid<Scalar, BSX, N>,
    after: &SparseGrid<Scalar, BSX, N>,
    active: Seq<usize>,
) -> bool {
    &&& after.wf()
    &&& after.same_shape(before)
    &&& after.spec_free() == before.spec_free() - before.missing(active, active.len() as int)
    &&& forall|i: int| 0 <= i < active.len() ==> after.kind(#[trigger] active[i] as int) is Allocated
    &&& forall|b: int, v: int|
        0 <= b < before.n_blocks && active.contains(b as usize) && 0 <= v < N
            ==> #[trigger] after.block_value(b, v) == Scalar(0)
    &&& forall|b: int|
        0 <= b < before.n_blocks && !active.contains(b as usize) ==> #[trigger] after.same_block(
            before,
            b,
        )
}

fn zero_field<const BSX: usize, const N: usize>(
    grid: &mut SparseGrid<Scalar, BSX, N>,
    active: &Vec<usize>,
)
    requires
        old(grid).wf(),
        forall|i: int| 0 <= i < active@.len() ==> (#[trigger] active@[i]) < old(grid).n_blocks,
        has_room_for(old(grid), active@),
    ensures
        zeroed(old(grid), final(grid), active@),
{
    grid.ensure_blocks(active);
    let ghost mid = *grid;
    grid.fill_blocks(active, Scalar(0));
    proof {
        assert forall|b: int|
            0 <= b < old(grid).n_blocks && !active@.contains(b as usize) implies #[trigger] grid.same_block(
            old(grid),
            b,
        ) by {
            assert(grid.same_block(&mid, b));
            assert(mid.same_block(old(grid), b));
        }
        assert forall|i: int| 0 <= i < active@.len() implies grid.kind(#[trigger] active@[i] as int) is Allocated by {
            assert(mid.kind(active@[i] as int) is Allocated);
            assert(grid.kind(active@[i] as int) == mid.kind(active@[i] as int));
        }
    }
}

/// `after` is `f` of the two fields, voxel by voxel.
pub open spec fn is_zip<F: Fn(Scalar, Scalar) -> Scalar>(
    f: &F,
    a: Seq<Scalar>,
    b: Seq<Scalar>,
    after: Seq<Scalar>,
) -> bool {
    &&& after.len() == a.len()
    &&& forall|v: int|
        0 <= v < after.len() ==> call_ensures(*f, (a[v], b[v]), #[trigger] after[v])
}

/// What normalizing makes of a velocity field: in each active block that is allocated, every voxel is
/// `ratio` of momentum and mass, and all else stays as it was.
pub open spec fn normalized<
    const BSX: usize,
    const N: usize,
    F: Fn(Scalar, Scalar) -> Scalar,
>(
    before: &SparseGrid<Scalar, BSX, N>,
    after: &SparseGrid<Scalar, BSX, N>,
    mass: &SparseGrid<Scalar, BSX, N>,
    active: Seq<usize>,
    ratio: &F,
) -> bool {
    &&& after.wf()
    &&& after.same_shape(before)
    &&& forall|b: int| 0 <= b < before.n_blocks ==> #[trigger] after.kind(b) == before.kind(b)
    &&& forall|b: int|
        0 <= b < before.n_blocks && !(active.contains(b as usize) && before.kind(b) is Allocated)
            ==> #[trigger] after.same_block(before, b)
    &&& forall|b: usize| #[trigger]
        active.contains(b) && before.kind(b as int) is Allocated ==> is_zip(
            ratio,
            before.block_data(b as int),
            mass.block_data(b as int),
            after.block_data(b as int),
        )
}

fn zip_block<const BSX: usize, const N: usize, F: Fn(Scalar, Scalar) -> Scalar>(
    vel: &SparseGrid<Scalar, BSX, N>,
    mass: &SparseGrid<Scalar, BSX, N>,
    bid: usize,
    ratio: &F,
) -> (r: Option<Vec<Scalar>>)
    requires
        vel.wf(),
        mass.wf(),
        bid < vel.n_blocks,
        bid < mass.n_blocks,
        forall|a: Scalar, b: Scalar| #[trigger] call_requires(*ratio, (a, b)),
    ensures
        r is Some == vel.kind(bid as int) is Allocated,
        r matches Some(d) ==> d@.len() == N && is_zip(
            ratio,
            vel.block_data(bid as int),
            mass.block_data(bid as int),
            d@,
        ),
{
    match vel.block_kind(bid) {
        BlockKind::Allocated(_) => {
            let mut d: Vec<Scalar> = Vec::with_capacity(N);
            let mut v: usize = 0;
            while v < N
                invariant
                    v <= N,
                    vel.wf(),
                    mass.wf(),
                    bid < vel.n_blocks,
                    bid < mass.n_blocks,
                    forall|a: Scalar, b: Scalar| #[trigger] call_requires(*ratio, (a, b)),
                    d@.len() == v,
                    forall|k: int|
                        0 <= k < v ==> call_ensures(
                            *ratio,
                            (vel.block_value(bid as int, k), mass.block_value(bid as int, k)),
                            #[trigger] d@[k],
                        ),
                decreases N - v,
            {
                d.push(ratio(vel.value_at(bid, v), mass.value_at(bid, v)));
                v = v + 1;
            }
            Some(d)
        },
        _ => None,
    }
}

fn normalize_field<
    const BSX: usize,
    const N: usize,
    F: Fn(Scalar, Scalar) -> Scalar + Send + Sync,
>(
    vel: &mut SparseGrid<Scalar, BSX, N>,
    mass: &SparseGrid<Scalar, BSX, N>,
    active: &Vec<usize>,
    ratio: &F,
)
    requires
        old(vel).wf(),
        mass.wf(),
        old(vel).n_blocks == mass.n_blocks,
        forall|i: int| 0 <= i < active@.len() ==> (#[trigger] active@[i]) < mass.n_blocks,
        forall|a: Scalar, b: Scalar| #[trigger] call_requires(*ratio, (a, b)),
    ensures
        normalized(old(vel), final(vel), mass, active@, ratio),
{
    let view: &SparseGrid<Scalar, BSX, N> = &*vel;
    let work = |i: usize| -> (r: Option<Vec<Scalar>>)
        requires
            view.wf(),
            mass.wf(),
            i < active@.len(),
            active@[i as int] < view.n_blocks,
            active@[i as int] < mass.n_blocks,
            forall|a: Scalar, b: Scalar| #[trigger] call_requires(*ratio, (a, b)),
        ensures
            r is Some == view.kind(active@[i as int] as int) is Allocated,
            r matches Some(d) ==> d@.len() == N && is_zip(
                ratio,
                view.block_data(active@[i as int] as int),
                mass.block_data(active@[i as int] as int),
                d@,
            ),
    { zip_block(view, mass, active[i], ratio) };
    let updates: Vec<Option<Vec<Scalar>>> = crate::par::map_index(active.len(), work);
    proof {
        assert forall|i: int| 0 <= i < active@.len() implies {
            &&& (#[trigger] updates@[i]) is Some == old(vel).kind(active@[i] as int) is Allocated
            &&& updates@[i] matches Some(d) ==> d@.len() == N && is_zip(
                ratio,
                old(vel).block_data(active@[i] as int),
                mass.block_data(active@[i] as int),
                d@,
            )
        } by {
            assert(updates@[(i as usize) as int] == updates@[i]);
        }
    }
    vel.set_blocks(active, &updates);
    proof {
        assert forall|b: int|
            0 <= b < old(vel).n_blocks && !(active@.contains(b as usize) && old(vel).kind(
                b,
            ) is Allocated) implies #[trigger] vel.same_block(old(vel), b) by {
            if SparseGrid::<Scalar, BSX, N>::is_updated(active@, updates@, b) {
                let k = choose|k: int|
                    0 <= k < active@.len() && #[trigger] active@[k] == b && updates@[k] is Some;
                assert(active@.contains(b as usize));
            }
        }
        assert forall|b: usize| #[trigger] active@.contains(b) && old(vel).kind(b as int) is Allocated implies is_zip(
            ratio,
            old(vel).block_data(b as int),
            mass.block_data(b as int),
            vel.block_data(b as int),
        ) by {
            let k = choose|k: int| 0 <= k < active@.len() && active@[k] == b;
            assert(updates@[k] is Some);
            assert(active@[k] == b as int);
            assert(SparseGrid::<Scalar, BSX, N>::is_updated(active@, updates@, b as int));
            let data = vel.block_data(b as int);
            let j = choose|j: int|
                0 <= j < active@.len() && #[trigger] active@[j] == b as int && updates@[j] is Some
                    && updates@[j].unwrap()@ == data;
            assert(updates@[j] is Some);
        }
    }
}

impl<const BSX: usize, const N: usize> MacGrid<BSX, N> {
    /// The velocities of `after` are those of `before` over the masses, in the active blocks.
    pub open spec fn is_normalized<F: Fn(Scalar, Scalar) -> Scalar>(
        before: Self,
        after: Self,
        active: Seq<usize>,
        ratio: &F,
    ) -> bool {
        &&& after.mass == before.mass
        &&& forall|a: int|
            0 <= a < 3 ==> normalized(
                &before.velocity@[a],
                #[trigger] &after.velocity@[a],
                &before.mass@[a],
                active,
                ratio,
            )
    }

    /// Turns the momentum that the velocity fields hold into velocity: `ratio` of momentum and mass.
    pub fn normalize_velocity<F: Fn(Scalar, Scalar) -> Scalar + Send + Sync>(
        &mut self,
        active: &Vec<usize>,
        ratio: &F,
    )
        requires
            old(self).wf(),
            forall|i: int|
                0 <= i < active@.len() ==> (#[trigger] active@[i]) < old(self).velocity@[0].n_blocks,
            forall|a: Scalar, b: Scalar| #[trigger] call_requires(*ratio, (a, b)),
        ensures
            final(self).wf(),
            final(self).same_sizes(old(self)),
            Self::is_normalized(*old(self), *final(self), active@, ratio),
    {
        let mut a: usize = 0;
        while a < 3
            invariant
                a <= 3,
                old(self).wf(),
                self.wf(),
                self.mass == old(self).mass,
                self.spec_sx() == old(self).spec_sx(),
                self.spec_sy() == old(self).spec_sy(),
                self.spec_sz() == old(self).spec_sz(),
                forall|i: int|
                    0 <= i < active@.len() ==> (#[trigger] active@[i])
                        < old(self).velocity@[0].n_blocks,
                forall|a: Scalar, b: Scalar| #[trigger] call_requires(*ratio, (a, b)),
                forall|k: int|
                    0 <= k < a ==> normalized(
                        &old(self).velocity@[k],
                        #[trigger] &self.velocity@[k],
                        &old(self).mass@[k],
                        active@,
                        ratio,
                    ),
                forall|k: int|
                    a <= k < 3 ==> #[trigger] self.velocity@[k] == old(self).velocity@[k],
            decreases 3 - a,
        {
            proof {
                assert(is_face_grid(
                    &self.velocity@[a as int],
                    self.spec_sx(),
                    self.spec_sy(),
                    self.spec_sz(),
                ));
                assert(is_face_grid(
                    &self.mass@[a as int],
                    self.spec_sx(),
                    self.spec_sy(),
                    self.spec_sz(),
                ));
                assert(is_face_grid(
                    &old(self).velocity@[0],
                    self.spec_sx(),
                    self.spec_sy(),
                    self.spec_sz(),
                ));
                assert(self.velocity@[a as int] == old(self).velocity@[a as int]);
            }
            normalize_field(&mut self.velocity[a], &self.mass[a], active, ratio);
            a = a + 1;
        }
    }
}

/// The value at the left face of a cell: that of the right face of the cell before it, and zero at the
/// domain border.
pub open spec fn left_face<const BSX: usize, const N: usize>(
    g: &SparseGrid<Scalar, BSX, N>,
    x: int,
    y: int,
    z: int,
    axis: int,
) -> Scalar {
    if axis == 0 {
        if x == 0 { Scalar(0) } else { g.voxel(x - 1, y, z) }
    } else if axis == 1 {
        if y == 0 { Scalar(0) } else { g.voxel(x, y - 1, z) }
    } else {
        if z == 0 { Scalar(0) } else { g.voxel(x, y, z - 1) }
    }
}

/// The six face values of cell `(x, y, z)`: right and left along x, then along y, then along z.
pub open spec fn face_values<const BSX: usize, const N: usize>(
    mac: &MacGrid<BSX, N>,
    x: int,
    y: int,
    z: int,
) -> Seq<Scalar> {
    seq![
        mac.velocity@[0].voxel(x, y, z),
        left_face(&mac.velocity@[0], x, y, z, 0),
        mac.velocity@[1].voxel(x, y, z),
        left_face(&mac.velocity@[1], x, y, z, 1),
        mac.velocity@[2].voxel(x, y, z),
        left_face(&mac.velocity@[2], x, y, z, 2),
    ]
}

/// `r` is what `div` gives for the six face values.
pub open spec fn is_divergence<F: Fn([Scalar; 6]) -> Scalar>(div: &F, faces: Seq<Scalar>, r: Scalar) -> bool {
    exists|a: [Scalar; 6]| a@ == faces && #[trigger] call_ensures(*div, (a,), r)
}

impl<const BSX: usize, const N: usize> MacGrid<BSX, N> {
    /// The six face values of a cell.
    fn faces(&self, x: usize, y: usize, z: usize) -> (r: [Scalar; 6])
        requires
            self.wf(),
            x < self.spec_sx(),
            y < self.spec_sy(),
            z < self.spec_sz(),
        ensures
            r@ == face_values(self, x as int, y as int, z as int),
    {
        proof {
            let (sx, sy, sz) = (self.spec_sx(), self.spec_sy(), self.spec_sz());
            assert(is_face_grid(&self.velocity@[0], sx, sy, sz));
            assert(is_face_grid(&self.velocity@[1], sx, sy, sz));
            assert(is_face_grid(&self.velocity@[2], sx, sy, sz));
        }
        let (u, v, w) = (&self.velocity[X], &self.velocity[Y], &self.velocity[Z]);
        let u1: Scalar = u.get_voxel(x, y, z);
        let u0: Scalar = if x == 0 { Scalar(0) } else { u.get_voxel(x - 1, y, z) };
        let v1: Scalar = v.get_voxel(x, y, z);
        let v0: Scalar = if y == 0 { Scalar(0) } else { v.get_voxel(x, y - 1, z) };
        let w1: Scalar = w.get_voxel(x, y, z);
        let w0: Scalar = if z == 0 { Scalar(0) } else { w.get_voxel(x, y, z - 1) };
        let r: [Scalar; 6] = [u1, u0, v1, v0, w1, w0];
        assert(r@ =~= face_values(self, x as int, y as int, z as int));
        r
    }

    /// `after` is `before` with the divergence at the cells of the active blocks.
    pub open spec fn is_divergence_of<F: Fn([Scalar; 6]) -> Scalar>(
        &self,
        before: SparseGrid<Scalar, BSX, N>,
        after: SparseGrid<Scalar, BSX, N>,
        active: Seq<usize>,
        div: &F,
    ) -> bool {
        &&& after.wf()
        &&& after.same_shape(&before)
        &&& after.spec_free() == before.spec_free() - before.missing(active, active.len() as int)
        &&& forall|i: int|
            0 <= i < active.len() ==> after.kind(#[trigger] active[i] as int) is Allocated
        &&& forall|b: int|
            0 <= b < before.n_blocks && !active.contains(b as usize) ==> #[trigger] after.kind(b)
                == before.kind(b)
        &&& forall|x: int, y: int, z: int|
            before.has_voxel(x, y, z) ==> (if active.contains(before.bid_of(x, y, z) as usize) {
                is_divergence(
                    div,
                    face_values(self, x, y, z),
                    #[trigger] after.voxel(x, y, z),
                )
            } else {
                after.voxel(x, y, z) == before.voxel(x, y, z)
            })
    }

    /// Divergence at the cells of the active blocks: `div` of the six face values of each cell. The
    /// faces at the lower domain border count as zero. The blocks of `dst` are allocated first.
    pub fn divergence<F: Fn([Scalar; 6]) -> Scalar>(
        &self,
        dst: &mut SparseGrid<Scalar, BSX, N>,
        active: &Vec<usize>,
        div: &F,
    )
        requires
            self.wf(),
            old(dst).wf(),
            old(dst).sx == self.spec_sx(),
            old(dst).sy == self.spec_sy(),
            old(dst).sz == self.spec_sz(),
            forall|i: int| 0 <= i < active@.len() ==> (#[trigger] active@[i]) < old(dst).n_blocks,
            has_room_for(old(dst), active@),
            forall|a: [Scalar; 6]| #[trigger] call_requires(*div, (a,)),
        ensures
            self.is_divergence_of(*old(dst), *final(dst), active@, div),
    {
        dst.ensure_blocks(active);
        let ghost mid = *dst;
        proof {
            assert forall|x: int, y: int, z: int|
                old(dst).has_voxel(x, y, z) && !active@.contains(
                    old(dst).bid_of(x, y, z) as usize,
                ) implies #[trigger] mid.voxel(x, y, z) == old(dst).voxel(x, y, z) by {
                old(dst).lemma_ids(x, y, z);
                let b = old(dst).bid_of(x, y, z);
                assert(mid.same_block(old(dst), b));
                let v = SparseGrid::<Scalar, BSX, N>::vid_of(x, y, z);
                assert(mid.block_value(b, v) == old(dst).block_value(b, v));
            }
        }
        let mut i: usize = 0;
        while i < active.len()
            invariant
                i <= active@.len(),
                self.wf(),
                mid.wf(),
                dst.wf(),
                dst.same_shape(&mid),
                dst.spec_free() == mid.spec_free(),
                mid.same_shape(old(dst)),
                mid.sx == self.spec_sx(),
                mid.sy == self.spec_sy(),
                mid.sz == self.spec_sz(),
                forall|k: int| 0 <= k < active@.len() ==> (#[trigger] active@[k]) < mid.n_blocks,
                forall|k: int|
                    0 <= k < active@.len() ==> mid.kind(#[trigger] active@[k] as int) is Allocated,
                forall|a: [Scalar; 6]| #[trigger] call_requires(*div, (a,)),
                forall|b: int|
                    0 <= b < mid.n_blocks ==> #[trigger] dst.kind(b) == mid.kind(b),
                forall|x: int, y: int, z: int|
                    mid.has_voxel(x, y, z) ==> (if active@.take(i as int).contains(
                        mid.bid_of(x, y, z) as usize,
                    ) {
                        is_divergence(
                            div,
                            face_values(self, x, y, z),
                            #[trigger] dst.voxel(x, y, z),
                        )
                    } else {
                        dst.voxel(x, y, z) == mid.voxel(x, y, z)
                    }),
            decreases active@.len() - i,
        {
            let ghost prior = *dst;
            assert(mid.kind(active@[i as int] as int) is Allocated);
            assert(dst.kind(active@[i as int] as int) == mid.kind(active@[i as int] as int));
            self.divergence_block(dst, active[i], div);
            proof {
                let bid = active@[i as int];
                let s0 = active@.take(i as int);
                let s1 = active@.take(i + 1);
                assert(s1[i as int] == bid);
                assert forall|b: int| 0 <= b < mid.n_blocks implies #[trigger] dst.kind(b)
                    == mid.kind(b) by {
                    assert(prior.kind(b) == mid.kind(b));
                }
                assert forall|x: int, y: int, z: int| mid.has_voxel(x, y, z) implies (if s1.contains(
                    mid.bid_of(x, y, z) as usize,
                ) {
                    is_divergence(
                        div,
                        face_values(self, x, y, z),
                        #[trigger] dst.voxel(x, y, z),
                    )
                } else {
                    dst.voxel(x, y, z) == mid.voxel(x, y, z)
                }) by {
                    mid.lemma_ids(x, y, z);
                    let b = mid.bid_of(x, y, z) as usize;
                    assert(prior.voxel(x, y, z) == prior.voxel(x, y, z));
                    if b != bid {
                        assert(s1.contains(b) <==> s0.contains(b)) by {
                            if s1.contains(b) {
                                let k = choose|k: int| 0 <= k < s1.len() && s1[k] == b;
                                assert(s0[k] == b);
                            }
                            if s0.contains(b) {
                                let k = choose|k: int| 0 <= k < s0.len() && s0[k] == b;
                                assert(s1[k] == b);
                            }
                        }
                    } else {
                        assert(s1.contains(b));
                    }
                }
            }
            i = i + 1;
        }
        proof {
            assert(active@.take(active@.len() as int) =~= active@);
            assert forall|k: int| 0 <= k < active@.len() implies dst.kind(#[trigger] active@[k] as int) is Allocated by {
                assert(mid.kind(active@[k] as int) is Allocated);
                assert(dst.kind(active@[k] as int) == mid.kind(active@[k] as int));
            }
            assert forall|b: int| 0 <= b < old(dst).n_blocks && !active@.contains(
                b as usize,
            ) implies #[trigger] dst.kind(b) == old(dst).kind(b) by {
                assert(mid.same_block(old(dst), b));
                assert(dst.kind(b) == mid.kind(b));
            }
        }
    }

    /// Divergence at the cells of one block.
    fn divergence_block<F: Fn([Scalar; 6]) -> Scalar>(
        &self,
        dst: &mut SparseGrid<Scalar, BSX, N>,
        bid: usize,
        div: &F,
    )
        requires
            self.wf(),
            old(dst).wf(),
            old(dst).sx == self.spec_sx(),
            old(dst).sy == self.spec_sy(),
            old(dst).sz == self.spec_sz(),
            bid < old(dst).n_blocks,
            old(dst).kind(bid as int) is Allocated,
            forall|a: [Scalar; 6]| #[trigger] call_requires(*div, (a,)),
        ensures
            final(dst).wf(),
            final(dst).same_shape(old(dst)),
            final(dst).spec_free() == old(dst).spec_free(),
            forall|b: int|
                0 <= b < old(dst).n_blocks ==> #[trigger] final(dst).kind(b) == old(dst).kind(b),
            forall|x: int, y: int, z: int|
                old(dst).has_voxel(x, y, z) ==> (if old(dst).bid_of(x, y, z) == bid {
                    is_divergence(
                        div,
                        face_values(self, x, y, z),
                        #[trigger] final(dst).voxel(x, y, z),
                    )
                } else {
                    final(dst).voxel(x, y, z) == old(dst).voxel(x, y, z)
                }),
    {
        let (bx, by, bz) = dst.get_block_coords_by_id(bid);
        let ghost b = BSX as int;
        let ghost nb = dst.n_blocks as int;
        proof {
            crate::multires::halo::lemma_origin(bx as int, dst.sx as int, b);
            crate::multires::halo::lemma_origin(by as int, dst.sy as int, b);
            crate::multires::halo::lemma_origin(bz as int, dst.sz as int, b);
        }
        let x0: usize = BSX * bx;
        let y0: usize = BSX * by;
        let z0: usize = BSX * bz;
        let mut vid: usize = 0;
        while vid < N
            invariant
                self.wf(),
                crate::blockpool::block_shape(BSX as int, N as int),
                b == BSX,
                old(dst).wf(),
                dst.wf(),
                dst.same_shape(old(dst)),
                dst.spec_free() == old(dst).spec_free(),
                old(dst).sx == self.spec_sx(),
                old(dst).sy == self.spec_sy(),
                old(dst).sz == self.spec_sz(),
                bid < old(dst).n_blocks,
                old(dst).kind(bid as int) is Allocated,
                crate::layout::in_box(
                    bx as int,
                    by as int,
                    bz as int,
                    old(dst).nx as int,
                    old(dst).ny as int,
                    old(dst).nz as int,
                ),
                crate::layout::index3(
                    bx as int,
                    by as int,
                    bz as int,
                    old(dst).nx as int,
                    old(dst).ny as int,
                ) == bid,
                x0 == b * bx,
                y0 == b * by,
                z0 == b * bz,
                x0 < dst.sx,
                y0 < dst.sy,
                z0 < dst.sz,
                forall|a: [Scalar; 6]| #[trigger] call_requires(*div, (a,)),
                vid <= N,
                forall|q: int|
                    0 <= q < old(dst).n_blocks ==> #[trigger] dst.kind(q) == old(dst).kind(q),
                forall|x: int, y: int, z: int|
                    old(dst).has_voxel(x, y, z) ==> (if old(dst).bid_of(x, y, z) == bid
                        && SparseGrid::<Scalar, BSX, N>::vid_of(x, y, z) < vid {
                        is_divergence(
                            div,
                            face_values(self, x, y, z),
                            #[trigger] dst.voxel(x, y, z),
                        )
                    } else {
                        dst.voxel(x, y, z) == old(dst).voxel(x, y, z)
                    }),
            decreases N - vid,
        {
            let ghost prior = *dst;
            proof {
                crate::layout::lemma_coords3(vid as int, b, b, b);
            }
            let vx: usize = vid % BSX;
            let vy: usize = (vid / BSX) % BSX;
            let vz: usize = (vid / BSX) / BSX;
            if vx < dst.sx - x0 && vy < dst.sy - y0 && vz < dst.sz - z0 {
                let (x, y, z): (usize, usize, usize) = (x0 + vx, y0 + vy, z0 + vz);
                proof {
                    crate::layout::lemma_block_split(bx as int, vx as int, b);
                    crate::layout::lemma_block_split(by as int, vy as int, b);
                    crate::layout::lemma_block_split(bz as int, vz as int, b);
                    assert(old(dst).bid_of(x as int, y as int, z as int) == bid);
                    assert(SparseGrid::<Scalar, BSX, N>::vid_of(x as int, y as int, z as int) == vid);
                    assert(dst.kind(bid as int) == old(dst).kind(bid as int));
                }
                let faces: [Scalar; 6] = self.faces(x, y, z);
                let d: Scalar = div(faces);
                assert(is_divergence(div, face_values(self, x as int, y as int, z as int), d));
                dst.write_voxel(x, y, z, d);
                proof {
                    assert forall|x2: int, y2: int, z2: int| old(dst).has_voxel(x2, y2, z2) implies (
                    if old(dst).bid_of(x2, y2, z2) == bid && SparseGrid::<Scalar, BSX, N>::vid_of(
                        x2,
                        y2,
                        z2,
                    ) < vid + 1 {
                        is_divergence(
                            div,
                            face_values(self, x2, y2, z2),
                            #[trigger] dst.voxel(x2, y2, z2),
                        )
                    } else {
                        dst.voxel(x2, y2, z2) == old(dst).voxel(x2, y2, z2)
                    }) by {
                        assert(prior.voxel(x2, y2, z2) == prior.voxel(x2, y2, z2));
                        if old(dst).bid_of(x2, y2, z2) == bid && SparseGrid::<
                            Scalar,
                            BSX,
                            N,
                        >::vid_of(x2, y2, z2) == vid {
                            old(dst).law_voxel_ids_injective(
                                x2,
                                y2,
                                z2,
                                x as int,
                                y as int,
                                z as int,
                            );
                        }
                    }
                }
            } else {
                proof {
                    assert forall|x2: int, y2: int, z2: int|
                        old(dst).has_voxel(x2, y2, z2) && old(dst).bid_of(x2, y2, z2) == bid implies #[trigger] SparseGrid::<
                        Scalar,
                        BSX,
                        N,
                    >::vid_of(x2, y2, z2) != vid by {
                        old(dst).lemma_ids(x2, y2, z2);
                        crate::layout::lemma_index3_injective(
                            x2 / b,
                            y2 / b,
                            z2 / b,
                            bx as int,
                            by as int,
                            bz as int,
                            old(dst).nx as int,
                            old(dst).ny as int,
                            old(dst).nz as int,
                        );
                        crate::layout::lemma_index3(x2 % b, y2 % b, z2 % b, b, b, b);
                        crate::layout::lemma_ceil_div(x2, old(dst).sx as int, b);
                        crate::layout::lemma_ceil_div(y2, old(dst).sy as int, b);
                        crate::layout::lemma_ceil_div(z2, old(dst).sz as int, b);
                    }
                }
            }
            vid = vid + 1;
        }
        proof {
            assert forall|x: int, y: int, z: int| old(dst).has_voxel(x, y, z) implies (if old(
                dst,
            ).bid_of(x, y, z) == bid {
                is_divergence(
                    div,
                    face_values(self, x, y, z),
                    #[trigger] dst.voxel(x, y, z),
                )
            } else {
                dst.voxel(x, y, z) == old(dst).voxel(x, y, z)
            }) by {
                old(dst).lemma_ids(x, y, z);
            }
        }
    }
}

/// The faces of a cell: the right ones are the velocities of the cell, and the left one along an
/// axis is the right one of the cell before it along that axis.
pub proof fn law_cells_share_faces<const BSX: usize, const N: usize>(
    mac: &MacGrid<BSX, N>,
    x: int,
    y: int,
    z: int,
)
    ensures
        face_values(mac, x, y, z).len() == 6,
        face_values(mac, x, y, z)[0] == mac.velocity@[0].voxel(x, y, z),
        face_values(mac, x, y, z)[2] == mac.velocity@[1].voxel(x, y, z),
        face_values(mac, x, y, z)[4] == mac.velocity@[2].voxel(x, y, z),
        x > 0 ==> face_values(mac, x, y, z)[1] == face_values(mac, x - 1, y, z)[0],
        y > 0 ==> face_values(mac, x, y, z)[3] == face_values(mac, x, y - 1, z)[2],
        z > 0 ==> face_values(mac, x, y, z)[5] == face_values(mac, x, y, z - 1)[4],
{
}

/// At the lower sides of the domain nothing flows in or out.
pub proof fn law_lower_sides_are_closed<const BSX: usize, const N: usize>(
    mac: &MacGrid<BSX, N>,
    x: int,
    y: int,
    z: int,
)
    ensures
        face_values(mac, 0, y, z)[1] == Scalar(0),
        face_values(mac, x, 0, z)[3] == Scalar(0),
        face_values(mac, x, y, 0)[5] == Scalar(0),
{
}

/// The divergence of a cell is `div` of its right and left face along x, then along y, then along z,
/// where the left faces are the velocities of the cells before it.
pub proof fn law_divergence_of_inner_cell<
    const BSX: usize,
    const N: usize,
    F: Fn([Scalar; 6]) -> Scalar,
>(mac: &MacGrid<BSX, N>, div: &F, x: int, y: int, z: int, r: Scalar)
    requires
        0 < x,
        0 < y,
        0 < z,
        is_divergence(div, face_values(mac, x, y, z), r),
    ensures
        exists|a: [Scalar; 6]|
            {
                &&& #[trigger] call_ensures(*div, (a,), r)
                &&& a@[0] == mac.velocity@[0].voxel(x, y, z)
                &&& a@[1] == mac.velocity@[0].voxel(x - 1, y, z)
                &&& a@[2] == mac.velocity@[1].voxel(x, y, z)
                &&& a@[3] == mac.velocity@[1].voxel(x, y - 1, z)
                &&& a@[4] == mac.velocity@[2].voxel(x, y, z)
                &&& a@[5] == mac.velocity@[2].voxel(x, y, z - 1)
            },
{
    let faces = face_values(mac, x, y, z);
    let a = choose|a: [Scalar; 6]| a@ == faces && #[trigger] call_ensures(*div, (a,), r);
    assert(a@[0] == faces[0]);
}

/// Normalizing, face by face: in the active blocks that are allocated the velocity at a face becomes
/// `ratio` of what it was and of the mass at the same face; everywhere else it stays.
pub proof fn law_normalize_at_face<
    const BSX: usize,
    const N: usize,
    F: Fn(Scalar, Scalar) -> Scalar,
>(
    before: &SparseGrid<Scalar, BSX, N>,
    after: &SparseGrid<Scalar, BSX, N>,
    mass: &SparseGrid<Scalar, BSX, N>,
    active: Seq<usize>,
    ratio: &F,
    x: int,
    y: int,
    z: int,
)
    requires
        before.wf(),
        mass.wf(),
        mass.sx == before.sx,
        mass.sy == before.sy,
        mass.sz == before.sz,
        normalized(before, after, mass, active, ratio),
        before.has_voxel(x, y, z),
    ensures
        ({
            let b = before.bid_of(x, y, z);
            if active.contains(b as usize) && before.kind(b) is Allocated {
                call_ensures(
                    *ratio,
                    (before.voxel(x, y, z), mass.voxel(x, y, z)),
                    after.voxel(x, y, z),
                )
            } else {
                after.voxel(x, y, z) == before.voxel(x, y, z)
            }
        }),
{
    before.lemma_ids(x, y, z);
    let b = before.bid_of(x, y, z);
    let v = SparseGrid::<Scalar, BSX, N>::vid_of(x, y, z);
    if active.contains(b as usize) && before.kind(b) is Allocated {
        assert((b as usize) as int == b);
        assert(is_zip(ratio, before.block_data(b), mass.block_data(b), after.block_data(b)));
        assert(after.block_data(b)[v] == after.block_value(b, v));
        assert(before.block_data(b)[v] == before.block_value(b, v));
        assert(mass.block_data(b)[v] == mass.block_value(b, v));
    } else {
        assert(after.same_block(before, b));
        assert(after.block_value(b, v) == before.block_value(b, v));
    }
}

/// Zeroing, face by face: the active blocks read as zero and are allocated, all others are as before.
pub proof fn law_zero_at_face<const BSX: usize, const N: usize>(
    before: &SparseGrid<Scalar, BSX, N>,
    after: &SparseGrid<Scalar, BSX, N>,
    active: Seq<usize>,
    x: int,
    y: int,
    z: int,
)
    requires
        before.wf(),
        zeroed(before, after, active),
        before.has_voxel(x, y, z),
    ensures
        active.contains(before.bid_of(x, y, z) as usize) ==> after.voxel(x, y, z) == Scalar(0)
            && after.kind(before.bid_of(x, y, z)) is Allocated,
        !active.contains(before.bid_of(x, y, z) as usize) ==> after.voxel(x, y, z) == before.voxel(
            x,
            y,
            z,
        ),
{
    before.lemma_ids(x, y, z);
    let b = before.bid_of(x, y, z);
    let v = SparseGrid::<Scalar, BSX, N>::vid_of(x, y, z);
    if active.contains(b as usize) {
        let i = choose|i: int| 0 <= i < active.len() && active[i] == b as usize;
        assert(after.kind(active[i] as int) is Allocated);
        assert(after.block_value(b, v) == Scalar(0));
    } else {
        assert(after.same_block(before, b));
        assert(after.block_value(b, v) == before.block_value(b, v));
    }
}

/// Zeroing, face by face and axis by axis: in the active blocks velocity and mass become zero, and
/// elsewhere they stay.
pub proof fn law_zero_all_axes<const BSX: usize, const N: usize>(
    before: MacGrid<BSX, N>,
    after: MacGrid<BSX, N>,
    active: Seq<usize>,
    a: int,
    x: int,
    y: int,
    z: int,
)
    requires
        before.wf(),
        MacGrid::is_zeroed(before, after, active),
        0 <= a < 3,
        0 <= x < before.spec_sx(),
        0 <= y < before.spec_sy(),
        0 <= z < before.spec_sz(),
    ensures
        active.contains(before.velocity@[a].bid_of(x, y, z) as usize) ==> after.velocity@[a].voxel(
            x,
            y,
            z,
        ) == Scalar(0) && after.mass@[a].voxel(x, y, z) == Scalar(0),
        !active.contains(before.velocity@[a].bid_of(x, y, z) as usize) ==> after.velocity@[a].voxel(
            x,
            y,
            z,
        ) == before.velocity@[a].voxel(x, y, z) && after.mass@[a].voxel(x, y, z)
            == before.mass@[a].voxel(x, y, z),
{
    let (v, m) = (&before.velocity@[a], &before.mass@[a]);
    let (sx, sy, sz) = (before.spec_sx(), before.spec_sy(), before.spec_sz());
    assert(is_face_grid(v, sx, sy, sz) && is_face_grid(m, sx, sy, sz));
    let (v2, m2) = (&after.velocity@[a], &after.mass@[a]);
    assert(zeroed(v, v2, active) && zeroed(m, m2, active));
    law_zero_at_face(v, v2, active, x, y, z);
    law_zero_at_face(m, m2, active, x, y, z);
}

/// Normalizing, axis by axis: each velocity becomes `ratio` of what it was and of the mass of the
/// same axis at the same face, in the active blocks that have memory of their own. The masses stay.
pub proof fn law_normalize_all_axes<
    const BSX: usize,
    const N: usize,
    F: Fn(Scalar, Scalar) -> Scalar,
>(
    before: MacGrid<BSX, N>,
    after: MacGrid<BSX, N>,
    active: Seq<usize>,
    ratio: &F,
    a: int,
    x: int,
    y: int,
    z: int,
)
    requires
        before.wf(),
        MacGrid::is_normalized(before, after, active, ratio),
        0 <= a < 3,
        0 <= x < before.spec_sx(),
        0 <= y < before.spec_sy(),
        0 <= z < before.spec_sz(),
    ensures
        ({
            let b = before.velocity@[a].bid_of(x, y, z);
            if active.contains(b as usize) && before.velocity@[a].kind(b) is Allocated {
                call_ensures(
                    *ratio,
                    (before.velocity@[a].voxel(x, y, z), before.mass@[a].voxel(x, y, z)),
                    after.velocity@[a].voxel(x, y, z),
                )
            } else {
                after.velocity@[a].voxel(x, y, z) == before.velocity@[a].voxel(x, y, z)
            }
        }),
        after.mass@[a].voxel(x, y, z) == before.mass@[a].voxel(x, y, z),
{
    let (v, m) = (&before.velocity@[a], &before.mass@[a]);
    let (sx, sy, sz) = (before.spec_sx(), before.spec_sy(), before.spec_sz());
    assert(is_face_grid(v, sx, sy, sz) && is_face_grid(m, sx, sy, sz));
    let v2 = &after.velocity@[a];
    assert(normalized(v, v2, m, active, ratio));
    law_normalize_at_face(v, v2, m, active, ratio, x, y, z);
}

/// The divergence at cell `(x, y, z)` of an active block is `div` of the velocities through its
/// faces: the upper and the lower one along x, then y, then z, where what flows through the lower
/// side of the domain is zero. All other cells stay.
pub proof fn law_divergence_at_cell<
    const BSX: usize,
    const N: usize,
    F: Fn([Scalar; 6]) -> Scalar,
>(
    mac: &MacGrid<BSX, N>,
    before: SparseGrid<Scalar, BSX, N>,
    after: SparseGrid<Scalar, BSX, N>,
    active: Seq<usize>,
    div: &F,
    x: int,
    y: int,
    z: int,
)
    requires
        mac.is_divergence_of(before, after, active, div),
        0 <= x < before.sx,
        0 <= y < before.sy,
        0 <= z < before.sz,
    ensures
        !active.contains(before.bid_of(x, y, z) as usize) ==> after.voxel(x, y, z) == before.voxel(
            x,
            y,
            z,
        ),
        active.contains(before.bid_of(x, y, z) as usize) ==> exists|a: [Scalar; 6]|
            {
                &&& #[trigger] call_ensures(*div, (a,), after.voxel(x, y, z))
                &&& a@[0] == mac.velocity@[0].voxel(x, y, z)
                &&& a@[2] == mac.velocity@[1].voxel(x, y, z)
                &&& a@[4] == mac.velocity@[2].voxel(x, y, z)
                &&& 0 < x ==> a@[1] == mac.velocity@[0].voxel(x - 1, y, z)
                &&& 0 < y ==> a@[3] == mac.velocity@[1].voxel(x, y - 1, z)
                &&& 0 < z ==> a@[5] == mac.velocity@[2].voxel(x, y, z - 1)
                &&& x == 0 ==> a@[1] == Scalar(0)
                &&& y == 0 ==> a@[3] == Scalar(0)
                &&& z == 0 ==> a@[5] == Scalar(0)
            },
{
    assert(before.has_voxel(x, y, z));
    let r = after.voxel(x, y, z);
    assert(r == r);
    if active.contains(before.bid_of(x, y, z) as usize) {
        let faces = face_values(mac, x, y, z);
        assert(is_divergence(div, faces, after.voxel(x, y, z)));
        let a = choose|a: [Scalar; 6]| a@ == faces && #[trigger] call_ensures(*div, (a,), r);
        assert(a@[0] == faces[0]);
    }
}

/// Velocity and mass of all axes live on grids of one size, zero where they have no memory.
pub proof fn law_fields_alike<const BSX: usize, const N: usize>(mac: &MacGrid<BSX, N>, a: int)
    requires
        mac.wf(),
        0 <= a < 3,
    ensures
        mac.velocity@[a].wf() && mac.mass@[a].wf(),
        mac.velocity@[a].sx == mac.velocity@[0].sx && mac.mass@[a].sx == mac.velocity@[0].sx,
        mac.velocity@[a].sy == mac.velocity@[0].sy && mac.mass@[a].sy == mac.velocity@[0].sy,
        mac.velocity@[a].sz == mac.velocity@[0].sz && mac.mass@[a].sz == mac.velocity@[0].sz,
        mac.velocity@[a].empty_value == Scalar(0) && mac.mass@[a].empty_value == Scalar(0),
        mac.spec_sx() == mac.velocity@[0].sx,
        mac.spec_sy() == mac.velocity@[0].sy,
        mac.spec_sz() == mac.velocity@[0].sz,
{
    let (v, m) = (&mac.velocity@[a], &mac.mass@[a]);
    let (sx, sy, sz) = (mac.spec_sx(), mac.spec_sy(), mac.spec_sz());
    assert(is_face_grid(v, sx, sy, sz) && is_face_grid(m, sx, sy, sz));
}

} // verus!
