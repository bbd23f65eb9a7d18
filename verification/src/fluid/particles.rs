//! Particles with velocity, kind and mass, and their bucketing by block.

use crate::channel::{Scalar, Vec3};
use crate::particles::sort::{bucket_indices, permute};
use vstd::prelude::*;

verus! {

/// The kind of a liquid particle.
pub const KIND_LIQUID: u8 = 0;

/// The kind of an air particle.
pub const KIND_AIR: u8 = 1;

/// Particles, one array for each attribute.
pub struct Particles {
    pub positions: Vec<Vec3>,
    pub velocities: Vec<Vec3>,
    pub kinds: Vec<u8>,
    pub mass: Vec<Scalar>,
}

impl Particles {
    /// All attributes are there for every particle.
    pub open spec fn wf(&self) -> bool {
        &&& self.velocities@.len() == self.positions@.len()
        &&& self.kinds@.len() == self.positions@.len()
        &&& self.mass@.len() == self.positions@.len()
    }

    /// Number of particles.
    pub fn len(&self) -> (r: usize)
        ensures
            r == self.positions@.len(),
    {
        self.positions.len()
    }

    /// Whether there is no particle.
    pub fn is_empty(&self) -> (r: bool)
        ensures
            r == (self.positions@.len() == 0),
    {
        self.positions.len() == 0
    }

    /// Whether all attributes are there for every particle.
    pub fn is_consistent(&self) -> (r: bool)
        ensures
            r == self.wf(),
    {
        let n: usize = self.positions.len();
        self.velocities.len() == n && self.kinds.len() == n && self.mass.len() == n
    }
}

/// Particles in block-major order.
pub struct BucketedParticles {
    pub positions: Vec<Vec3>,
    pub velocities: Vec<Vec3>,
    pub kinds: Vec<u8>,
    pub mass: Vec<Scalar>,
    /// Blocks with at least one particle, by increasing id.
    pub particle_blocks: Vec<usize>,
    /// Start offsets of the blocks, and the number of particles at the end.
    pub starts: Vec<usize>,
}

/// `r` holds the particles in block-major order, all attributes by one permutation: `bids[j]` is the
/// block of particle `j`.
pub open spec fn is_bucketed(particles: &Particles, bids: Seq<usize>, r: &BucketedParticles) -> bool {
    exists|plan: crate::particles::sort::BucketPlan|
        {
            &&& #[trigger] crate::particles::sort::is_bucketing(bids, plan)
            &&& r.positions@ == crate::particles::sort::permuted(particles.positions@, plan.perm@)
            &&& r.velocities@ == crate::particles::sort::permuted(particles.velocities@, plan.perm@)
            &&& r.kinds@ == crate::particles::sort::permuted(particles.kinds@, plan.perm@)
            &&& r.mass@ == crate::particles::sort::permuted(particles.mass@, plan.perm@)
            &&& r.particle_blocks == plan.particle_blocks
            &&& r.starts == plan.starts
        }
}

/// Sorts particles into block-major order: `bids[j]` is the block of particle `j`.
pub fn bucket_particles(particles: &Particles, bids: &Vec<usize>) -> (r: BucketedParticles)
    requires
        particles.wf(),
        bids@.len() == particles.positions@.len(),
        crate::particles::sort::ids_ok(bids@),
    ensures
        is_bucketed(particles, bids@, &r),
{
    let plan = bucket_indices(bids);
    let ghost p = plan;
    assert(crate::particles::sort::is_bucketing(bids@, p));
    BucketedParticles {
        positions: permute(&particles.positions, &plan.perm),
        velocities: permute(&particles.velocities, &plan.perm),
        kinds: permute(&particles.kinds, &plan.perm),
        mass: permute(&particles.mass, &plan.perm),
        particle_blocks: plan.particle_blocks,
        starts: plan.starts,
    }
}

/// The bucketed particles are the particles, each with all that belongs to it, sorted by block: the
/// place they come from is the same for position, velocity, kind and mass, no two come from one
/// place, and of two particles the one in the lower block comes first, and in one block the one
/// that came first.
pub proof fn law_bucketed_together(
    particles: &Particles,
    bids: Seq<usize>,
    r: &BucketedParticles,
) -> (from: Seq<usize>)
    requires
        particles.wf(),
        bids.len() == particles.positions@.len(),
        is_bucketed(particles, bids, r),
    ensures
        from.len() == bids.len(),
        r.positions@.len() == bids.len(),
        r.velocities@.len() == bids.len(),
        r.kinds@.len() == bids.len(),
        r.mass@.len() == bids.len(),
        forall|i: int|
            0 <= i < from.len() ==> (#[trigger] from[i]) < bids.len() && r.positions@[i]
                == particles.positions@[from[i] as int] && r.velocities@[i]
                == particles.velocities@[from[i] as int] && r.kinds@[i]
                == particles.kinds@[from[i] as int] && r.mass@[i] == particles.mass@[from[i] as int],
        forall|i: int, j: int|
            #![trigger from[i], from[j]]
            0 <= i < j < from.len() ==> from[i] != from[j] && (bids[from[i] as int]
                < bids[from[j] as int] || (bids[from[i] as int] == bids[from[j] as int] && from[i]
                < from[j])),
{
    let plan = choose|plan: crate::particles::sort::BucketPlan|
        {
            &&& #[trigger] crate::particles::sort::is_bucketing(bids, plan)
            &&& r.positions@ == crate::particles::sort::permuted(particles.positions@, plan.perm@)
            &&& r.velocities@ == crate::particles::sort::permuted(particles.velocities@, plan.perm@)
            &&& r.kinds@ == crate::particles::sort::permuted(particles.kinds@, plan.perm@)
            &&& r.mass@ == crate::particles::sort::permuted(particles.mass@, plan.perm@)
            &&& r.particle_blocks == plan.particle_blocks
            &&& r.starts == plan.starts
        };
    let from = plan.perm@;
    assert forall|i: int, j: int|
        #![trigger from[i], from[j]]
        0 <= i < j < from.len() implies from[i] != from[j] && (bids[from[i] as int]
        < bids[from[j] as int] || (bids[from[i] as int] == bids[from[j] as int] && from[i]
        < from[j])) by {
        crate::particles::sort::law_bucketing_is_stable_sort(bids, plan, i, j);
    }
    from
}

} // verus!
