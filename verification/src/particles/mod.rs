//! From a particle cloud to a surface density: block footprints, bucketing, splatting and the final
//! per-voxel conversion.

pub mod active;
pub mod dims;
pub mod reduce;
pub mod sort;
pub mod splat;
pub mod surface;
pub mod finalize;
