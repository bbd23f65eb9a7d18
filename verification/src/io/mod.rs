//! Reading point clouds.

pub mod ply;
