//! Multiresolution sparse block grids, with machine-checked contracts.

pub mod arith;
pub mod blockmap;
pub mod blockpool;
pub mod channel;
pub mod fluid;
pub mod io;
pub mod layout;
pub mod math;
pub mod multires;
pub mod par;
pub mod particles;
pub mod render;
pub mod solver;
pub mod sparse_grid;

