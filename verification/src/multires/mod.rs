//! Multiresolution topology: block flags, refinement maps and resolution levels.

pub mod blockinfo;
pub mod refinement;
pub mod level;
pub mod cells;
pub mod grid;
pub mod halo;
pub mod iterator;
pub mod sort;
pub mod downsample;
