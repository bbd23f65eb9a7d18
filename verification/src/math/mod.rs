//! Field access for sampling and stencils.

pub mod bilaplacian;
pub mod boundary;
pub mod gather;
pub mod interpolate;
pub mod laplacian;
pub mod meancurv;
pub mod sample;
pub mod stencil;
