//! Transfer between particles and a staggered grid.

pub mod g2p;
pub mod mac;
pub mod p2g;
pub mod particles;
