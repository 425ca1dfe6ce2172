//! Escrow of a secret scalar in encrypted segments.

pub mod correctness;
pub mod segmentation;
pub mod server;
