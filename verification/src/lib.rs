//! Spectral and structural analysis of graph-structured tile systems:
//! canonical graph Laplacians, call-graph cycle metrics, tile compiler
//! passes and holographic compression bounds.

pub mod holographic;
pub mod laplacian;
pub mod laplacian_energy;
mod wide;
pub mod ratio;
pub mod cycles;
pub mod cycle_order;
pub mod compiler;
pub mod sweep;
pub mod ecosystem;
