//! Exact integer matrix kernels.

pub mod mat_mul;
pub mod rsr;
pub mod size_reduction;
pub mod unimodular;
