//! Verified core of the flatter lattice-reduction library: the sublattice
//! split schedule, exact integer matrix kernels, the FPLLL text format and
//! the dispatch decisions of the reduction driver.
#![allow(non_snake_case)]

pub mod fplll;
pub mod gemm_i64;
pub mod integer;
pub mod lattice;
pub mod math;
pub mod reduction;
