//! Lattice primitives.
pub mod lwe;
