//! Lattice Boltzmann (single-relaxation-time BGK) simulation of viscous flow
//! around obstacles.

pub mod grid;
pub mod lattice;
pub mod lbgk;

pub mod scalar;
