//! Stencils of the lattice Boltzmann models.

pub mod d2q9;
