//! Terrain-conforming hexahedral mesh construction and a sparse-matrix
//! iterative linear solver.
//!
//! All geometry and matrix values are scaled integers (fixed-point units),
//! so every computation here is exact and verified; callers convert to and
//! from physical units at the boundary of the crate.

pub mod geometry;
pub mod math;
pub mod matrix_text;
pub mod mesher;
pub mod numeric;
pub mod terrain;
pub mod sparse_matrix;
pub mod sparse_system;

pub use sparse_matrix::SparseEntry;
pub use sparse_matrix::SparseMatrix;
pub use sparse_system::SolverResult;
pub use sparse_system::SparseSystem;
