//! Sparse triangular solves.
//!
//! Forward and backward substitution kernels for square sparse triangular
//! systems: four dense-right-hand-side solvers (one per storage orientation
//! and triangle side) and a sparse-right-hand-side solve that first discovers
//! the nonzero support of the solution by an iterative depth-first traversal
//! of the matrix's sub-diagonal dependency graph.
//!
//! Values are `i64` with two's-complement wrapping semantics; every contract
//! states the computed solution exactly over that arithmetic.

pub mod arith;
pub mod dense;
pub mod dstack;
pub mod errors;
pub mod laws;
pub mod mat;
pub mod spsolve;

pub use dense::check_solver_dimensions;
pub use dense::lsolve_csc_dense_rhs;
pub use dense::lsolve_csr_dense_rhs;
pub use dense::lspsolve_csc_process_col;
pub use dense::usolve_csc_dense_rhs;
pub use dense::usolve_csr_dense_rhs;
pub use dstack::extract_stack_val;
pub use dstack::DStack;
pub use dstack::StackVal;
pub use errors::SprsError;
pub use mat::CsMat;
pub use mat::CsVec;
pub use mat::Entry;
pub use mat::Storage;
pub use spsolve::lsolve_csc_sparse_rhs;
